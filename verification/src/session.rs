//! The search session: the current query, the latest result sequence, the
//! row where results start, and the transitions driven by key input. The
//! snapshot differ decides whether a freshly computed sequence needs a
//! redraw.
use vstd::prelude::*;
use crate::search::ResultEntry;
use crate::search::results_view;

verus! {

/// A decoded key event, as the session understands it.
pub enum KeyInput {
    Character(char),
    Backspace,
    Enter,
    Escape,
    Other,
}

/// Relies on `String::push`: appends the character to the string.
#[verifier::external_body]
fn push_char(s: &mut String, c: char)
    ensures
        final(s)@ == old(s)@.push(c),
{
    s.push(c);
}

/// Relies on `String::pop`: removes and returns the last character, or
/// returns `None` when the string is empty.
#[verifier::external_body]
fn pop_char(s: &mut String) -> (r: Option<char>)
    ensures
        old(s)@.len() == 0 ==> r is None && final(s)@ == old(s)@,
        old(s)@.len() > 0 ==> r == Some(old(s)@.last()) && final(s)@ == old(s)@.drop_last(),
{
    s.pop()
}

/// Whether two byte vectors hold the same bytes.
fn bytes_eq(a: &Vec<u8>, b: &Vec<u8>) -> (r: bool)
    ensures
        r == (a@ == b@),
{
    if a.len() != b.len() {
        return false;
    }
    let mut i: usize = 0;
    while i < a.len()
        invariant
            0 <= i <= a@.len(),
            a@.len() == b@.len(),
            forall|k: int| 0 <= k < i ==> a@[k] == b@[k],
        decreases a@.len() - i,
    {
        if a[i] != b[i] {
            return false;
        }
        i = i + 1;
    }
    proof {
        assert(a@ =~= b@);
    }
    true
}

/// Whether two range vectors hold the same ranges.
fn ranges_eq(a: &Vec<(usize, usize)>, b: &Vec<(usize, usize)>) -> (r: bool)
    ensures
        r == (a@ == b@),
{
    if a.len() != b.len() {
        return false;
    }
    let mut i: usize = 0;
    while i < a.len()
        invariant
            0 <= i <= a@.len(),
            a@.len() == b@.len(),
            forall|k: int| 0 <= k < i ==> a@[k] == b@[k],
        decreases a@.len() - i,
    {
        if a[i].0 != b[i].0 || a[i].1 != b[i].1 {
            assert(a@[i as int] != b@[i as int]);
            return false;
        }
        i = i + 1;
    }
    proof {
        assert(a@ =~= b@);
    }
    true
}

/// Whether two result entries are structurally equal.
fn entry_eq(a: &ResultEntry, b: &ResultEntry) -> (r: bool)
    ensures
        r == (a@ == b@),
{
    let same = a.file == b.file && bytes_eq(&a.display_line, &b.display_line) && ranges_eq(
        &a.display_ranges,
        &b.display_ranges,
    );
    proof {
        if same {
            assert(a@ == b@);
        } else {
            assert(a@ != b@);
        }
    }
    same
}

/// The snapshot differ: whether the two result sequences differ
/// structurally. Rendering is only worth doing when they do.
pub fn results_changed(previous: &Vec<ResultEntry>, current: &Vec<ResultEntry>) -> (r: bool)
    ensures
        r == (results_view(previous@) != results_view(current@)),
{
    if previous.len() != current.len() {
        assert(results_view(previous@).len() != results_view(current@).len());
        return true;
    }
    let mut i: usize = 0;
    while i < previous.len()
        invariant
            0 <= i <= previous@.len(),
            previous@.len() == current@.len(),
            forall|k: int| 0 <= k < i ==> #[trigger] previous@[k]@ == current@[k]@,
        decreases previous@.len() - i,
    {
        if !entry_eq(&previous[i], &current[i]) {
            assert(results_view(previous@)[i as int] != results_view(current@)[i as int]);
            return true;
        }
        i = i + 1;
    }
    proof {
        assert(results_view(previous@) =~= results_view(current@));
    }
    false
}

/// The row where a committed block's results start, clamped to the `u16`
/// range: three rows past the number of entries just frozen.
pub open spec fn spec_commit_row(shown: nat) -> u16 {
    if shown + 3 <= u16::MAX {
        (shown + 3) as u16
    } else {
        u16::MAX
    }
}

/// The state of one interactive search session.
pub struct SessionState {
    pub query: String,
    pub current_results: Vec<ResultEntry>,
    pub results_start_row: u16,
}

impl SessionState {
    /// A fresh session: empty query, no results, results starting below
    /// the prompt.
    pub fn new() -> (r: Self)
        ensures
            r.query@ == Seq::<char>::empty(),
            r.current_results@.len() == 0,
            r.results_start_row == 2,
    {
        SessionState { query: String::new(), current_results: Vec::new(), results_start_row: 2 }
    }

    /// Adopts a freshly computed result sequence and says whether it
    /// differs from the one currently shown; the query and the start row
    /// are untouched.
    pub fn update_results(&mut self, new_results: Vec<ResultEntry>) -> (changed: bool)
        ensures
            changed == (results_view(old(self).current_results@) != results_view(new_results@)),
            results_view(final(self).current_results@) == results_view(new_results@),
            final(self).query == old(self).query,
            final(self).results_start_row == old(self).results_start_row,
    {
        let changed = results_changed(&self.current_results, &new_results);
        if changed {
            self.current_results = new_results;
        }
        changed
    }

    /// One key event. A character extends the query; Backspace removes
    /// its last character, or does nothing on an empty query; Enter
    /// commits: the shown results freeze in place, the start row advances
    /// past them, and an empty query begins below; Escape ends the
    /// session (the result is `false`); any other key does nothing.
    pub fn apply_key(&mut self, key: KeyInput) -> (keep_running: bool)
        ensures
            (match key {
                KeyInput::Character(c) => keep_running && final(self).query@ == old(
                    self,
                ).query@.push(c) && final(self).current_results == old(self).current_results
                    && final(self).results_start_row == old(self).results_start_row,
                KeyInput::Backspace => keep_running && final(self).current_results == old(
                    self,
                ).current_results && final(self).results_start_row == old(self).results_start_row
                    && final(self).query@ == (if old(self).query@.len() > 0 {
                    old(self).query@.drop_last()
                } else {
                    old(self).query@
                }),
                KeyInput::Enter => keep_running && final(self).query@ == Seq::<char>::empty()
                    && final(self).current_results@.len() == 0 && final(self).results_start_row
                    == spec_commit_row(old(self).current_results@.len()),
                KeyInput::Escape => !keep_running && *final(self) == *old(self),
                KeyInput::Other => keep_running && *final(self) == *old(self),
            }),
    {
        match key {
            KeyInput::Character(c) => {
                push_char(&mut self.query, c);
                true
            },
            KeyInput::Backspace => {
                pop_char(&mut self.query);
                true
            },
            KeyInput::Enter => {
                let shown = self.current_results.len();
                self.query = String::new();
                self.current_results = Vec::new();
                self.results_start_row = if shown <= (u16::MAX - 3) as usize {
                    (shown as u16) + 3
                } else {
                    u16::MAX
                };
                true
            },
            KeyInput::Escape => false,
            KeyInput::Other => true,
        }
    }
}

} // verus!
