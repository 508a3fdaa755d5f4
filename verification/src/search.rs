//! The search pipeline: (file set, cache, query) to the render-ready
//! result sequence, plus the snapshot differ that decides whether the
//! sequence changed since the last tick.
use vstd::prelude::*;
use vstd::string::StrSliceExecFns;
use vstd::string::StringSliceAdditionalSpecFns;
use crate::cache::CacheModel;
use crate::cache::ContentCache;
use crate::cache::cache_wf;
use crate::cache::spec_get_or_load;
use crate::cache::storage_view;
use crate::lines::lines_view;
use crate::lines::spec_lines;
use crate::lines::split_lines;
use crate::lines::lemma_lines_bounded;
use crate::matcher::CompiledMatcher;
use crate::matcher::find_ranges;
use crate::matcher::pattern_ok;
use crate::window::spec_window;
use crate::window::window_line;

verus! {

/// One rendered search hit: the file it came from, the display string,
/// and the match ranges in display coordinates.
pub struct ResultEntry {
    pub file: String,
    pub display_line: Vec<u8>,
    pub display_ranges: Vec<(usize, usize)>,
}

/// The abstract value of a `ResultEntry`.
pub ghost struct EntryModel {
    pub file: Seq<char>,
    pub display_line: Seq<u8>,
    pub display_ranges: Seq<(usize, usize)>,
}

impl View for ResultEntry {
    type V = EntryModel;

    open spec fn view(&self) -> EntryModel {
        EntryModel {
            file: self.file@,
            display_line: self.display_line@,
            display_ranges: self.display_ranges@,
        }
    }
}

/// The abstract values of a result sequence.
pub open spec fn results_view(rs: Seq<ResultEntry>) -> Seq<EntryModel> {
    rs.map_values(|e: ResultEntry| e@)
}

/// The views of a sequence of owned paths.
pub open spec fn paths_view(fs: Seq<String>) -> Seq<Seq<char>> {
    fs.map_values(|s: String| s@)
}

/// The sentinel entry shown when the query does not compile.
pub open spec fn sentinel_entry() -> EntryModel {
    EntryModel {
        file: Seq::empty(),
        display_line: "Invalid regex pattern".spec_bytes(),
        display_ranges: Seq::empty(),
    }
}

/// The display-width budget for matched text: the terminal width less the
/// 30 columns reserved for the file path and 3 for padding.
pub open spec fn spec_max_text_len(terminal_width: nat) -> nat {
    if terminal_width >= 33 {
        (terminal_width - 33) as nat
    } else {
        0
    }
}

/// The entries contributed by the given lines of one file: one entry per
/// line with at least one match, in line order, windowed to the budget.
pub open spec fn spec_entries_for_lines(
    path: Seq<char>,
    ls: Seq<Seq<u8>>,
    pattern: Seq<char>,
    case_insensitive: bool,
    max_text_len: nat,
) -> Seq<EntryModel>
    decreases ls.len(),
{
    if ls.len() == 0 {
        Seq::empty()
    } else {
        let prev = spec_entries_for_lines(
            path,
            ls.drop_last(),
            pattern,
            case_insensitive,
            max_text_len,
        );
        let rs = find_ranges(pattern, case_insensitive, ls.last());
        if rs.len() > 0 {
            let w = spec_window(ls.last(), rs, max_text_len);
            prev.push(
                EntryModel { file: path, display_line: w.display, display_ranges: w.ranges },
            )
        } else {
            prev
        }
    }
}

/// The entries contributed by one file's content.
pub open spec fn spec_file_entries(
    path: Seq<char>,
    content: Seq<u8>,
    pattern: Seq<char>,
    case_insensitive: bool,
    max_text_len: nat,
) -> Seq<EntryModel> {
    spec_entries_for_lines(path, spec_lines(content), pattern, case_insensitive, max_text_len)
}

/// A full scan over the file set, in order: each file's content comes from
/// the cache or the storage list through `spec_get_or_load`; unreadable
/// files are skipped. Returns the result sequence and the final cache.
pub open spec fn spec_scan(
    files: Seq<Seq<char>>,
    m: CacheModel,
    st: Seq<(Seq<char>, Seq<u8>)>,
    pattern: Seq<char>,
    case_insensitive: bool,
    max_text_len: nat,
) -> (Seq<EntryModel>, CacheModel)
    decreases files.len(),
{
    if files.len() == 0 {
        (Seq::empty(), m)
    } else {
        let p = spec_scan(files.drop_last(), m, st, pattern, case_insensitive, max_text_len);
        let g = spec_get_or_load(p.1, st, files.last());
        match g.1 {
            Some(content) => (
                p.0 + spec_file_entries(
                    files.last(),
                    content,
                    pattern,
                    case_insensitive,
                    max_text_len,
                ),
                g.0,
            ),
            None => (p.0, g.0),
        }
    }
}

/// What one search tick returns and does to the cache. An empty query
/// lists every file once, with an empty display line and no ranges, and
/// leaves the cache alone. A query that does not compile yields exactly
/// the sentinel entry and leaves the cache alone. Otherwise every file is
/// scanned in order.
pub open spec fn spec_search(
    files: Seq<Seq<char>>,
    m: CacheModel,
    st: Seq<(Seq<char>, Seq<u8>)>,
    query: Seq<char>,
    case_insensitive: bool,
    terminal_width: nat,
) -> (Seq<EntryModel>, CacheModel) {
    if query.len() == 0 {
        (
            files.map_values(
                |f: Seq<char>|
                    EntryModel {
                        file: f,
                        display_line: Seq::empty(),
                        display_ranges: Seq::empty(),
                    },
            ),
            m,
        )
    } else if !pattern_ok(query, case_insensitive) {
        (seq![sentinel_entry()], m)
    } else {
        spec_scan(files, m, st, query, case_insensitive, spec_max_text_len(terminal_width))
    }
}

/// Every content held in the cache leaves room for the window decoration.
pub open spec fn cache_contents_bounded(m: CacheModel) -> bool {
    forall|i: int| 0 <= i < m.entries.len() ==> #[trigger] m.entries[i].1.len() <= usize::MAX - 6
}

/// Every content held in the storage list leaves room for the window
/// decoration.
pub open spec fn storage_bounded(st: Seq<(Seq<char>, Seq<u8>)>) -> bool {
    forall|i: int| 0 <= i < st.len() ==> #[trigger] st[i].1.len() <= usize::MAX - 6
}

/// For every non-empty query that does not compile, one search tick
/// yields exactly the sentinel entry, and the cache is not touched.
pub proof fn lemma_invalid_query_sentinel(
    files: Seq<Seq<char>>,
    m: CacheModel,
    st: Seq<(Seq<char>, Seq<u8>)>,
    query: Seq<char>,
    case_insensitive: bool,
    terminal_width: nat,
)
    requires
        query.len() > 0,
        !pattern_ok(query, case_insensitive),
    ensures
        spec_search(files, m, st, query, case_insensitive, terminal_width).0 == seq![
            sentinel_entry(),
        ],
        spec_search(files, m, st, query, case_insensitive, terminal_width).1 == m,
{
}

/// For the empty query, one search tick yields one entry per indexed
/// file, in file order, each with an empty display line and no highlight
/// ranges, and the cache is not touched.
pub proof fn lemma_empty_query_lists_files(
    files: Seq<Seq<char>>,
    m: CacheModel,
    st: Seq<(Seq<char>, Seq<u8>)>,
    case_insensitive: bool,
    terminal_width: nat,
)
    ensures
        spec_search(files, m, st, Seq::empty(), case_insensitive, terminal_width).0.len()
            == files.len(),
        forall|i: int|
            0 <= i < files.len() ==> #[trigger] spec_search(
                files,
                m,
                st,
                Seq::empty(),
                case_insensitive,
                terminal_width,
            ).0[i] == (EntryModel {
                file: files[i],
                display_line: Seq::empty(),
                display_ranges: Seq::empty(),
            }),
        spec_search(files, m, st, Seq::empty(), case_insensitive, terminal_width).1 == m,
{
}

/// Whether every cached entry still agrees with the storage list.
pub open spec fn cache_agrees_with_storage(m: CacheModel, st: Seq<(Seq<char>, Seq<u8>)>) -> bool {
    forall|i: int|
        0 <= i < m.entries.len() ==> crate::cache::assoc_lookup(st, #[trigger] m.entries[i].0)
            == Some(m.entries[i].1)
}

/// Under agreement with storage, `get_or_load` returns exactly what the
/// storage holds, and agreement survives it.
proof fn lemma_get_or_load_agrees(m: CacheModel, st: Seq<(Seq<char>, Seq<u8>)>, k: Seq<char>)
    requires
        cache_agrees_with_storage(m, st),
    ensures
        spec_get_or_load(m, st, k).1 == crate::cache::assoc_lookup(st, k),
        cache_agrees_with_storage(spec_get_or_load(m, st, k).0, st),
{
    crate::cache::lemma_remove_key_members(m.entries, k);
    let rest = crate::cache::remove_key(m.entries, k);
    if crate::cache::has_key(m.entries, k) {
        let idx = crate::cache::key_index(m.entries, k);
        assert(m.entries[idx].0 == k);
        assert(crate::cache::assoc_lookup(st, k) == Some(m.entries[idx].1));
        let p = crate::cache::promote(m.entries, k);
        assert forall|i: int| 0 <= i < p.len() implies crate::cache::assoc_lookup(
            st,
            #[trigger] p[i].0,
        ) == Some(p[i].1) by {
            if i > 0 {
                assert(p[i] == rest[i - 1]);
                let j = choose|j: int| 0 <= j < m.entries.len() && rest[i - 1] == m.entries[j];
                assert(crate::cache::assoc_lookup(st, m.entries[j].0) == Some(m.entries[j].1));
            }
        }
    } else {
        match crate::cache::assoc_lookup(st, k) {
            Some(v) => {
                let fronted = seq![(k, v)] + rest;
                let p = crate::cache::model_put(m.entries, m.cap, k, v);
                assert(forall|i: int| 0 <= i < p.len() ==> p[i] == fronted[i]);
                assert forall|i: int| 0 <= i < p.len() implies crate::cache::assoc_lookup(
                    st,
                    #[trigger] p[i].0,
                ) == Some(p[i].1) by {
                    if i > 0 {
                        assert(fronted[i] == rest[i - 1]);
                        let j = choose|j: int|
                            0 <= j < m.entries.len() && rest[i - 1] == m.entries[j];
                        assert(crate::cache::assoc_lookup(st, m.entries[j].0) == Some(
                            m.entries[j].1,
                        ));
                    }
                }
            },
            None => {},
        }
    }
}

/// The result of a scan when every content comes straight from storage.
pub open spec fn spec_scan_pure(
    files: Seq<Seq<char>>,
    st: Seq<(Seq<char>, Seq<u8>)>,
    pattern: Seq<char>,
    case_insensitive: bool,
    max_text_len: nat,
) -> Seq<EntryModel>
    decreases files.len(),
{
    if files.len() == 0 {
        Seq::empty()
    } else {
        let p = spec_scan_pure(files.drop_last(), st, pattern, case_insensitive, max_text_len);
        match crate::cache::assoc_lookup(st, files.last()) {
            Some(content) => p + spec_file_entries(
                files.last(),
                content,
                pattern,
                case_insensitive,
                max_text_len,
            ),
            None => p,
        }
    }
}

/// Under agreement with storage, the scan's results depend on the file
/// set and the storage alone, and agreement survives the whole scan.
proof fn lemma_scan_pure(
    files: Seq<Seq<char>>,
    m: CacheModel,
    st: Seq<(Seq<char>, Seq<u8>)>,
    pattern: Seq<char>,
    case_insensitive: bool,
    max_text_len: nat,
)
    requires
        cache_agrees_with_storage(m, st),
    ensures
        spec_scan(files, m, st, pattern, case_insensitive, max_text_len).0 == spec_scan_pure(
            files,
            st,
            pattern,
            case_insensitive,
            max_text_len,
        ),
        cache_agrees_with_storage(
            spec_scan(files, m, st, pattern, case_insensitive, max_text_len).1,
            st,
        ),
    decreases files.len(),
{
    if files.len() > 0 {
        lemma_scan_pure(files.drop_last(), m, st, pattern, case_insensitive, max_text_len);
        let p = spec_scan(files.drop_last(), m, st, pattern, case_insensitive, max_text_len);
        lemma_get_or_load_agrees(p.1, st, files.last());
    }
}

/// Recomputing the result sequence for the same file set, storage and
/// query, starting from the cache state that the first computation left
/// behind, yields the identical sequence — provided every entry the cache
/// held agreed with storage to begin with.
pub proof fn lemma_search_idempotent(
    files: Seq<Seq<char>>,
    m: CacheModel,
    st: Seq<(Seq<char>, Seq<u8>)>,
    query: Seq<char>,
    case_insensitive: bool,
    terminal_width: nat,
)
    requires
        cache_agrees_with_storage(m, st),
    ensures
        ({
            let first = spec_search(files, m, st, query, case_insensitive, terminal_width);
            let again = spec_search(files, first.1, st, query, case_insensitive, terminal_width);
            again.0 == first.0
        }),
{
    if query.len() == 0 || !pattern_ok(query, case_insensitive) {
    } else {
        let w = spec_max_text_len(terminal_width);
        lemma_scan_pure(files, m, st, query, case_insensitive, w);
        let first = spec_scan(files, m, st, query, case_insensitive, w);
        lemma_scan_pure(files, first.1, st, query, case_insensitive, w);
    }
}

proof fn lemma_remove_key_bounded(s: Seq<(Seq<char>, Seq<u8>)>, k: Seq<char>)
    requires
        forall|i: int| 0 <= i < s.len() ==> #[trigger] s[i].1.len() <= usize::MAX - 6,
    ensures
        forall|i: int|
            0 <= i < crate::cache::remove_key(s, k).len() ==> #[trigger] crate::cache::remove_key(
                s,
                k,
            )[i].1.len() <= usize::MAX - 6,
    decreases s.len(),
{
    if s.len() > 0 {
        let pre = s.drop_last();
        assert(forall|i: int| 0 <= i < pre.len() ==> #[trigger] pre[i].1.len() <= usize::MAX - 6);
        lemma_remove_key_bounded(pre, k);
        let rest = crate::cache::remove_key(pre, k);
        let r = crate::cache::remove_key(s, k);
        if s.last().0 != k {
            assert(s[s.len() - 1].1.len() <= usize::MAX - 6);
            assert(forall|i: int| 0 <= i < r.len() - 1 ==> r[i] == rest[i]);
        }
    }
}

proof fn lemma_assoc_lookup_bounded(st: Seq<(Seq<char>, Seq<u8>)>, k: Seq<char>)
    requires
        storage_bounded(st),
    ensures
        crate::cache::assoc_lookup(st, k) is Some ==> crate::cache::assoc_lookup(
            st,
            k,
        )->Some_0.len() <= usize::MAX - 6,
    decreases st.len(),
{
    if st.len() > 0 && st[0].0 != k {
        let rest = st.drop_first();
        assert(forall|i: int| 0 <= i < rest.len() ==> rest[i] == st[i + 1]);
        assert(storage_bounded(rest));
        lemma_assoc_lookup_bounded(rest, k);
    }
}

/// A cache whose contents leave room for the window decoration keeps that
/// property across `get_or_load`, and any content it hands out has it too.
proof fn lemma_get_or_load_bounded(m: CacheModel, st: Seq<(Seq<char>, Seq<u8>)>, k: Seq<char>)
    requires
        cache_contents_bounded(m),
        storage_bounded(st),
    ensures
        cache_contents_bounded(spec_get_or_load(m, st, k).0),
        spec_get_or_load(m, st, k).1 is Some ==> spec_get_or_load(m, st, k).1->Some_0.len()
            <= usize::MAX - 6,
{
    lemma_remove_key_bounded(m.entries, k);
    lemma_assoc_lookup_bounded(st, k);
    let rest = crate::cache::remove_key(m.entries, k);
    if crate::cache::has_key(m.entries, k) {
        let v = crate::cache::value_of(m.entries, k);
        assert(v.len() <= usize::MAX - 6) by {
            let i = crate::cache::key_index(m.entries, k);
            assert(m.entries[i].1.len() <= usize::MAX - 6);
        }
        let p = crate::cache::promote(m.entries, k);
        assert forall|i: int| 0 <= i < p.len() implies #[trigger] p[i].1.len() <= usize::MAX
            - 6 by {
            if i > 0 {
                assert(p[i] == rest[i - 1]);
            }
        }
    } else {
        match crate::cache::assoc_lookup(st, k) {
            Some(v) => {
                let fronted = seq![(k, v)] + rest;
                assert forall|i: int| 0 <= i < fronted.len() implies #[trigger] fronted[i].1.len()
                    <= usize::MAX - 6 by {
                    if i > 0 {
                        assert(fronted[i] == rest[i - 1]);
                    }
                }
                let p = crate::cache::model_put(m.entries, m.cap, k, v);
                assert(forall|i: int| 0 <= i < p.len() ==> p[i] == fronted[i]);
            },
            None => {},
        }
    }
}

/// Appends the entries of one file's content to the result sequence.
fn append_file_entries(
    results: &mut Vec<ResultEntry>,
    path: &String,
    content: &Vec<u8>,
    matcher: &CompiledMatcher,
    max_text_len: usize,
)
    requires
        content@.len() <= usize::MAX - 6,
    ensures
        results_view(final(results)@) == results_view(old(results)@) + spec_file_entries(
            path@,
            content@,
            matcher.spec_pattern(),
            matcher.spec_case_insensitive(),
            max_text_len as nat,
        ),
{
    let ghost pattern = matcher.spec_pattern();
    let ghost ci = matcher.spec_case_insensitive();
    let lines = split_lines(content);
    let ghost lv = lines_view(lines@);
    proof {
        lemma_lines_bounded(content@);
        assert(lv.take(0) =~= Seq::<Seq<u8>>::empty());
        assert(results_view(results@) + Seq::<EntryModel>::empty() =~= results_view(results@));
    }
    let mut j: usize = 0;
    while j < lines.len()
        invariant
            0 <= j <= lines@.len(),
            lv == lines_view(lines@),
            lv == spec_lines(content@),
            pattern == matcher.spec_pattern(),
            ci == matcher.spec_case_insensitive(),
            forall|i: int| 0 <= i < lv.len() ==> #[trigger] lv[i].len() <= usize::MAX - 6,
            results_view(results@) == results_view(old(results)@) + spec_entries_for_lines(
                path@,
                lv.take(j as int),
                pattern,
                ci,
                max_text_len as nat,
            ),
        decreases lines@.len() - j,
    {
        let line = &lines[j];
        proof {
            assert(lv[j as int] == line@);
            assert(lv.take(j + 1).drop_last() =~= lv.take(j as int));
            assert(lv.take(j + 1).last() == lv[j as int]);
        }
        let ranges = matcher.find_matches(line);
        if ranges.len() > 0 {
            let w = window_line(line, &ranges, max_text_len);
            let entry = ResultEntry {
                file: path.clone(),
                display_line: w.0,
                display_ranges: w.1,
            };
            let ghost prior = results_view(results@);
            let ghost emodel = entry@;
            results.push(entry);
            proof {
                let rs = find_ranges(pattern, ci, lv[j as int]);
                let sw = spec_window(lv[j as int], rs, max_text_len as nat);
                assert(rs == ranges@);
                assert(emodel.file == path@);
                assert(emodel.display_line == sw.display);
                assert(emodel.display_ranges == sw.ranges);
                assert(emodel == EntryModel {
                    file: path@,
                    display_line: sw.display,
                    display_ranges: sw.ranges,
                });
                assert(results_view(results@) =~= prior.push(emodel));
                let target = spec_entries_for_lines(path@, lv.take(j + 1), pattern, ci,
                    max_text_len as nat);
                let base = spec_entries_for_lines(path@, lv.take(j as int), pattern, ci,
                    max_text_len as nat);
                assert(lv.take(j + 1).drop_last() == lv.take(j as int));
                assert(lv.take(j + 1).len() == j + 1);
                assert(lv.take(j + 1).last() == lv[j as int]);
                assert(target == base.push(EntryModel {
                    file: path@,
                    display_line: sw.display,
                    display_ranges: sw.ranges,
                }));
                assert(target == base.push(emodel));
                assert(results_view(results@) =~= results_view(old(results)@) + target);
            }
        } else {
            proof {
                assert(spec_entries_for_lines(path@, lv.take(j + 1), pattern, ci,
                    max_text_len as nat) == spec_entries_for_lines(
                    path@,
                    lv.take(j as int),
                    pattern,
                    ci,
                    max_text_len as nat,
                ));
            }
        }
        j = j + 1;
    }
    proof {
        assert(lv.take(lv.len() as int) =~= lv);
    }
}

/// One search tick. An empty query lists every file; a query that does
/// not compile yields exactly the sentinel entry; otherwise every file in
/// the set is scanned in order, its content coming from the cache when
/// present and from the storage list otherwise, and every matching line
/// is windowed to the terminal's text budget. The returned sequence and
/// the cache afterwards are exactly what `spec_search` says.
pub fn search_file_contents(
    files: &Vec<String>,
    query: &String,
    content_cache: &mut ContentCache,
    terminal_width: usize,
    case_insensitive: bool,
    storage: &Vec<(String, Vec<u8>)>,
) -> (r: Vec<ResultEntry>)
    requires
        cache_wf(old(content_cache)@),
        cache_contents_bounded(old(content_cache)@),
        storage_bounded(storage_view(storage@)),
    ensures
        cache_wf(final(content_cache)@),
        cache_contents_bounded(final(content_cache)@),
        results_view(r@) == spec_search(
            paths_view(files@),
            old(content_cache)@,
            storage_view(storage@),
            query@,
            case_insensitive,
            terminal_width as nat,
        ).0,
        final(content_cache)@ == spec_search(
            paths_view(files@),
            old(content_cache)@,
            storage_view(storage@),
            query@,
            case_insensitive,
            terminal_width as nat,
        ).1,
{
    let ghost fv = paths_view(files@);
    let ghost st = storage_view(storage@);
    if query.as_str().is_empty() {
        let mut results: Vec<ResultEntry> = Vec::new();
        let mut i: usize = 0;
        proof {
            assert(results_view(results@) =~= fv.take(0).map_values(
                |f: Seq<char>|
                    EntryModel {
                        file: f,
                        display_line: Seq::empty(),
                        display_ranges: Seq::empty(),
                    },
            ));
        }
        while i < files.len()
            invariant
                0 <= i <= files@.len(),
                fv == paths_view(files@),
                results_view(results@) == fv.take(i as int).map_values(
                    |f: Seq<char>|
                        EntryModel {
                            file: f,
                            display_line: Seq::empty(),
                            display_ranges: Seq::empty(),
                        },
                ),
            decreases files@.len() - i,
        {
            let entry = ResultEntry {
                file: files[i].clone(),
                display_line: Vec::new(),
                display_ranges: Vec::new(),
            };
            let ghost prior = results_view(results@);
            results.push(entry);
            proof {
                assert(fv[i as int] == files@[i as int]@);
                assert(results_view(results@) =~= prior.push(entry@));
                assert(results_view(results@) =~= fv.take(i + 1).map_values(
                    |f: Seq<char>|
                        EntryModel {
                            file: f,
                            display_line: Seq::empty(),
                            display_ranges: Seq::empty(),
                        },
                ));
            }
            i = i + 1;
        }
        proof {
            assert(fv.take(fv.len() as int) =~= fv);
        }
        return results;
    }
    let compiled = CompiledMatcher::build(query, case_insensitive);
    match compiled {
        None => {
            let mut results: Vec<ResultEntry> = Vec::new();
            let text = "Invalid regex pattern";
            let entry = ResultEntry {
                file: String::new(),
                display_line: text.as_bytes_vec(),
                display_ranges: Vec::new(),
            };
            results.push(entry);
            proof {
                assert(entry@ =~~= sentinel_entry());
                assert(results_view(results@) =~= seq![sentinel_entry()]);
            }
            results
        },
        Some(matcher) => {
            let max_text_len: usize = if terminal_width >= 33 {
                terminal_width - 33
            } else {
                0
            };
            let ghost pattern = matcher.spec_pattern();
            let ghost ci = matcher.spec_case_insensitive();
            let mut results: Vec<ResultEntry> = Vec::new();
            let mut i: usize = 0;
            proof {
                assert(fv.take(0) =~= Seq::<Seq<char>>::empty());
                assert(results_view(results@) =~= Seq::<EntryModel>::empty());
            }
            while i < files.len()
                invariant
                    0 <= i <= files@.len(),
                    fv == paths_view(files@),
                    st == storage_view(storage@),
                    pattern == query@,
                    ci == case_insensitive,
                    matcher.spec_pattern() == pattern,
                    matcher.spec_case_insensitive() == ci,
                    max_text_len as nat == spec_max_text_len(terminal_width as nat),
                    cache_wf(content_cache@),
                    cache_contents_bounded(content_cache@),
                    storage_bounded(st),
                    results_view(results@) == spec_scan(
                        fv.take(i as int),
                        old(content_cache)@,
                        st,
                        pattern,
                        ci,
                        max_text_len as nat,
                    ).0,
                    content_cache@ == spec_scan(
                        fv.take(i as int),
                        old(content_cache)@,
                        st,
                        pattern,
                        ci,
                        max_text_len as nat,
                    ).1,
                decreases files@.len() - i,
            {
                let ghost cache_before = content_cache@;
                let path = &files[i];
                proof {
                    assert(fv[i as int] == files@[i as int]@);
                    assert(fv.take(i + 1).drop_last() =~= fv.take(i as int));
                    assert(fv.take(i + 1).last() == fv[i as int]);
                    lemma_get_or_load_bounded(cache_before, st, path@);
                }
                let got = content_cache.get_or_load(path, storage);
                match got {
                    Some(content) => {
                        append_file_entries(&mut results, path, &content, &matcher, max_text_len);
                    },
                    None => {},
                }
                i = i + 1;
            }
            proof {
                assert(fv.take(fv.len() as int) =~= fv);
            }
            results
        },
    }
}

} // verus!
