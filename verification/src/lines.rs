//! Splitting file content into lines, as `str::lines` does: lines end at
//! `\n`, a carriage return immediately before the `\n` is stripped, and a
//! final line without a terminator is kept as it stands.
use vstd::prelude::*;

verus! {

/// `l` with one trailing carriage return removed, if present.
pub open spec fn strip_cr(l: Seq<u8>) -> Seq<u8> {
    if l.len() > 0 && l.last() == 13u8 {
        l.drop_last()
    } else {
        l
    }
}

/// The lines completed so far and the pending unterminated tail after
/// reading `c`.
pub open spec fn lines_state(c: Seq<u8>) -> (Seq<Seq<u8>>, Seq<u8>)
    decreases c.len(),
{
    if c.len() == 0 {
        (Seq::empty(), Seq::empty())
    } else {
        let p = lines_state(c.drop_last());
        if c.last() == 10u8 {
            (p.0.push(strip_cr(p.1)), Seq::empty())
        } else {
            (p.0, p.1.push(c.last()))
        }
    }
}

/// The lines of `c`: every `\n`-terminated line with its optional `\r`
/// stripped, plus the unterminated tail if there is one.
pub open spec fn spec_lines(c: Seq<u8>) -> Seq<Seq<u8>> {
    let p = lines_state(c);
    if p.1.len() == 0 {
        p.0
    } else {
        p.0.push(p.1)
    }
}

/// The views of a vector of owned lines.
pub open spec fn lines_view(v: Seq<Vec<u8>>) -> Seq<Seq<u8>> {
    v.map_values(|l: Vec<u8>| l@)
}

/// No line is longer than the content it came from.
pub proof fn lemma_lines_bounded(c: Seq<u8>)
    ensures
        forall|i: int| 0 <= i < spec_lines(c).len() ==> #[trigger] spec_lines(c)[i].len()
            <= c.len(),
{
    lemma_lines_state_bounded(c);
}

proof fn lemma_lines_state_bounded(c: Seq<u8>)
    ensures
        lines_state(c).1.len() <= c.len(),
        forall|i: int| 0 <= i < lines_state(c).0.len() ==> #[trigger] lines_state(c).0[i].len()
            <= c.len(),
        forall|i: int| 0 <= i < spec_lines(c).len() ==> #[trigger] spec_lines(c)[i].len()
            <= c.len(),
    decreases c.len(),
{
    if c.len() > 0 {
        lemma_lines_state_bounded(c.drop_last());
        let p = lines_state(c.drop_last());
        assert(forall|i: int| 0 <= i < p.0.len() ==> #[trigger] p.0[i].len() <= c.len() - 1);
        let q = lines_state(c);
        if c.last() == 10u8 {
            assert forall|i: int| 0 <= i < q.0.len() implies #[trigger] q.0[i].len()
                <= c.len() by {
                if i < p.0.len() {
                    assert(q.0[i] == p.0[i]);
                } else {
                    assert(q.0[i] == strip_cr(p.1));
                }
            }
        } else {
            assert(forall|i: int| 0 <= i < q.0.len() ==> q.0[i] == p.0[i]);
        }
        assert forall|i: int| 0 <= i < spec_lines(c).len() implies #[trigger] spec_lines(c)[i].len()
            <= c.len() by {
            if i < q.0.len() {
                assert(spec_lines(c)[i] == q.0[i]);
            } else {
                assert(spec_lines(c)[i] == q.1);
            }
        }
    }
}

/// Splits content into lines, as `spec_lines` describes.
pub fn split_lines(content: &Vec<u8>) -> (r: Vec<Vec<u8>>)
    ensures
        lines_view(r@) == spec_lines(content@),
{
    let mut out: Vec<Vec<u8>> = Vec::new();
    let mut cur: Vec<u8> = Vec::new();
    let mut i: usize = 0;
    proof {
        assert(content@.take(0) =~= Seq::<u8>::empty());
        assert(lines_view(out@) =~= Seq::<Seq<u8>>::empty());
    }
    while i < content.len()
        invariant
            0 <= i <= content@.len(),
            lines_view(out@) == lines_state(content@.take(i as int)).0,
            cur@ == lines_state(content@.take(i as int)).1,
        decreases content@.len() - i,
    {
        let ghost pre = content@.take(i as int);
        let b = content[i];
        proof {
            assert(content@.take(i + 1).drop_last() =~= pre);
            assert(content@.take(i + 1).last() == content@[i as int]);
        }
        if b == 10 {
            if cur.len() > 0 && cur[cur.len() - 1] == 13 {
                cur.pop();
            }
            assert(cur@ == strip_cr(lines_state(pre).1));
            out.push(cur);
            cur = Vec::new();
            proof {
                assert(lines_view(out@) =~= lines_state(content@.take(i + 1)).0);
            }
        } else {
            cur.push(b);
            proof {
                assert(lines_view(out@) =~= lines_state(content@.take(i + 1)).0);
            }
        }
        i = i + 1;
    }
    proof {
        assert(content@.take(content@.len() as int) =~= content@);
    }
    if cur.len() > 0 {
        out.push(cur);
        proof {
            assert(lines_view(out@) =~= spec_lines(content@));
        }
    } else {
        proof {
            assert(lines_view(out@) =~= spec_lines(content@));
        }
    }
    out
}

} // verus!
