//! Window and highlight remapper. A matched line longer than the display
//! width budget is cut to a window around the first match, decorated with
//! ellipsis markers, and every match range is remapped into the display
//! string's coordinate space.
use vstd::prelude::*;
use crate::matcher::ranges_wf;

verus! {

/// The ellipsis marker, as bytes (three times `'.'`).
pub open spec fn ellipsis() -> Seq<u8> {
    seq![('.' as u8), ('.' as u8), ('.' as u8)]
}

/// How many bytes of left context are kept before the first match.
pub open spec fn context_budget() -> nat {
    20
}

/// A display line together with match ranges in its coordinate space.
pub ghost struct WindowedLine {
    pub display: Seq<u8>,
    pub ranges: Seq<(usize, usize)>,
}

/// Remaps every range that starts at or after `start_pos` by
/// `- start_pos + prefix`, clamps its end to `disp_len`, and keeps it only
/// if its remapped start lies inside the display.
pub open spec fn spec_remap(
    rs: Seq<(usize, usize)>,
    start_pos: nat,
    prefix: nat,
    disp_len: nat,
) -> Seq<(usize, usize)>
    decreases rs.len(),
{
    if rs.len() == 0 {
        Seq::empty()
    } else {
        let prev = spec_remap(rs.drop_last(), start_pos, prefix, disp_len);
        let s = rs.last().0;
        let e = rs.last().1;
        if s >= start_pos {
            let ns = s - start_pos + prefix;
            let ne0 = e - start_pos + prefix;
            let ne = if ne0 > disp_len {
                disp_len as int
            } else {
                ne0
            };
            if ns < disp_len && ne <= disp_len {
                prev.push((ns as usize, ne as usize))
            } else {
                prev
            }
        } else {
            prev
        }
    }
}

/// The window chosen for a matched line under a width budget: a line that
/// fits is kept as it is; a longer line is cut to a window of at most the
/// budget, starting up to `context_budget()` bytes before the first match,
/// with ellipsis markers for what was cut on either side. The ranges are
/// remapped into the display string.
pub open spec fn spec_window(
    line: Seq<u8>,
    ranges: Seq<(usize, usize)>,
    max_text_len: nat,
) -> WindowedLine {
    if line.len() > max_text_len {
        let first = if ranges.len() > 0 {
            ranges[0].0 as int
        } else {
            0
        };
        let context = if first < context_budget() {
            first
        } else {
            context_budget() as int
        };
        let start_pos = first - context;
        let end_pos = if start_pos + max_text_len < line.len() {
            start_pos + max_text_len
        } else {
            line.len() as int
        };
        let core = line.subrange(start_pos, end_pos);
        let prefix: nat = if start_pos > 0 {
            3
        } else {
            0
        };
        let with_pre = if start_pos > 0 {
            ellipsis() + core
        } else {
            core
        };
        let display = if end_pos < line.len() {
            with_pre + ellipsis()
        } else {
            with_pre
        };
        WindowedLine {
            display,
            ranges: spec_remap(ranges, start_pos as nat, prefix, display.len()),
        }
    } else {
        WindowedLine { display: line, ranges: spec_remap(ranges, 0, 0, line.len()) }
    }
}

/// Every remapped range lies within the display: its start is strictly
/// inside and its end at most the display length.
pub proof fn lemma_remap_in_bounds(
    rs: Seq<(usize, usize)>,
    start_pos: nat,
    prefix: nat,
    disp_len: nat,
)
    requires
        disp_len <= usize::MAX,
        forall|i: int| 0 <= i < rs.len() ==> #[trigger] rs[i].0 <= rs[i].1,
    ensures
        forall|i: int|
            0 <= i < spec_remap(rs, start_pos, prefix, disp_len).len()
                ==> (#[trigger] spec_remap(rs, start_pos, prefix, disp_len)[i].0 < disp_len
                && spec_remap(rs, start_pos, prefix, disp_len)[i].0 <= spec_remap(
                rs,
                start_pos,
                prefix,
                disp_len,
            )[i].1 <= disp_len),
    decreases rs.len(),
{
    if rs.len() > 0 {
        lemma_remap_in_bounds(rs.drop_last(), start_pos, prefix, disp_len);
        assert(rs.drop_last().len() == rs.len() - 1);
        assert(forall|i: int|
            0 <= i < rs.len() - 1 ==> #[trigger] rs.drop_last()[i].0 <= rs.drop_last()[i].1);
        let r = spec_remap(rs, start_pos, prefix, disp_len);
        let prev = spec_remap(rs.drop_last(), start_pos, prefix, disp_len);
        let s = rs.last().0;
        let e = rs.last().1;
        assert(rs[rs.len() - 1].0 <= rs[rs.len() - 1].1);
        assert forall|i: int| 0 <= i < r.len() implies (#[trigger] r[i].0 < disp_len && r[i].0
            <= r[i].1 <= disp_len) by {
            if i < prev.len() {
                assert(r[i] == prev[i]);
            } else {
                let ns = s - start_pos + prefix;
                let ne0 = e - start_pos + prefix;
                let ne = if ne0 > disp_len {
                    disp_len as int
                } else {
                    ne0
                };
                assert(s >= start_pos && ns < disp_len && ne <= disp_len);
                assert(r == prev.push((ns as usize, ne as usize)));
                assert(i == prev.len());
                assert(0 <= ns < disp_len <= usize::MAX);
                assert(ns <= ne0 && ns <= ne <= disp_len);
                assert(r[i].0 == ns && r[i].1 == ne);
            }
        }
    }
}

/// Every display range of a windowed line lies within `[0, display.len()]`,
/// with its start strictly inside.
pub proof fn lemma_window_ranges_in_bounds(
    line: Seq<u8>,
    ranges: Seq<(usize, usize)>,
    max_text_len: nat,
)
    requires
        ranges_wf(ranges, line.len()),
        line.len() + 6 <= usize::MAX,
    ensures
        forall|i: int|
            0 <= i < spec_window(line, ranges, max_text_len).ranges.len()
                ==> (#[trigger] spec_window(line, ranges, max_text_len).ranges[i].0 < spec_window(
                line,
                ranges,
                max_text_len,
            ).display.len() && spec_window(line, ranges, max_text_len).ranges[i].0 <= spec_window(
                line,
                ranges,
                max_text_len,
            ).ranges[i].1 <= spec_window(line, ranges, max_text_len).display.len()),
{
    let w = spec_window(line, ranges, max_text_len);
    if line.len() > max_text_len {
        let first = if ranges.len() > 0 {
            ranges[0].0 as int
        } else {
            0
        };
        let context = if first < context_budget() {
            first
        } else {
            context_budget() as int
        };
        let start_pos = first - context;
        let prefix: nat = if start_pos > 0 {
            3
        } else {
            0
        };
        lemma_remap_in_bounds(ranges, start_pos as nat, prefix, w.display.len());
    } else {
        lemma_remap_in_bounds(ranges, 0, 0, line.len());
    }
}

/// A line that fits in the width budget is displayed as it is, and every
/// match range passes through unchanged (their starts lie strictly inside
/// the line).
pub proof fn lemma_window_fits(line: Seq<u8>, ranges: Seq<(usize, usize)>, max_text_len: nat)
    requires
        line.len() <= max_text_len,
        ranges_wf(ranges, line.len()),
        forall|i: int| 0 <= i < ranges.len() ==> #[trigger] ranges[i].0 < line.len(),
    ensures
        spec_window(line, ranges, max_text_len).display == line,
        spec_window(line, ranges, max_text_len).ranges == ranges,
{
    lemma_remap_identity(ranges, line.len());
}

/// Remapping with no shift, no prefix and a display as long as the line
/// keeps every range unchanged when every start is strictly inside.
proof fn lemma_remap_identity(rs: Seq<(usize, usize)>, len: nat)
    requires
        forall|i: int| 0 <= i < rs.len() ==> #[trigger] rs[i].0 <= rs[i].1 <= len,
        forall|i: int| 0 <= i < rs.len() ==> #[trigger] rs[i].0 < len,
    ensures
        spec_remap(rs, 0, 0, len) == rs,
    decreases rs.len(),
{
    if rs.len() == 0 {
        assert(spec_remap(rs, 0, 0, len) =~= rs);
    } else {
        let pre = rs.drop_last();
        assert(forall|i: int| 0 <= i < pre.len() ==> #[trigger] pre[i] == rs[i]);
        lemma_remap_identity(pre, len);
        let s = rs.last().0;
        let e = rs.last().1;
        assert(rs[rs.len() - 1].0 < len);
        assert(spec_remap(rs, 0, 0, len) == pre.push((s, e)));
        assert(pre.push((s, e)) =~= rs);
    }
}

/// When the first range is kept by the remapping, it reappears first in
/// the output, remapped by `- start_pos + prefix` with a clamped end.
proof fn lemma_remap_first_kept(
    rs: Seq<(usize, usize)>,
    start_pos: nat,
    prefix: nat,
    disp_len: nat,
)
    requires
        rs.len() > 0,
        rs[0].0 >= start_pos,
        rs[0].0 - start_pos + prefix < disp_len,
    ensures
        spec_remap(rs, start_pos, prefix, disp_len).len() >= 1,
        spec_remap(rs, start_pos, prefix, disp_len)[0] == ((rs[0].0 - start_pos + prefix) as usize,
        (if rs[0].1 - start_pos + prefix > disp_len {
            disp_len as int
        } else {
            rs[0].1 - start_pos + prefix
        }) as usize),
    decreases rs.len(),
{
    if rs.len() == 1 {
    } else {
        let pre = rs.drop_last();
        assert(pre[0] == rs[0]);
        lemma_remap_first_kept(pre, start_pos, prefix, disp_len);
    }
}

/// On a line longer than the width budget, whenever the first match
/// starts inside the chosen window, its remapped range is kept and lies
/// fully inside `[0, display.len())`.
pub proof fn lemma_window_long(line: Seq<u8>, ranges: Seq<(usize, usize)>, max_text_len: nat)
    requires
        line.len() > max_text_len,
        ranges_wf(ranges, line.len()),
        ranges.len() > 0,
        line.len() + 6 <= usize::MAX,
        ({
            let first = ranges[0].0 as int;
            let context = if first < context_budget() {
                first
            } else {
                context_budget() as int
            };
            let start_pos = first - context;
            let end_pos = if start_pos + max_text_len < line.len() {
                start_pos + max_text_len
            } else {
                line.len() as int
            };
            first < end_pos
        }),
    ensures
        spec_window(line, ranges, max_text_len).ranges.len() >= 1,
        spec_window(line, ranges, max_text_len).ranges[0].0 < spec_window(
            line,
            ranges,
            max_text_len,
        ).display.len(),
        spec_window(line, ranges, max_text_len).ranges[0].0 <= spec_window(
            line,
            ranges,
            max_text_len,
        ).ranges[0].1 <= spec_window(line, ranges, max_text_len).display.len(),
{
    let w = spec_window(line, ranges, max_text_len);
    let first = ranges[0].0 as int;
    let context = if first < context_budget() {
        first
    } else {
        context_budget() as int
    };
    let start_pos = first - context;
    let end_pos = if start_pos + max_text_len < line.len() {
        start_pos + max_text_len
    } else {
        line.len() as int
    };
    let prefix: nat = if start_pos > 0 {
        3
    } else {
        0
    };
    assert(end_pos - start_pos > context) by {
        assert(first < end_pos);
    }
    assert(w.display.len() >= end_pos - start_pos + prefix);
    assert(first - start_pos + prefix < w.display.len());
    lemma_remap_first_kept(ranges, start_pos as nat, prefix, w.display.len());
    lemma_window_ranges_in_bounds(line, ranges, max_text_len);
}

/// Cuts a matched line to the width budget and remaps its match ranges,
/// as `spec_window` describes.
pub fn window_line(line: &Vec<u8>, ranges: &Vec<(usize, usize)>, max_text_len: usize) -> (r: (
    Vec<u8>,
    Vec<(usize, usize)>,
))
    requires
        ranges_wf(ranges@, line@.len()),
        line@.len() <= usize::MAX - 6,
    ensures
        r.0@ == spec_window(line@, ranges@, max_text_len as nat).display,
        r.1@ == spec_window(line@, ranges@, max_text_len as nat).ranges,
{
    let ghost w = spec_window(line@, ranges@, max_text_len as nat);
    let dot: u8 = 46;  // '.'
    assert(dot == ('.' as u8));
    let n = line.len();
    let start_pos: usize;
    let prefix: usize;
    let mut display: Vec<u8> = Vec::new();
    if n > max_text_len {
        let first: usize = if ranges.len() > 0 {
            ranges[0].0
        } else {
            0
        };
        let context: usize = if first < 20 {
            first
        } else {
            20
        };
        start_pos = first - context;
        assert(ranges@.len() > 0 ==> start_pos <= ranges@[0].0 <= line@.len());
        let end_pos: usize = if n - start_pos < max_text_len {
            n
        } else {
            start_pos + max_text_len
        };
        if start_pos > 0 {
            display.push(dot);
            display.push(dot);
            display.push(dot);
            prefix = 3;
        } else {
            prefix = 0;
        }
        let mut j: usize = start_pos;
        while j < end_pos
            invariant
                start_pos <= j <= end_pos <= n,
                n == line@.len(),
                display@ == (if start_pos > 0 {
                    ellipsis()
                } else {
                    Seq::<u8>::empty()
                }) + line@.subrange(start_pos as int, j as int),
            decreases end_pos - j,
        {
            display.push(line[j]);
            proof {
                assert(line@.subrange(start_pos as int, j + 1) =~= line@.subrange(
                    start_pos as int,
                    j as int,
                ).push(line@[j as int]));
            }
            j = j + 1;
        }
        if end_pos < n {
            display.push(dot);
            display.push(dot);
            display.push(dot);
        }
        proof {
            assert(display@ =~= w.display);
        }
    } else {
        start_pos = 0;
        prefix = 0;
        let mut j: usize = 0;
        while j < n
            invariant
                0 <= j <= n,
                n == line@.len(),
                display@ == line@.subrange(0, j as int),
            decreases n - j,
        {
            display.push(line[j]);
            proof {
                assert(line@.subrange(0, j + 1) =~= line@.subrange(0, j as int).push(
                    line@[j as int],
                ));
            }
            j = j + 1;
        }
        proof {
            assert(display@ =~= w.display);
        }
    }
    let disp_len = display.len();
    let mut out: Vec<(usize, usize)> = Vec::new();
    let mut i: usize = 0;
    proof {
        assert(ranges@.take(0) =~= Seq::<(usize, usize)>::empty());
    }
    while i < ranges.len()
        invariant
            0 <= i <= ranges@.len(),
            ranges_wf(ranges@, line@.len()),
            line@.len() <= usize::MAX - 6,
            disp_len <= line@.len() + 6,
            prefix <= 3,
            out@ == spec_remap(ranges@.take(i as int), start_pos as nat, prefix as nat,
                disp_len as nat),
        decreases ranges@.len() - i,
    {
        let s = ranges[i].0;
        let e = ranges[i].1;
        assert(s <= e <= line@.len());
        if s >= start_pos {
            let ns = s - start_pos + prefix;
            let ne0 = e - start_pos + prefix;
            let ne = if ne0 > disp_len {
                disp_len
            } else {
                ne0
            };
            if ns < disp_len {
                out.push((ns, ne));
            }
        }
        proof {
            assert(ranges@.take(i + 1).drop_last() =~= ranges@.take(i as int));
            assert(ranges@.take(i + 1).last() == ranges@[i as int]);
        }
        i = i + 1;
    }
    proof {
        assert(ranges@.take(ranges@.len() as int) =~= ranges@);
    }
    (display, out)
}

} // verus!
