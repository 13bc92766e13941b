//! Lines and whitespace-separated fields of a text held as bytes.
use vstd::prelude::*;

verus! {

/// Whether byte `b` separates fields: ASCII space, tab, line feed, vertical
/// tab, form feed or carriage return.
pub open spec fn is_space(b: u8) -> bool {
    b == 32 || (9 <= b <= 13)
}

/// The index of the first line feed at or after `i`, or the length of `s`.
pub open spec fn next_newline(s: Seq<u8>, i: int) -> int
    decreases s.len() - i,
{
    if i >= s.len() || i < 0 {
        s.len() as int
    } else if s[i] == 10 {
        i
    } else {
        next_newline(s, i + 1)
    }
}

/// Where the content of a line from `i` to the line feed at `e` ends: a
/// carriage return before that line feed is not content.
pub open spec fn content_end(s: Seq<u8>, i: int, e: int) -> int {
    if e < s.len() && e > i && s[e - 1] == 13 {
        e - 1
    } else {
        e
    }
}

/// The lines of `s` from byte `i` on, as half-open byte ranges of their
/// content: split at each line feed, a carriage return before the line feed
/// dropped, and no empty last line after a final line feed.
pub open spec fn lines_from(s: Seq<u8>, i: int) -> Seq<(int, int)>
    decreases s.len() + 1 - i,
    via lines_from_decreases
{
    if i >= s.len() || i < 0 {
        Seq::empty()
    } else {
        let e = next_newline(s, i);
        seq![(i, content_end(s, i, e))] + lines_from(s, e + 1)
    }
}

/// The lines of `s`.
pub open spec fn lines(s: Seq<u8>) -> Seq<(int, int)> {
    lines_from(s, 0)
}

/// The end of the run of non-space bytes that starts at `i`, before `end`.
pub open spec fn run_end(s: Seq<u8>, i: int, end: int) -> int
    decreases end - i,
{
    if i >= end || i < 0 || i >= s.len() || is_space(s[i]) {
        i
    } else {
        run_end(s, i + 1, end)
    }
}

/// The fields of `s` between `i` and `end`: the maximal runs of non-space
/// bytes, as half-open byte ranges, in order.
pub open spec fn fields_from(s: Seq<u8>, i: int, end: int) -> Seq<(int, int)>
    decreases end - i,
    via fields_from_decreases
{
    if i >= end || i < 0 || i >= s.len() {
        Seq::empty()
    } else if is_space(s[i]) {
        fields_from(s, i + 1, end)
    } else {
        let e = run_end(s, i, end);
        seq![(i, e)] + fields_from(s, e, end)
    }
}

/// The ranges of `v` as pairs of integers.
pub open spec fn ranges(v: Seq<(usize, usize)>) -> Seq<(int, int)> {
    v.map_values(|p: (usize, usize)| (p.0 as int, p.1 as int))
}

proof fn lemma_run_end_bounds(s: Seq<u8>, i: int, end: int)
    requires
        0 <= i <= end,
    ensures
        i <= run_end(s, i, end) <= end,
    decreases end - i,
{
    if i < end && !is_space(s[i]) {
        lemma_run_end_bounds(s, i + 1, end);
    }
}

proof fn lemma_next_newline_bounds(s: Seq<u8>, i: int)
    requires
        0 <= i <= s.len(),
    ensures
        i <= next_newline(s, i) <= s.len(),
    decreases s.len() - i,
{
    if i < s.len() && s[i] != 10 {
        lemma_next_newline_bounds(s, i + 1);
    }
}

#[via_fn]
proof fn lines_from_decreases(s: Seq<u8>, i: int) {
    if 0 <= i < s.len() {
        lemma_next_newline_bounds(s, i);
    }
}

#[via_fn]
proof fn fields_from_decreases(s: Seq<u8>, i: int, end: int) {
    if 0 <= i < end && i < s.len() && !is_space(s[i]) {
        lemma_run_end_bounds(s, i + 1, end);
    }
}

proof fn lemma_lines_from_in_bounds(s: Seq<u8>, i: int)
    requires
        0 <= i,
    ensures
        forall|k: int|
            0 <= k < lines_from(s, i).len() ==> i <= #[trigger] lines_from(s, i)[k].0 <= lines_from(
                s,
                i,
            )[k].1 <= s.len(),
    decreases s.len() + 1 - i,
{
    if i < s.len() {
        let e = next_newline(s, i);
        lemma_next_newline_bounds(s, i);
        lemma_lines_from_in_bounds(s, e + 1);
        let l = lines_from(s, i);
        assert forall|k: int| 0 <= k < l.len() implies i <= #[trigger] l[k].0 <= l[k].1 <= s.len() by {
            if k > 0 {
                assert(l[k] == lines_from(s, e + 1)[k - 1]);
            }
        }
    }
}

/// Every line is a range inside the text.
pub proof fn lemma_lines_in_bounds(s: Seq<u8>)
    ensures
        forall|k: int|
            0 <= k < lines(s).len() ==> 0 <= #[trigger] lines(s)[k].0 <= lines(s)[k].1 <= s.len(),
{
    lemma_lines_from_in_bounds(s, 0);
}

/// Every field is a range inside the span that was split.
pub proof fn lemma_fields_in_bounds(s: Seq<u8>, i: int, end: int)
    requires
        0 <= i,
    ensures
        forall|k: int|
            0 <= k < fields_from(s, i, end).len() ==> i <= #[trigger] fields_from(s, i, end)[k].0
                <= fields_from(s, i, end)[k].1 <= end,
    decreases end - i,
{
    if 0 <= i < end && i < s.len() {
        if is_space(s[i]) {
            lemma_fields_in_bounds(s, i + 1, end);
            assert(fields_from(s, i, end) == fields_from(s, i + 1, end));
        } else {
            let e = run_end(s, i, end);
            lemma_run_end_bounds(s, i + 1, end);
            lemma_fields_in_bounds(s, e, end);
            let f = fields_from(s, i, end);
            assert(f == seq![(i, e)] + fields_from(s, e, end));
            assert forall|k: int| 0 <= k < f.len() implies i <= #[trigger] f[k].0 <= f[k].1 <= end by {
                if k > 0 {
                    assert(f[k] == fields_from(s, e, end)[k - 1]);
                }
            }
        }
    }
}

/// The end of the line that starts at `i`: the first line feed at or after
/// it, or the end of the text.
fn find_newline(s: &[u8], i: usize) -> (e: usize)
    requires
        i <= s@.len(),
    ensures
        e == next_newline(s@, i as int),
{
    let mut j = i;
    while j < s.len() && s[j] != 10
        invariant
            i <= j <= s@.len(),
            next_newline(s@, i as int) == next_newline(s@, j as int),
        decreases s@.len() - j,
    {
        j = j + 1;
    }
    j
}

/// The lines of `s` as byte ranges of their content.
pub fn split_lines(s: &[u8]) -> (r: Vec<(usize, usize)>)
    ensures
        ranges(r@) == lines(s@),
{
    let mut r: Vec<(usize, usize)> = Vec::new();
    let mut i: usize = 0;
    while i < s.len()
        invariant
            i <= s@.len(),
            ranges(r@) + lines_from(s@, i as int) == lines(s@),
        decreases s@.len() - i,
    {
        let e = find_newline(s, i);
        proof {
            lemma_next_newline_bounds(s@, i as int);
        }
        let c = if e < s.len() && e > i && s[e - 1] == 13 { e - 1 } else { e };
        let ghost before = r@;
        r.push((i, c));
        proof {
            assert(ranges(r@) =~= ranges(before) + seq![(i as int, c as int)]);
            assert(ranges(r@) + lines_from(s@, e + 1) =~= ranges(before) + lines_from(s@, i as int));
        }
        if e >= s.len() {
            i = s.len();
        } else {
            i = e + 1;
        }
    }
    proof {
        assert(ranges(r@) + lines_from(s@, i as int) =~= ranges(r@));
    }
    r
}

/// The fields of `s` between `start` and `end`, as byte ranges.
pub fn split_fields(s: &[u8], start: usize, end: usize) -> (r: Vec<(usize, usize)>)
    requires
        start <= end <= s@.len(),
    ensures
        ranges(r@) == fields_from(s@, start as int, end as int),
{
    let mut r: Vec<(usize, usize)> = Vec::new();
    let mut i: usize = start;
    while i < end
        invariant
            start <= i <= end <= s@.len(),
            ranges(r@) + fields_from(s@, i as int, end as int) == fields_from(
                s@,
                start as int,
                end as int,
            ),
        decreases end - i,
    {
        if s[i] == 32 || (9 <= s[i] && s[i] <= 13) {
            i = i + 1;
        } else {
            let mut j = i;
            while j < end && !(s[j] == 32 || (9 <= s[j] && s[j] <= 13))
                invariant
                    i <= j <= end <= s@.len(),
                    run_end(s@, i as int, end as int) == run_end(s@, j as int, end as int),
                decreases end - j,
            {
                j = j + 1;
            }
            let ghost before = r@;
            r.push((i, j));
            proof {
                assert(ranges(r@) =~= ranges(before) + seq![(i as int, j as int)]);
                assert(ranges(r@) + fields_from(s@, j as int, end as int) =~= ranges(before)
                    + fields_from(s@, i as int, end as int));
            }
            i = j;
        }
    }
    proof {
        assert(ranges(r@) + fields_from(s@, i as int, end as int) =~= ranges(r@));
    }
    r
}

} // verus!
