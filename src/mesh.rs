//! Triangle meshes in the `kcply` text format: the layout of a file, and
//! which faces meet at each vertex (from which smoothed corner normals are
//! averaged).
use vstd::prelude::*;

use crate::text::{
    fields_from, lemma_fields_in_bounds, lemma_lines_in_bounds, lines, ranges, split_fields, split_lines,
};

verus! {

/// The faces among `faces` that have vertex `v` as a corner, in face order, a
/// face listed once for each of its corners at `v`.
pub open spec fn faces_at(faces: Seq<[usize; 3]>, v: int) -> Seq<usize>
    decreases faces.len(),
{
    if faces.len() == 0 {
        Seq::empty()
    } else {
        let n = (faces.len() - 1) as usize;
        let f = faces[n as int];
        faces_at(faces.drop_last(), v) + (if f[0] == v {
            seq![n]
        } else {
            Seq::empty()
        }) + (if f[1] == v {
            seq![n]
        } else {
            Seq::empty()
        }) + (if f[2] == v {
            seq![n]
        } else {
            Seq::empty()
        })
    }
}

/// Every corner of every face names one of `vertex_count` vertices.
pub open spec fn corners_in_range(faces: Seq<[usize; 3]>, vertex_count: int) -> bool {
    forall|i: int, c: int| 0 <= i < faces.len() && 0 <= c < 3 ==> faces[i][c] < vertex_count
}

/// For each of `vertex_count` vertices, the faces that meet there.
pub fn vertex_faces(vertex_count: usize, faces: &Vec<[usize; 3]>) -> (r: Vec<Vec<usize>>)
    requires
        corners_in_range(faces@, vertex_count as int),
    ensures
        r@.len() == vertex_count,
        forall|v: int| 0 <= v < vertex_count ==> #[trigger] r@[v]@ == faces_at(faces@, v),
{
    let mut r: Vec<Vec<usize>> = Vec::new();
    let mut v: usize = 0;
    while v < vertex_count
        invariant
            v <= vertex_count,
            r@.len() == v,
            forall|u: int| 0 <= u < v ==> #[trigger] r@[u]@ == Seq::<usize>::empty(),
        decreases vertex_count - v,
    {
        r.push(Vec::new());
        v = v + 1;
    }
    let mut ln: usize = 0;
    while ln < faces.len()
        invariant
            ln <= faces@.len(),
            r@.len() == vertex_count,
            corners_in_range(faces@, vertex_count as int),
            forall|u: int| 0 <= u < vertex_count ==> #[trigger] r@[u]@ == faces_at(faces@.subrange(0, ln as int), u),
        decreases faces@.len() - ln,
    {
        let face = faces[ln];
        let ghost before = r@;
        let mut c: usize = 0;
        while c < 3
            invariant
                c <= 3,
                ln < faces@.len(),
                face == faces@[ln as int],
                r@.len() == vertex_count,
                corners_in_range(faces@, vertex_count as int),
                forall|u: int| 0 <= u < vertex_count ==> #[trigger] r@[u]@ == before[u]@ + (if c > 0 && face[0] == u {
                    seq![ln]
                } else {
                    Seq::empty()
                }) + (if c > 1 && face[1] == u {
                    seq![ln]
                } else {
                    Seq::empty()
                }) + (if c > 2 && face[2] == u {
                    seq![ln]
                } else {
                    Seq::empty()
                }),
            decreases 3 - c,
        {
            let corner = face[c];
            r[corner].push(ln);
            c = c + 1;
        }
        proof {
            let next = faces@.subrange(0, ln + 1);
            assert(next.drop_last() =~= faces@.subrange(0, ln as int));
            assert forall|u: int| 0 <= u < vertex_count implies #[trigger] r@[u]@ == faces_at(next, u) by {
                assert(r@[u]@ =~= faces_at(next, u));
            }
        }
        ln = ln + 1;
    }
    proof {
        assert(faces@.subrange(0, faces@.len() as int) =~= faces@);
    }
    r
}

/// Whether `b` is an ASCII decimal digit.
pub open spec fn is_digit(b: u8) -> bool {
    48 <= b <= 57
}

/// The value of a string of decimal digits, most significant first.
pub open spec fn digits_value(s: Seq<u8>) -> int
    decreases s.len(),
{
    if s.len() == 0 {
        0
    } else {
        digits_value(s.drop_last()) * 10 + (s.last() - 48)
    }
}

/// The digits of an index field: the field without one leading `+`.
pub open spec fn index_digits(s: Seq<u8>) -> Seq<u8> {
    if s.len() > 0 && s[0] == 43 {
        s.drop_first()
    } else {
        s
    }
}

/// A field that reads as an index: optionally `+`, then one or more decimal
/// digits, whose value fits in `usize`.
pub open spec fn is_index_field(s: Seq<u8>) -> bool {
    let d = index_digits(s);
    &&& d.len() > 0
    &&& forall|i: int| 0 <= i < d.len() ==> is_digit(#[trigger] d[i])
    &&& digits_value(d) <= usize::MAX
}

proof fn lemma_prefix_value_bounded(d: Seq<u8>, i: int)
    requires
        0 <= i <= d.len(),
        forall|j: int| 0 <= j < d.len() ==> is_digit(#[trigger] d[j]),
    ensures
        0 <= digits_value(d.subrange(0, i)) <= digits_value(d),
    decreases d.len() - i,
{
    if i < d.len() {
        lemma_prefix_value_bounded(d, i + 1);
        let p = d.subrange(0, i + 1);
        assert(p.drop_last() =~= d.subrange(0, i));
        assert(is_digit(d[i]));
    } else {
        assert(d.subrange(0, i) =~= d);
        lemma_value_nonnegative(d);
    }
}

proof fn lemma_value_nonnegative(d: Seq<u8>)
    requires
        forall|j: int| 0 <= j < d.len() ==> is_digit(#[trigger] d[j]),
    ensures
        0 <= digits_value(d),
    decreases d.len(),
{
    if d.len() > 0 {
        let p = d.drop_last();
        assert(forall|j: int| 0 <= j < p.len() ==> p[j] == d[j]);
        lemma_value_nonnegative(p);
        assert(is_digit(d[d.len() - 1]));
    }
}

/// Reads an index field of a mesh file (a vertex or face count, or a corner
/// index) as `usize::from_str` does: `None` unless the field is an optional
/// `+` and one or more decimal digits whose value fits in `usize`.
pub fn parse_index(field: &[u8]) -> (r: Option<usize>)
    ensures
        match r {
            Some(v) => is_index_field(field@) && v == digits_value(index_digits(field@)),
            None => !is_index_field(field@),
        },
{
    proof {
        assert(field@.subrange(0, field@.len() as int) =~= field@);
    }
    parse_index_in(field, 0, field.len())
}

/// Reads the index field `s[lo..hi]`, as [`parse_index`] does.
pub fn parse_index_in(s: &[u8], lo: usize, hi: usize) -> (r: Option<usize>)
    requires
        lo <= hi <= s@.len(),
    ensures
        match r {
            Some(v) => is_index_field(s@.subrange(lo as int, hi as int)) && v == digits_value(
                index_digits(s@.subrange(lo as int, hi as int)),
            ),
            None => !is_index_field(s@.subrange(lo as int, hi as int)),
        },
{
    let ghost field = s@.subrange(lo as int, hi as int);
    let ghost d = index_digits(field);
    let start: usize = if lo < hi && s[lo] == 43 { lo + 1 } else { lo };
    if start >= hi {
        return None;
    }
    proof {
        assert(d =~= s@.subrange(start as int, hi as int));
    }
    let mut v: usize = 0;
    let mut i: usize = start;
    while i < hi
        invariant
            lo <= start <= i <= hi <= s@.len(),
            start < hi,
            field == s@.subrange(lo as int, hi as int),
            d == index_digits(field),
            d == s@.subrange(start as int, hi as int),
            forall|j: int| 0 <= j < i - start ==> is_digit(#[trigger] d[j]),
            v == digits_value(d.subrange(0, i - start)),
        decreases hi - i,
    {
        let b = s[i];
        let ghost k = i - start;
        proof {
            assert(d[k] == b);
        }
        if b < 48 || b > 57 {
            return None;
        }
        proof {
            let p = d.subrange(0, k + 1);
            assert(p.drop_last() =~= d.subrange(0, k));
            assert(digits_value(p) == v * 10 + (b - 48));
        }
        match v.checked_mul(10) {
            None => {
                proof {
                    if forall|j: int| 0 <= j < d.len() ==> is_digit(#[trigger] d[j]) {
                        lemma_prefix_value_bounded(d, k + 1);
                    }
                }
                return None;
            },
            Some(t) => match t.checked_add((b - 48) as usize) {
                None => {
                    proof {
                        if forall|j: int| 0 <= j < d.len() ==> is_digit(#[trigger] d[j]) {
                            lemma_prefix_value_bounded(d, k + 1);
                        }
                    }
                    return None;
                },
                Some(u) => {
                    v = u;
                },
            },
        }
        i = i + 1;
    }
    proof {
        assert(d.subrange(0, d.len() as int) =~= d);
    }
    Some(v)
}

/// The zero-based corners of a face whose index fields read `fields`, in a
/// file that counts vertices from one when `one_indexed`: `None` when a
/// corner falls before the first vertex or past the last of `vertex_count`.
pub fn face_corners(fields: [usize; 3], one_indexed: bool, vertex_count: usize) -> (r: Option<
    [usize; 3],
>)
    ensures
        ({
            let base: int = if one_indexed { 1 } else { 0 };
            match r {
                Some(c) => forall|k: int|
                    0 <= k < 3 ==> #[trigger] c[k] == fields[k] - base && c[k] < vertex_count,
                None => exists|k: int|
                    0 <= k < 3 && (#[trigger] fields[k] < base || fields[k] - base >= vertex_count),
            }
        }),
{
    let base: usize = if one_indexed { 1 } else { 0 };
    let mut corners: [usize; 3] = [0, 0, 0];
    let mut k: usize = 0;
    while k < 3
        invariant
            k <= 3,
            base == (if one_indexed { 1usize } else { 0usize }),
            forall|j: int|
                0 <= j < k ==> #[trigger] corners[j] == fields[j] - base && corners[j]
                    < vertex_count,
        decreases 3 - k,
    {
        let f = fields[k];
        if f < base || f - base >= vertex_count {
            return None;
        }
        corners.set(k, f - base);
        k = k + 1;
    }
    Some(corners)
}

/// The first line of a mesh file: `kcply`.
pub open spec fn magic() -> Seq<u8> {
    seq![107u8, 99u8, 112u8, 108u8, 121u8]
}

/// What the second line starts with: `element vertex `.
pub open spec fn vertex_prefix() -> Seq<u8> {
    seq![101u8, 108u8, 101u8, 109u8, 101u8, 110u8, 116u8, 32u8, 118u8, 101u8, 114u8, 116u8, 101u8, 120u8, 32u8]
}

/// What the third line starts with: `element face `.
pub open spec fn face_prefix() -> Seq<u8> {
    seq![101u8, 108u8, 101u8, 109u8, 101u8, 110u8, 116u8, 32u8, 102u8, 97u8, 99u8, 101u8, 32u8]
}

/// The content of line `k` of `s`.
pub open spec fn line_content(s: Seq<u8>, k: int) -> Seq<u8> {
    s.subrange(lines(s)[k].0, lines(s)[k].1)
}

/// The fields of line `k` of `s`, as byte ranges of `s`.
pub open spec fn line_fields(s: Seq<u8>, k: int) -> Seq<(int, int)> {
    fields_from(s, lines(s)[k].0, lines(s)[k].1)
}

/// `c` begins with `p`.
pub open spec fn starts_with(c: Seq<u8>, p: Seq<u8>) -> bool {
    c.len() >= p.len() && c.subrange(0, p.len() as int) == p
}

/// A header line: the prefix `p`, then an index field.
pub open spec fn is_count_line(c: Seq<u8>, p: Seq<u8>) -> bool {
    starts_with(c, p) && is_index_field(c.subrange(p.len() as int, c.len() as int))
}

/// The count that a header line gives.
pub open spec fn count_value(c: Seq<u8>, p: Seq<u8>) -> int {
    digits_value(index_digits(c.subrange(p.len() as int, c.len() as int)))
}

/// The number of vertices that the header of `s` announces.
pub open spec fn vertex_count_of(s: Seq<u8>) -> int {
    count_value(line_content(s, 1), vertex_prefix())
}

/// The number of faces that the header of `s` announces.
pub open spec fn face_count_of(s: Seq<u8>) -> int {
    count_value(line_content(s, 2), face_prefix())
}

/// The number of lines that a mesh file with the header of `s` must have.
pub open spec fn line_total(s: Seq<u8>) -> int {
    3 + vertex_count_of(s) + face_count_of(s)
}

/// The value of the index field at range `f` of `s`.
pub open spec fn field_value(s: Seq<u8>, f: (int, int)) -> int {
    digits_value(index_digits(s.subrange(f.0, f.1)))
}

/// The field at `f` names one of `n` vertices counted from `base`.
pub open spec fn is_corner_field(s: Seq<u8>, f: (int, int), base: int, n: int) -> bool {
    is_index_field(s.subrange(f.0, f.1)) && base <= field_value(s, f) && field_value(s, f) - base < n
}

/// Line `k` of the mesh file `s` is present and well formed: the magic line,
/// the two count lines, then as many vertex lines (at least three fields, the
/// coordinates) and face lines (a corner count, then three corner indices
/// that name vertices) as the header announces.
pub open spec fn is_good_line(s: Seq<u8>, k: int, one_indexed: bool) -> bool {
    let n = vertex_count_of(s);
    let base: int = if one_indexed { 1 } else { 0 };
    &&& 0 <= k < lines(s).len()
    &&& if k == 0 {
        line_content(s, 0) == magic()
    } else if k == 1 {
        is_count_line(line_content(s, 1), vertex_prefix())
    } else if k == 2 {
        is_count_line(line_content(s, 2), face_prefix())
    } else if k < 3 + n {
        line_fields(s, k).len() >= 3
    } else {
        &&& line_fields(s, k).len() >= 4
        &&& forall|c: int| 1 <= c <= 3 ==> is_corner_field(s, #[trigger] line_fields(s, k)[c], base, n)
    }
}

/// Where the pieces of a mesh file are: for each vertex the byte ranges of
/// its three coordinates, for each face its zero-based corners.
pub struct MeshLayout {
    pub vertices: Vec<[(usize, usize); 3]>,
    pub faces: Vec<[usize; 3]>,
}

/// A mesh file that is cut short or malformed: `line` is the zero-based
/// number of the first line that is missing or wrong.
#[derive(Clone, Copy, Debug, PartialEq, Eq)]
pub struct MeshError {
    pub line: usize,
}

/// Whether `s[lo..hi]` begins with `p`.
fn starts_with_at(s: &[u8], lo: usize, hi: usize, p: &[u8]) -> (r: bool)
    requires
        lo <= hi <= s@.len(),
    ensures
        r == starts_with(s@.subrange(lo as int, hi as int), p@),
{
    let ghost c = s@.subrange(lo as int, hi as int);
    if hi - lo < p.len() {
        return false;
    }
    let mut i: usize = 0;
    while i < p.len()
        invariant
            i <= p@.len() <= hi - lo,
            lo <= hi <= s@.len(),
            c == s@.subrange(lo as int, hi as int),
            forall|j: int| 0 <= j < i ==> c[j] == p@[j],
        decreases p@.len() - i,
    {
        if s[lo + i] != p[i] {
            proof {
                assert(c.subrange(0, p@.len() as int)[i as int] != p@[i as int]);
            }
            return false;
        }
        i = i + 1;
    }
    proof {
        assert(c.subrange(0, p@.len() as int) =~= p@);
    }
    true
}

/// The count on the header line `s[lo..hi]` with prefix `p`.
fn read_count(s: &[u8], lo: usize, hi: usize, p: &[u8]) -> (r: Option<usize>)
    requires
        lo <= hi <= s@.len(),
    ensures
        match r {
            Some(v) => is_count_line(s@.subrange(lo as int, hi as int), p@) && v == count_value(
                s@.subrange(lo as int, hi as int),
                p@,
            ),
            None => !is_count_line(s@.subrange(lo as int, hi as int), p@),
        },
{
    if !starts_with_at(s, lo, hi, p) {
        return None;
    }
    let ghost c = s@.subrange(lo as int, hi as int);
    proof {
        assert(c.subrange(p@.len() as int, c.len() as int) =~= s@.subrange(
            lo + p@.len(),
            hi as int,
        ));
    }
    parse_index_in(s, lo + p.len(), hi)
}

/// Reads the layout of a mesh file in the `kcply` format: the line `kcply`,
/// the lines `element vertex N` and `element face M`, then `N` vertex lines of
/// at least three whitespace-separated coordinates, then `M` face lines of a
/// corner count followed by three corner indices (counted from one when
/// `one_indexed`). Lines may end in a line feed or a carriage return and line
/// feed; lines past the last face are not read. The error names the first
/// line that is missing or malformed.
pub fn parse_kcply(s: &[u8], one_indexed: bool) -> (r: Result<MeshLayout, MeshError>)
    ensures
        match r {
            Ok(m) => {
                let n = vertex_count_of(s@);
                let base: int = if one_indexed { 1 } else { 0 };
                &&& forall|k: int| 0 <= k < line_total(s@) ==> is_good_line(s@, k, one_indexed)
                &&& m.vertices@.len() == n
                &&& m.faces@.len() == face_count_of(s@)
                &&& forall|i: int, c: int|
                    0 <= i < n && 0 <= c < 3 ==> (#[trigger] m.vertices@[i][c].0 as int,
                    m.vertices@[i][c].1 as int) == line_fields(s@, 3 + i)[c]
                &&& forall|i: int, c: int|
                    0 <= i < m.faces@.len() && 0 <= c < 3 ==> #[trigger] m.faces@[i][c] == field_value(
                        s@,
                        line_fields(s@, 3 + n + i)[c + 1],
                    ) - base
            },
            Err(e) => {
                &&& e.line <= 2 || e.line < line_total(s@)
                &&& !is_good_line(s@, e.line as int, one_indexed)
                &&& forall|k: int| 0 <= k < e.line ==> is_good_line(s@, k, one_indexed)
            },
        },
{
    let ls = split_lines(s);
    proof {
        lemma_lines_in_bounds(s@);
        assert forall|k: int| 0 <= k < ls@.len() implies lines(s@)[k] == (#[trigger] ls@[k].0 as int,
            ls@[k].1 as int) && ls@[k].0 <= ls@[k].1 <= s@.len() by {
            assert(ranges(ls@)[k] == lines(s@)[k]);
        }
    }
    let magic_line: [u8; 5] = [107, 99, 112, 108, 121];
    let vertex_head: [u8; 15] = [101, 108, 101, 109, 101, 110, 116, 32, 118, 101, 114, 116, 101, 120, 32];
    let face_head: [u8; 13] = [101, 108, 101, 109, 101, 110, 116, 32, 102, 97, 99, 101, 32];
    proof {
        assert(magic_line@ =~= magic());
        assert(vertex_head@ =~= vertex_prefix());
        assert(face_head@ =~= face_prefix());
    }
    if ls.len() < 1 {
        return Err(MeshError { line: 0 });
    }
    let (lo, hi) = ls[0];
    if hi - lo != 5 || !starts_with_at(s, lo, hi, &magic_line) {
        proof {
            if s@.subrange(lo as int, hi as int) == magic() {
                assert(s@.subrange(lo as int, hi as int).subrange(0, 5) =~= s@.subrange(lo as int, hi as int));
            }
        }
        return Err(MeshError { line: 0 });
    }
    proof {
        assert(s@.subrange(lo as int, hi as int).subrange(0, 5) =~= s@.subrange(lo as int, hi as int));
    }
    if ls.len() < 2 {
        return Err(MeshError { line: 1 });
    }
    let (lo, hi) = ls[1];
    let n = match read_count(s, lo, hi, &vertex_head) {
        Some(n) => n,
        None => {
            return Err(MeshError { line: 1 });
        },
    };
    if ls.len() < 3 {
        return Err(MeshError { line: 2 });
    }
    let (lo, hi) = ls[2];
    let m = match read_count(s, lo, hi, &face_head) {
        Some(m) => m,
        None => {
            return Err(MeshError { line: 2 });
        },
    };
    assert(forall|k: int| 0 <= k < 3 ==> is_good_line(s@, k, one_indexed));
    let mut vertices: Vec<[(usize, usize); 3]> = Vec::new();
    let mut i: usize = 0;
    while i < n
        invariant
            3 <= ls@.len(),
            ranges(ls@) == lines(s@),
            forall|k: int|
                0 <= k < ls@.len() ==> lines(s@)[k] == (#[trigger] ls@[k].0 as int, ls@[k].1 as int)
                    && ls@[k].0 <= ls@[k].1 <= s@.len(),
            n == vertex_count_of(s@),
            m == face_count_of(s@),
            i <= n,
            i <= ls@.len() - 3,
            vertices@.len() == i,
            forall|k: int| 0 <= k < 3 + i ==> is_good_line(s@, k, one_indexed),
            forall|j: int, c: int|
                0 <= j < i && 0 <= c < 3 ==> (#[trigger] vertices@[j][c].0 as int,
                vertices@[j][c].1 as int) == line_fields(s@, 3 + j)[c],
        decreases n - i,
    {
        if i >= ls.len() - 3 {
            return Err(MeshError { line: 3 + i });
        }
        let (lo, hi) = ls[3 + i];
        let f = split_fields(s, lo, hi);
        proof {
            lemma_fields_in_bounds(s@, lo as int, hi as int);
        }
        if f.len() < 3 {
            return Err(MeshError { line: 3 + i });
        }
        vertices.push([f[0], f[1], f[2]]);
        i = i + 1;
    }
    let mut faces: Vec<[usize; 3]> = Vec::new();
    let mut j: usize = 0;
    while j < m
        invariant
            3 + n <= ls@.len(),
            ranges(ls@) == lines(s@),
            forall|k: int|
                0 <= k < ls@.len() ==> lines(s@)[k] == (#[trigger] ls@[k].0 as int, ls@[k].1 as int)
                    && ls@[k].0 <= ls@[k].1 <= s@.len(),
            n == vertex_count_of(s@),
            m == face_count_of(s@),
            j <= m,
            j <= ls@.len() - 3 - n,
            vertices@.len() == n,
            faces@.len() == j,
            forall|k: int| 0 <= k < 3 + n + j ==> is_good_line(s@, k, one_indexed),
            forall|v: int, c: int|
                0 <= v < n && 0 <= c < 3 ==> (#[trigger] vertices@[v][c].0 as int,
                vertices@[v][c].1 as int) == line_fields(s@, 3 + v)[c],
            forall|q: int, c: int|
                0 <= q < j && 0 <= c < 3 ==> #[trigger] faces@[q][c] == field_value(
                    s@,
                    line_fields(s@, 3 + n + q)[c + 1],
                ) - (if one_indexed { 1int } else { 0int }),
        decreases m - j,
    {
        if j >= ls.len() - 3 - n {
            return Err(MeshError { line: 3 + n + j });
        }
        let k = 3 + n + j;
        let (lo, hi) = ls[k];
        let f = split_fields(s, lo, hi);
        proof {
            lemma_fields_in_bounds(s@, lo as int, hi as int);
            assert(line_fields(s@, k as int) == fields_from(s@, lo as int, hi as int));
            assert forall|c: int| 0 <= c < f@.len() implies line_fields(s@, k as int)[c] == (
            #[trigger] f@[c].0 as int, f@[c].1 as int) && lo <= f@[c].0 <= f@[c].1 <= hi by {
                assert(ranges(f@)[c] == fields_from(s@, lo as int, hi as int)[c]);
            }
        }
        if f.len() < 4 {
            return Err(MeshError { line: k });
        }
        let a = match parse_index_in(s, f[1].0, f[1].1) {
            Some(a) => a,
            None => {
                return Err(MeshError { line: k });
            },
        };
        let b = match parse_index_in(s, f[2].0, f[2].1) {
            Some(b) => b,
            None => {
                return Err(MeshError { line: k });
            },
        };
        let c = match parse_index_in(s, f[3].0, f[3].1) {
            Some(c) => c,
            None => {
                return Err(MeshError { line: k });
            },
        };
        let ghost base: int = if one_indexed { 1 } else { 0 };
        let ghost fs = line_fields(s@, k as int);
        proof {
            assert(a == field_value(s@, fs[1]));
            assert(b == field_value(s@, fs[2]));
            assert(c == field_value(s@, fs[3]));
        }
        match face_corners([a, b, c], one_indexed, n) {
            Some(corners) => {
                proof {
                    assert(corners[0] == a - base && corners[0] < n);
                    assert(corners[1] == b - base && corners[1] < n);
                    assert(corners[2] == c - base && corners[2] < n);
                    assert forall|q: int| 1 <= q <= 3 implies is_corner_field(
                        s@,
                        #[trigger] line_fields(s@, k as int)[q],
                        base,
                        n as int,
                    ) by {}
                    assert(is_good_line(s@, k as int, one_indexed));
                }
                let ghost before = faces@;
                faces.push(corners);
                proof {
                    assert forall|q: int, e: int| 0 <= q < j + 1 && 0 <= e < 3 implies #[trigger] faces@[q][e]
                        == field_value(s@, line_fields(s@, 3 + n + q)[e + 1]) - base by {
                        if q < j {
                            assert(faces@[q] == before[q]);
                        }
                    }
                }
            },
            None => {
                return Err(MeshError { line: k });
            },
        }
        j = j + 1;
    }
    Ok(MeshLayout { vertices, faces })
}

} // verus!
