use raytracer::mesh::{parse_kcply, MeshError};
use raytracer::text::{split_fields, split_lines};

const CUBE_CORNER: &str = "kcply\nelement vertex 4\nelement face 2\n0 0 0\n1.5 0 0\n0 2 0 extra\n0 0 -3\n3 1 2 3\n3 1 3 4\n";

fn text_of(s: &str, r: (usize, usize)) -> &str {
    &s[r.0..r.1]
}

#[test]
fn lines_drop_line_feeds_and_carriage_returns() {
    let s = "ab\r\ncd\n\nef";
    let l: Vec<&str> = split_lines(s.as_bytes()).into_iter().map(|r| text_of(s, r)).collect();
    assert_eq!(l, vec!["ab", "cd", "", "ef"]);
    let s = "x\n";
    assert_eq!(split_lines(s.as_bytes()).len(), 1);
    assert!(split_lines(b"").is_empty());
    for s in ["a\nb\r\n", "\n\n", "one line", "tail\r"] {
        let ours: Vec<&str> = split_lines(s.as_bytes()).into_iter().map(|r| text_of(s, r)).collect();
        let std: Vec<&str> = s.lines().collect();
        assert_eq!(ours, std);
    }
}

#[test]
fn fields_are_runs_between_whitespace() {
    let s = "  3\t1  2 \x0b 3  ";
    let f: Vec<&str> =
        split_fields(s.as_bytes(), 0, s.len()).into_iter().map(|r| text_of(s, r)).collect();
    assert_eq!(f, vec!["3", "1", "2", "3"]);
    assert!(split_fields(b"   ", 0, 3).is_empty());
    let f: Vec<&str> = split_fields(s.as_bytes(), 3, 6).into_iter().map(|r| text_of(s, r)).collect();
    assert_eq!(f, vec!["1"]);
}

#[test]
fn reads_a_one_indexed_mesh() {
    let m = parse_kcply(CUBE_CORNER.as_bytes(), true).unwrap();
    let coords: Vec<[&str; 3]> = m
        .vertices
        .iter()
        .map(|[x, y, z]| [text_of(CUBE_CORNER, *x), text_of(CUBE_CORNER, *y), text_of(CUBE_CORNER, *z)])
        .collect();
    assert_eq!(coords, vec![["0", "0", "0"], ["1.5", "0", "0"], ["0", "2", "0"], ["0", "0", "-3"]]);
    assert_eq!(m.faces, vec![[0, 1, 2], [0, 2, 3]]);
}

#[test]
fn reads_a_zero_indexed_mesh_with_crlf() {
    let s = "kcply\r\nelement vertex 3\r\nelement face 1\r\n0 0 0\r\n1 0 0\r\n0 1 0\r\n3 0 1 2\r\ntrailing\r\n";
    let m = parse_kcply(s.as_bytes(), false).unwrap();
    assert_eq!(m.vertices.len(), 3);
    assert_eq!(m.faces, vec![[0, 1, 2]]);
}

#[test]
fn reports_first_bad_line() {
    let err = |s: &str, one: bool| parse_kcply(s.as_bytes(), one).err();
    assert_eq!(err("", true), Some(MeshError { line: 0 }));
    assert_eq!(err("ply\n", true), Some(MeshError { line: 0 }));
    assert_eq!(err("kcply\n", true), Some(MeshError { line: 1 }));
    assert_eq!(err("kcply\nelement vertex x\n", true), Some(MeshError { line: 1 }));
    assert_eq!(err("kcply\nelement vertex 1\nelement faces 1\n", true), Some(MeshError { line: 2 }));
    assert_eq!(err("kcply\nelement vertex 2\nelement face 0\n0 0 0\n", true), Some(MeshError { line: 4 }));
    assert_eq!(err("kcply\nelement vertex 1\nelement face 0\n0 0\n", true), Some(MeshError { line: 3 }));
    assert_eq!(
        err("kcply\nelement vertex 3\nelement face 1\n0 0 0\n1 0 0\n0 1 0\n3 1 2\n", true),
        Some(MeshError { line: 6 })
    );
    assert_eq!(
        err("kcply\nelement vertex 3\nelement face 1\n0 0 0\n1 0 0\n0 1 0\n3 1 2 4\n", true),
        Some(MeshError { line: 6 })
    );
    assert_eq!(
        err("kcply\nelement vertex 3\nelement face 1\n0 0 0\n1 0 0\n0 1 0\n3 0 1 2\n", true),
        Some(MeshError { line: 6 })
    );
    assert_eq!(
        err("kcply\nelement vertex 3\nelement face 2\n0 0 0\n1 0 0\n0 1 0\n3 0 1 2\n", false),
        Some(MeshError { line: 7 })
    );
    assert!(err("kcply\nelement vertex 0\nelement face 0\n", true).is_none());
}
