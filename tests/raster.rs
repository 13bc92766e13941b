use raytracer::framebuffer::FrameBuffer;
use raytracer::linedrawer::draw_line;
use raytracer::camera::{flipped_row, row_band};
use raytracer::mesh::{face_corners, parse_index, vertex_faces};

fn lit(f: &FrameBuffer<u8>) -> Vec<(usize, usize)> {
    let mut v = Vec::new();
    for y in 0..f.height() {
        for x in 0..f.width() {
            if f.get_pixel(x, y) == 1 {
                v.push((x, y));
            }
        }
    }
    v.sort();
    v
}

fn drawn(sx: i32, sy: i32, ex: i32, ey: i32, w: usize, h: usize) -> Vec<(usize, usize)> {
    let mut f = FrameBuffer::new(w, h, 0u8);
    draw_line(&mut f, sx, sy, ex, ey, 1);
    lit(&f)
}

#[test]
fn frame_buffer_plot_and_get() {
    let mut f = FrameBuffer::new(3, 2, 0u8);
    assert_eq!((f.width(), f.height()), (3, 2));
    f.plot_pixel(2, 1, 9);
    f.plot_pixel(0, 1, 4);
    assert_eq!(f.get_pixel(2, 1), 9);
    assert_eq!(f.get_pixel(0, 1), 4);
    assert_eq!(f.get_pixel(2, 0), 0);
}

#[test]
fn shallow_line_excludes_far_end() {
    assert_eq!(drawn(0, 0, 4, 2, 6, 4), vec![(0, 0), (1, 0), (2, 1), (3, 1)]);
    assert_eq!(drawn(4, 2, 0, 0, 6, 4), vec![(0, 0), (1, 0), (2, 1), (3, 1)]);
}

#[test]
fn steep_and_diagonal_lines() {
    assert_eq!(drawn(1, 0, 2, 5, 6, 6), vec![(1, 0), (1, 1), (1, 2), (1, 3), (1, 4)]);
    assert_eq!(drawn(0, 5, 5, 0, 6, 6), vec![(0, 5), (1, 4), (2, 3), (3, 2), (4, 1)]);
}

#[test]
fn lines_are_clipped_to_the_buffer() {
    assert_eq!(drawn(-2, 1, 3, 1, 4, 3), vec![(0, 1), (1, 1), (2, 1)]);
    assert_eq!(drawn(0, 0, 5, 0, 3, 2), vec![(0, 0), (1, 0), (2, 0)]);
}

#[test]
fn single_point_line() {
    assert_eq!(drawn(2, 1, 2, 1, 4, 3), vec![(2, 1)]);
}

#[test]
fn faces_meeting_at_each_vertex() {
    let r = vertex_faces(4, &vec![[0, 1, 2], [0, 2, 3]]);
    assert_eq!(r, vec![vec![0, 1], vec![0], vec![0, 1], vec![1]]);
    let r = vertex_faces(3, &vec![[1, 1, 2]]);
    assert_eq!(r, vec![vec![], vec![0, 0], vec![0]]);
    let r = vertex_faces(2, &vec![]);
    assert_eq!(r, vec![Vec::<usize>::new(), vec![]]);
}

#[test]
fn index_fields_read_as_usize_from_str() {
    assert_eq!(parse_index(b"0"), Some(0));
    assert_eq!(parse_index(b"1234"), Some(1234));
    assert_eq!(parse_index(b"+17"), Some(17));
    assert_eq!(parse_index(b"007"), Some(7));
    assert_eq!(parse_index(b""), None);
    assert_eq!(parse_index(b"+"), None);
    assert_eq!(parse_index(b"-3"), None);
    assert_eq!(parse_index(b"12a"), None);
    assert_eq!(parse_index(b" 12"), None);
    let max = usize::MAX.to_string();
    assert_eq!(parse_index(max.as_bytes()), Some(usize::MAX));
    let over = format!("{}0", usize::MAX);
    assert_eq!(parse_index(over.as_bytes()), None);
    for s in ["1", "42", "65535", "4294967296"] {
        assert_eq!(parse_index(s.as_bytes()), s.parse::<usize>().ok());
    }
}

#[test]
fn face_corners_shift_and_check_indices() {
    assert_eq!(face_corners([1, 2, 3], true, 3), Some([0, 1, 2]));
    assert_eq!(face_corners([0, 1, 2], false, 3), Some([0, 1, 2]));
    assert_eq!(face_corners([0, 1, 2], true, 3), None);
    assert_eq!(face_corners([1, 2, 3], false, 3), None);
    assert_eq!(face_corners([3, 1, 2], true, 3), Some([2, 0, 1]));
}

#[test]
fn row_bands_and_flipped_rows() {
    assert_eq!(row_band(0, 8, 512), (0, 64));
    assert_eq!(row_band(7, 8, 512), (448, 512));
    assert_eq!(row_band(3, 8, 10), (3, 5));
    assert_eq!(row_band(7, 8, 10), (8, 10));
    assert_eq!(row_band(0, 1, 7), (0, 7));
    assert_eq!(flipped_row(512, 0), 511);
    assert_eq!(flipped_row(512, 511), 0);
}

#[test]
fn row_bands_partition_the_image() {
    for height in [0usize, 1, 7, 10, 512, 513] {
        let mut next = 0;
        for i in 0..8 {
            let (a, b) = row_band(i, 8, height);
            assert_eq!(a, next);
            assert!(a <= b);
            next = b;
        }
        assert_eq!(next, height);
    }
}
