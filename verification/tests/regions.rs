use gridiron::index_space::{chunk_offsets_3d, range2d};
use gridiron::quilt::Area;

#[test]
fn chunk_offsets_walk_a_region_row_by_row() {
    let space = range2d(2..4, 1..3);
    let parent = range2d(0..5, 0..4);
    let region = space.memory_region_in(parent);
    // Rows 2 and 3, columns 1 and 2, of a 5 x 4 buffer with 3 values per element.
    assert_eq!(region.chunk_offsets(3), vec![27, 30, 39, 42]);
    assert_eq!(region.chunk_offsets(0), vec![0, 0, 0, 0]);
}

#[test]
fn chunk_offsets_3d_put_the_last_axis_fastest() {
    let v = chunk_offsets_3d((1, 0, 1), (2, 2, 2), (3, 2, 3), 2);
    // Element (i, j, k) of a 3 x 2 x 3 buffer is at ((i * 2 + j) * 3 + k) * 2.
    assert_eq!(v, vec![14, 16, 20, 22, 26, 28, 32, 34]);
    assert!(chunk_offsets_3d((0, 0, 0), (0, 5, 5), (1, 5, 5), 1).is_empty());
}

#[test]
fn areas_hold_their_half_open_range() {
    let a = Area::with_shape(10);
    assert!(a.contains(0));
    assert!(a.contains(9));
    assert!(!a.contains(10));
    let b = Area::covering(3, 7).expand(2);
    assert_eq!((b.0, b.1), (1, 9));
    assert_eq!(b.iter().collect::<Vec<i64>>(), vec![1, 2, 3, 4, 5, 6, 7, 8]);
    assert!(Area::covering(4, 4).iter().next().is_none());
}

#[test]
fn chunk_offsets_3d_visit_every_element_of_a_nested_block() {
    // A 10 x 10 x 10 block at (5, 10, 15) of a 100 x 100 x 100 buffer with
    // 5 values per element.
    let v = chunk_offsets_3d((5, 10, 15), (10, 10, 10), (100, 100, 100), 5);
    assert_eq!(v.len(), 1000);
    assert_eq!(v[0], ((5 * 100 + 10) * 100 + 15) * 5);
    assert_eq!(v[999], ((14 * 100 + 19) * 100 + 24) * 5);
    assert!(v.windows(2).all(|w| w[0] < w[1]));
}

#[test]
fn index_spaces_may_be_empty_on_either_axis() {
    let a = range2d(0..3, 2..2);
    assert!(a.is_empty());
    assert_eq!(a.len(), 0);
    assert_eq!(a.dim(), (3, 0));
    assert!(a.iter().is_empty());
    let b = range2d(4..4, 0..5);
    assert!(b.is_empty());
    assert_eq!(b.len(), 0);
}

#[test]
fn row_major_offsets_number_the_indices_once() {
    let s = range2d(-2..1, 3..7);
    let offsets: Vec<usize> = s.iter().into_iter().map(|i| s.row_major_offset(i)).collect();
    assert_eq!(offsets, (0..12).collect::<Vec<usize>>());
}
