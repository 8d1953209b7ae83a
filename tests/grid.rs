use wave_collapse::{MultiVec, RestVec};

fn numbered(w: usize, h: usize) -> MultiVec<i32> {
    let data: Vec<i32> = (0..(w * h) as i32).collect();
    MultiVec::from_data(data, w, h)
}

#[test]
fn new_fills_every_cell() {
    let g = MultiVec::new(7, 3, 2);
    assert_eq!(g.w, 3);
    assert_eq!(g.h, 2);
    assert_eq!(g.data, vec![7; 6]);
}

#[test]
fn new_like_copies_the_size() {
    let other = numbered(4, 5);
    let g = MultiVec::new_like(false, &other);
    assert_eq!((g.w, g.h), (4, 5));
    assert_eq!(g.data.len(), 20);
    assert!(g.data.iter().all(|b| !*b));
}

#[test]
fn default_is_empty() {
    let g: MultiVec<u8> = MultiVec::default();
    assert_eq!((g.w, g.h, g.data.len()), (0, 0, 0));
}

#[test]
fn checked_xy_to_index_is_row_major() {
    assert_eq!(MultiVec::<i32>::checked_xy_to_index(2, 1, 3, 2), Some(5));
    assert_eq!(MultiVec::<i32>::checked_xy_to_index(0, 0, 3, 2), Some(0));
    assert_eq!(MultiVec::<i32>::checked_xy_to_index(3, 0, 3, 2), None);
    assert_eq!(MultiVec::<i32>::checked_xy_to_index(0, 2, 3, 2), None);
}

#[test]
fn checked_index_to_xy_inverts() {
    assert_eq!(MultiVec::<i32>::checked_index_to_xy(5, 3, 2), Some((2, 1)));
    assert_eq!(MultiVec::<i32>::checked_index_to_xy(3, 3, 2), Some((0, 1)));
    assert_eq!(MultiVec::<i32>::checked_index_to_xy(6, 3, 2), None);
    assert_eq!(MultiVec::<i32>::checked_index_to_xy(0, 0, 0), None);
}

#[test]
fn xy_and_index_on_a_grid() {
    let g = numbered(4, 3);
    assert_eq!(g.xy_to_index(3, 2), Some(11));
    assert_eq!(g.xy_to_index(4, 2), None);
    assert_eq!(g.index_to_xy(6), Some((2, 1)));
    assert_eq!(g.index_to_xy(12), None);
}

#[test]
fn get_and_get_mut() {
    let mut g = numbered(4, 3);
    assert_eq!(g.get(1, 2), Some(&9));
    assert_eq!(g.get(4, 0), None);
    *g.get_mut(1, 2).unwrap() = 100;
    assert_eq!(g.get(1, 2), Some(&100));
    assert!(g.get_mut(0, 3).is_none());
}

#[test]
fn iter_and_iter_mut_walk_row_major() {
    let mut g = numbered(2, 2);
    assert_eq!(g.iter().to_vec(), vec![0, 1, 2, 3]);
    for v in g.iter_mut().iter_mut() {
        *v *= 10;
    }
    assert_eq!(g.data, vec![0, 10, 20, 30]);
}

#[test]
fn enum_iter_gives_coordinates() {
    let g = numbered(3, 2);
    let items: Vec<(usize, usize, i32)> = g.enum_iter().into_iter().map(|(x, y, v)| (x, y, *v)).collect();
    assert_eq!(items, vec![(0, 0, 0), (1, 0, 1), (2, 0, 2), (0, 1, 3), (1, 1, 4), (2, 1, 5)]);
}

#[test]
fn enum_iter_mut_changes_in_place() {
    let mut g = numbered(2, 2);
    let (xy, cells) = g.enum_iter_mut();
    for (k, (x, y)) in xy.iter().enumerate() {
        cells[k] = (10 * x + y) as i32;
    }
    assert_eq!(g.data, vec![0, 10, 1, 11]);
}

#[test]
fn isolate_splits_one_cell_from_the_rest() {
    let mut g = numbered(3, 3);
    {
        let (me, mut rest): (&mut i32, RestVec<i32>) = g.isolate(1, 1).unwrap();
        assert_eq!(*me, 4);
        assert_eq!(rest.get(1, 1), None);
        assert_eq!(rest.get(0, 1), Some(&3));
        assert_eq!(rest.get(2, 2), Some(&8));
        assert_eq!(rest.get(3, 0), None);
        *rest.get_mut(2, 1).unwrap() = 50;
        assert!(rest.get_mut(1, 1).is_none());
        *me = 40;
    }
    assert_eq!(g.data, vec![0, 1, 2, 3, 40, 50, 6, 7, 8]);
    assert!(g.isolate(3, 0).is_none());
}
