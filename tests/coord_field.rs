use flowfield::coord::{neighbors, neighbors8};
use flowfield::field::{iter_coords, to_1d, to_coord};
use flowfield::{Coord, Field};

#[test]
fn coord_new_holds_components() {
    let c = Coord::new(3, -4);
    assert_eq!(c.x, 3);
    assert_eq!(c.y, -4);
}

#[test]
fn neighbors_are_north_west_east_south() {
    let n = Coord::new(5, 5).neighbors();
    assert_eq!(
        n,
        vec![Coord::new(5, 4), Coord::new(4, 5), Coord::new(6, 5), Coord::new(5, 6)]
    );
}

#[test]
fn neighbors8_are_row_by_row() {
    let n = Coord::new(1, 1).neighbors8();
    assert_eq!(
        n,
        vec![
            Coord::new(0, 0),
            Coord::new(1, 0),
            Coord::new(2, 0),
            Coord::new(0, 1),
            Coord::new(2, 1),
            Coord::new(0, 2),
            Coord::new(1, 2),
            Coord::new(2, 2),
        ]
    );
}

#[test]
fn distance_is_manhattan() {
    assert_eq!(Coord::new(0, 0).distance(Coord::new(3, -4)), 7);
    assert_eq!(Coord::new(2, 2).distance(Coord::new(2, 2)), 0);
    assert_eq!(Coord::new(-5, 1).distance(Coord::new(5, 1)), 10);
}

#[test]
fn arithmetic_wraps() {
    let a = Coord::new(i32::MAX, 1);
    assert_eq!(a.add(Coord::new(1, 2)), Coord::new(i32::MIN, 3));
    assert_eq!(Coord::new(i32::MIN, 0).sub(Coord::new(1, 1)), Coord::new(i32::MAX, -1));
    assert_eq!(Coord::new(3, -2).mul(4), Coord::new(12, -8));
    assert_eq!(Coord::new(i32::MAX, 0).mul(2), Coord::new(-2, 0));
}

#[test]
fn neighbors_in_bounds_at_corner() {
    let c = Coord::new(0, 0);
    assert_eq!(neighbors(&c, 3, 3), vec![Coord::new(1, 0), Coord::new(0, 1)]);
    assert_eq!(
        neighbors8(&c, 3, 3),
        vec![Coord::new(1, 0), Coord::new(0, 1), Coord::new(1, 1)]
    );
    let far = Coord::new(2, 2);
    assert_eq!(
        neighbors8(&far, 3, 3),
        vec![Coord::new(1, 1), Coord::new(2, 1), Coord::new(1, 2)]
    );
}

#[test]
fn index_mapping_is_row_major() {
    assert_eq!(to_1d(&Coord::new(2, 1), 4), 6);
    assert_eq!(to_coord(6, 4), Coord::new(2, 1));
    let f: Field<Option<i32>> = Field::new(4, 3, vec![None; 12]);
    assert_eq!(f.to_1d(&Coord::new(3, 2)), 11);
    assert_eq!(f.to_coord(11), Coord::new(3, 2));
}

#[test]
fn iter_coords_walks_rows() {
    let all = iter_coords(2, 2);
    assert_eq!(
        all,
        vec![Coord::new(0, 0), Coord::new(1, 0), Coord::new(0, 1), Coord::new(1, 1)]
    );
    let f: Field<Option<u8>> = Field::new(3, 1, vec![None; 3]);
    assert_eq!(f.iter_coords(), vec![Coord::new(0, 0), Coord::new(1, 0), Coord::new(2, 0)]);
}

#[test]
fn field_bounds() {
    let f: Field<Option<u8>> = Field::new(3, 2, vec![None; 6]);
    assert!(f.within_bounds(&Coord::new(0, 0)));
    assert!(f.within_bounds(&Coord::new(2, 1)));
    assert!(!f.within_bounds(&Coord::new(3, 1)));
    assert!(!f.within_bounds(&Coord::new(2, 2)));
    assert!(!f.within_bounds(&Coord::new(-1, 0)));
}

#[test]
fn field_neighbors_stay_inside() {
    let f: Field<Option<u8>> = Field::new(2, 2, vec![None; 4]);
    assert_eq!(
        f.neighbors(&Coord::new(0, 0)),
        vec![Coord::new(1, 0), Coord::new(0, 1)]
    );
    assert_eq!(
        f.neighbors8(&Coord::new(1, 1)),
        vec![Coord::new(0, 0), Coord::new(1, 0), Coord::new(0, 1)]
    );
}

#[test]
fn field_get_set_clear() {
    let mut f: Field<Option<i32>> = Field::new(2, 2, vec![None; 4]);
    f.set(&Coord::new(1, 0), Some(7));
    f.set(&Coord::new(0, 1), Some(9));
    assert_eq!(*f.get(&Coord::new(1, 0)), Some(7));
    assert_eq!(f.iter(), &[None, Some(7), Some(9), None]);
    f.clear();
    assert!(f.iter().iter().all(|v| v.is_none()));
    assert_eq!(f.size.width, 2);
    assert_eq!(f.data.len(), 4);
}

#[test]
fn field_iter_mut_updates_in_place() {
    let mut f: Field<Option<i32>> = Field::new(3, 1, vec![Some(1), Some(2), None]);
    for v in f.iter_mut() {
        if let Some(x) = v {
            *x += 10;
        }
    }
    assert_eq!(f.data, vec![Some(11), Some(12), None]);
}

#[test]
fn field_resize_empties_every_cell() {
    let mut f: Field<Option<i32>> = Field::new(2, 1, vec![Some(1), Some(2)]);
    f.resize(2, 2);
    assert_eq!(f.data, vec![None, None, None, None]);
    assert_eq!(f.size.height, 2);
    f.set(&Coord::new(0, 0), Some(5));
    f.resize(1, 1);
    assert_eq!(f.data, vec![None]);
    assert_eq!(f.size.width, 1);
}

#[test]
fn coord_from_tuple() {
    assert_eq!(Coord::from((4, -1)), Coord::new(4, -1));
}

#[test]
fn coord_from_usize_tuple() {
    assert_eq!(Coord::from((3usize, 7usize)), Coord::new(3, 7));
}
