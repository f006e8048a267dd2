use flowfield::{Coord, Grid, OccupancyError};

fn cells_holding(grid: &Grid, id: u64) -> usize {
    grid.storage.data.iter().filter(|c| **c == Some(id)).count()
}

#[test]
fn new_grid_is_empty() {
    let g = Grid::new(3, 2);
    assert_eq!(g.storage.data.len(), 6);
    assert!(g.storage.data.iter().all(|c| c.is_none()));
    assert!(g.backward.is_empty());
    assert!(g.within_bounds(&Coord::new(2, 1)));
    assert!(!g.within_bounds(&Coord::new(3, 0)));
}

#[test]
fn maintain_entity_claims_cell() {
    let mut g = Grid::new(4, 4);
    assert_eq!(g.maintain_entity(7, Coord::new(1, 2)), Ok(()));
    assert_eq!(g.get(&Coord::new(1, 2)), Some(7));
    assert_eq!(g.backward.get(&7), Some(&Coord::new(1, 2)));
}

#[test]
fn maintain_entity_moves_and_vacates() {
    let mut g = Grid::new(4, 4);
    g.maintain_entity(7, Coord::new(1, 2)).unwrap();
    assert_eq!(g.maintain_entity(7, Coord::new(3, 3)), Ok(()));
    assert_eq!(g.get(&Coord::new(1, 2)), None);
    assert_eq!(g.get(&Coord::new(3, 3)), Some(7));
    assert_eq!(g.backward.get(&7), Some(&Coord::new(3, 3)));
    assert_eq!(cells_holding(&g, 7), 1);
}

#[test]
fn maintain_entity_twice_same_cell_keeps_one_entry() {
    let mut g = Grid::new(5, 5);
    g.maintain_entity(42, Coord::new(2, 3)).unwrap();
    g.maintain_entity(42, Coord::new(2, 3)).unwrap();
    assert_eq!(g.backward.len(), 1);
    assert_eq!(g.backward.get(&42), Some(&Coord::new(2, 3)));
    assert_eq!(cells_holding(&g, 42), 1);
}

#[test]
fn maintain_entity_rejects_occupied_cell() {
    let mut g = Grid::new(3, 3);
    g.maintain_entity(1, Coord::new(0, 0)).unwrap();
    g.maintain_entity(2, Coord::new(1, 1)).unwrap();
    assert_eq!(
        g.maintain_entity(2, Coord::new(0, 0)),
        Err(OccupancyError::Occupied(1))
    );
    assert_eq!(g.get(&Coord::new(0, 0)), Some(1));
    assert_eq!(g.get(&Coord::new(1, 1)), Some(2));
    assert_eq!(g.backward.get(&2), Some(&Coord::new(1, 1)));
}

#[test]
fn maintain_entity_rejects_out_of_bounds() {
    let mut g = Grid::new(3, 3);
    assert_eq!(
        g.maintain_entity(1, Coord::new(3, 0)),
        Err(OccupancyError::OutOfBounds)
    );
    assert_eq!(
        g.maintain_entity(1, Coord::new(0, -1)),
        Err(OccupancyError::OutOfBounds)
    );
    assert!(g.backward.is_empty());
}

#[test]
fn cell_bundles_cover_the_grid_row_by_row() {
    let cells = flowfield::cell_bundles(2, 3);
    assert_eq!(cells.len(), 6);
    assert_eq!(cells[0], flowfield::CellBundle::new(Coord::new(0, 0)));
    assert_eq!(cells[1].coord, Coord::new(1, 0));
    assert_eq!(cells[5].coord, Coord::new(1, 2));
}
