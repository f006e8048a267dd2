use std::collections::HashMap;

use flowfield::{cell_costs, Coord, Cost, Field, FlowField, FlowFieldError, Grid};

fn open_costs(width: usize, height: usize) -> Field<Option<Cost>> {
    Field::new(width, height, vec![Some(Cost::free()); width * height])
}

fn follow(ff: &FlowField, start: Coord, goal: Coord, max_steps: usize) -> Option<Vec<Coord>> {
    let mut path = vec![start];
    let mut c = start;
    for _ in 0..max_steps {
        if c == goal {
            return Some(path);
        }
        let d = ff.get(&c)?;
        c = c.add(d);
        path.push(c);
    }
    if c == goal {
        Some(path)
    } else {
        None
    }
}

#[test]
fn new_flowfield_is_blank() {
    let ff = FlowField::new(3, 2);
    assert_eq!(ff.goal, None);
    assert_eq!(ff.updated_at, None);
    assert_eq!(ff.flow.data.len(), 6);
    assert!(ff.integration.data.iter().all(|v| v.is_none()));
}

#[test]
fn goal_has_zero_value_and_zero_flow() {
    let mut ff = FlowField::new(4, 3);
    let goal = Coord::new(1, 2);
    assert_eq!(ff.compute(&open_costs(4, 3), goal, 5), Ok(()));
    assert_eq!(*ff.integration.get(&goal), Some(0));
    assert_eq!(ff.get(&goal), Some(Coord::new(0, 0)));
    assert_eq!(ff.goal, Some(goal));
    assert_eq!(ff.updated_at, Some(5));
}

#[test]
fn integration_values_on_open_row() {
    // Entering a cell weighs its cost plus its distance to the goal.
    let mut ff = FlowField::new(4, 1);
    let mut costs = open_costs(4, 1);
    costs.set(&Coord::new(2, 0), Some(Cost(3)));
    ff.compute(&costs, Coord::new(0, 0), 0).unwrap();
    assert_eq!(ff.integration.data, vec![Some(0), Some(1), Some(6), Some(9)]);
    assert_eq!(ff.get(&Coord::new(3, 0)), Some(Coord::new(-1, 0)));
    assert_eq!(ff.get(&Coord::new(1, 0)), Some(Coord::new(-1, 0)));
}

#[test]
fn open_grid_every_cell_reaches_goal() {
    let mut ff = FlowField::new(5, 5);
    let goal = Coord::new(2, 2);
    ff.compute(&open_costs(5, 5), goal, 1).unwrap();
    for y in 0..5 {
        for x in 0..5 {
            let c = Coord::new(x, y);
            if c == goal {
                continue;
            }
            let d = ff.get(&c).expect("every cell has a direction");
            assert_ne!(d, Coord::new(0, 0));
            let path = follow(&ff, c, goal, 4).expect("reaches the goal within four steps");
            assert!(path.len() <= 5);
        }
    }
}

#[test]
fn wall_with_opening_routes_through_it() {
    let mut costs = open_costs(5, 5);
    for y in 1..5 {
        costs.set(&Coord::new(2, y), Some(Cost::impassable()));
    }
    let mut ff = FlowField::new(5, 5);
    let goal = Coord::new(4, 4);
    ff.compute(&costs, goal, 0).unwrap();
    let path = follow(&ff, Coord::new(0, 0), goal, 25).expect("the agent reaches the goal");
    assert!(path.contains(&Coord::new(2, 0)));
    for y in 1..5 {
        assert!(!path.contains(&Coord::new(2, y)));
    }
}

#[test]
fn flow_descends_everywhere() {
    let mut costs = open_costs(6, 4);
    costs.set(&Coord::new(3, 1), Some(Cost(40)));
    costs.set(&Coord::new(3, 2), Some(Cost::impassable()));
    costs.set(&Coord::new(1, 3), None);
    let mut ff = FlowField::new(6, 4);
    let goal = Coord::new(5, 0);
    ff.compute(&costs, goal, 0).unwrap();
    for c in ff.flow.iter_coords() {
        if c == goal {
            continue;
        }
        if let Some(v) = *ff.integration.get(&c) {
            let d = ff.get(&c).unwrap();
            let n = c.add(d);
            let nv = ff.integration.get(&n).expect("the target is reached");
            assert!(nv < v);
        }
    }
}

#[test]
fn impassable_cells_get_no_value() {
    let mut costs = open_costs(3, 3);
    costs.set(&Coord::new(1, 1), Some(Cost::impassable()));
    costs.set(&Coord::new(0, 1), None);
    let mut ff = FlowField::new(3, 3);
    ff.compute(&costs, Coord::new(0, 0), 0).unwrap();
    assert_eq!(*ff.integration.get(&Coord::new(1, 1)), None);
    assert_eq!(ff.get(&Coord::new(1, 1)), None);
    assert_eq!(*ff.integration.get(&Coord::new(0, 1)), None);
    for c in ff.flow.iter_coords() {
        if let Some(d) = ff.get(&c) {
            let n = c.add(d);
            assert_ne!(n, Coord::new(1, 1));
            assert_ne!(n, Coord::new(0, 1));
        }
    }
}

#[test]
fn enclosed_cell_is_unreached() {
    let mut costs = open_costs(3, 3);
    costs.set(&Coord::new(1, 0), Some(Cost::impassable()));
    costs.set(&Coord::new(0, 1), Some(Cost::impassable()));
    costs.set(&Coord::new(1, 1), Some(Cost::impassable()));
    let mut ff = FlowField::new(3, 3);
    ff.compute(&costs, Coord::new(2, 2), 0).unwrap();
    assert_eq!(*ff.integration.get(&Coord::new(0, 0)), None);
    assert_eq!(ff.get(&Coord::new(0, 0)), None);
}

#[test]
fn goal_out_of_bounds_changes_nothing() {
    let mut ff = FlowField::new(3, 3);
    ff.compute(&open_costs(3, 3), Coord::new(1, 1), 3).unwrap();
    let flow = ff.flow.data.clone();
    let integ = ff.integration.data.clone();
    assert_eq!(
        ff.compute(&open_costs(3, 3), Coord::new(3, 0), 9),
        Err(FlowFieldError::GoalOutOfBounds)
    );
    assert_eq!(
        ff.compute(&open_costs(3, 3), Coord::new(0, -1), 9),
        Err(FlowFieldError::GoalOutOfBounds)
    );
    assert_eq!(ff.goal, Some(Coord::new(1, 1)));
    assert_eq!(ff.updated_at, Some(3));
    assert_eq!(ff.flow.data, flow);
    assert_eq!(ff.integration.data, integ);
}

#[test]
fn mismatched_costs_are_rejected() {
    let mut ff = FlowField::new(3, 3);
    assert_eq!(
        ff.compute(&open_costs(3, 2), Coord::new(0, 0), 0),
        Err(FlowFieldError::SizeMismatch)
    );
    assert_eq!(ff.goal, None);
}

#[test]
fn oversized_field_is_rejected() {
    let mut ff = FlowField::new(3000, 3000);
    let costs = open_costs(3000, 3000);
    assert_eq!(
        ff.compute(&costs, Coord::new(0, 0), 0),
        Err(FlowFieldError::TooLarge)
    );
    assert_eq!(ff.goal, None);
}

#[test]
fn get_outside_is_none_and_set_outside_is_ignored() {
    let mut ff = FlowField::new(2, 2);
    assert_eq!(ff.get(&Coord::new(5, 5)), None);
    ff.set(&Coord::new(5, 5), Some(Coord::new(1, 0)));
    assert!(ff.flow.data.iter().all(|v| v.is_none()));
    ff.set(&Coord::new(1, 1), Some(Coord::new(-1, 0)));
    assert_eq!(ff.get(&Coord::new(1, 1)), Some(Coord::new(-1, 0)));
}

#[test]
fn clear_keeps_goal() {
    let mut ff = FlowField::new(3, 3);
    ff.compute(&open_costs(3, 3), Coord::new(1, 1), 0).unwrap();
    ff.clear();
    assert_eq!(ff.goal, Some(Coord::new(1, 1)));
    assert!(ff.flow.data.iter().all(|v| v.is_none()));
    assert!(ff.integration.data.iter().all(|v| v.is_none()));
}

#[test]
fn recompute_twice_gives_same_field() {
    let mut costs = open_costs(4, 4);
    costs.set(&Coord::new(1, 2), Some(Cost(9)));
    let mut ff = FlowField::new(4, 4);
    ff.compute(&costs, Coord::new(3, 0), 0).unwrap();
    let flow = ff.flow.data.clone();
    let integ = ff.integration.data.clone();
    ff.compute(&costs, Coord::new(3, 0), 1).unwrap();
    assert_eq!(ff.flow.data, flow);
    assert_eq!(ff.integration.data, integ);
}

#[test]
fn cell_costs_reads_occupant_records() {
    let mut grid = Grid::new(2, 2);
    grid.maintain_entity(10, Coord::new(0, 0)).unwrap();
    grid.maintain_entity(11, Coord::new(1, 0)).unwrap();
    grid.maintain_entity(12, Coord::new(0, 1)).unwrap();
    let mut costs = HashMap::new();
    costs.insert(10u64, Cost(0));
    costs.insert(11u64, Cost(200));
    let overlay = cell_costs(&grid, &costs);
    assert_eq!(overlay.data, vec![Some(Cost(0)), Some(Cost(200)), None, None]);
}

#[test]
fn recompute_over_grid_occupants() {
    let mut grid = Grid::new(3, 1);
    let mut costs = HashMap::new();
    for x in 0..3 {
        let id = 100 + x as u64;
        grid.maintain_entity(id, Coord::new(x, 0)).unwrap();
        costs.insert(id, Cost::free());
    }
    costs.insert(101, Cost::impassable());
    let mut ff = FlowField::new(3, 1);
    assert_eq!(ff.recompute(&grid, &costs, Coord::new(0, 0), 2), Ok(()));
    assert_eq!(ff.integration.data, vec![Some(0), None, None]);
    costs.insert(101, Cost(1));
    ff.recompute(&grid, &costs, Coord::new(0, 0), 3).unwrap();
    assert_eq!(ff.integration.data, vec![Some(0), Some(2), Some(4)]);
    assert_eq!(ff.get(&Coord::new(2, 0)), Some(Coord::new(-1, 0)));
}

#[test]
fn cost_defaults_and_sentinels() {
    assert_eq!(Cost::default(), Cost(0));
    assert_eq!(Cost::free(), Cost(0));
    assert_eq!(Cost::impassable(), Cost(255));
    assert!(Cost(255).is_impassable());
    assert!(!Cost(254).is_impassable());
}
