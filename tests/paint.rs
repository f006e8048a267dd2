use flowfield::{ComputeFlowField, Coord, Cost, PaintData, PointerButtons};

#[test]
fn left_press_requests_recompute() {
    let mut p = PaintData::default();
    let b = PointerButtons { left_just_pressed: true, ..Default::default() };
    let step = p.update(b, 9, Coord::new(2, 3), true, Some(Cost(0)));
    assert_eq!(step.compute, Some(ComputeFlowField { goal: Coord::new(2, 3), grid_entity: 9 }));
    assert_eq!(step.paint, None);
    assert_eq!(p, PaintData::default());
}

#[test]
fn right_press_on_open_cell_blocks() {
    let mut p = PaintData::default();
    let b = PointerButtons { right_just_pressed: true, right_pressed: true, ..Default::default() };
    let step = p.update(b, 1, Coord::new(0, 0), true, Some(Cost(0)));
    assert_eq!(step.paint, Some(Cost::impassable()));
    assert!(p.is_painting);
    assert!(p.block);
}

#[test]
fn right_press_on_blocked_cell_opens() {
    let mut p = PaintData::default();
    let b = PointerButtons { right_just_pressed: true, right_pressed: true, ..Default::default() };
    let step = p.update(b, 1, Coord::new(0, 0), true, Some(Cost::impassable()));
    assert_eq!(step.paint, Some(Cost::free()));
    assert!(!p.block);
}

#[test]
fn stroke_continues_and_ends_on_release() {
    let mut p = PaintData { block: true, is_painting: true };
    let hold = PointerButtons { right_pressed: true, ..Default::default() };
    let step = p.update(hold, 1, Coord::new(1, 0), true, Some(Cost(0)));
    assert_eq!(step.paint, Some(Cost::impassable()));
    let release = PointerButtons { right_just_released: true, ..Default::default() };
    let step = p.update(release, 1, Coord::new(1, 0), true, Some(Cost(0)));
    assert_eq!(step.paint, None);
    assert!(!p.is_painting);
}

#[test]
fn outside_the_grid_nothing_happens() {
    let mut p = PaintData { block: false, is_painting: true };
    let b = PointerButtons {
        left_just_pressed: true,
        right_just_pressed: true,
        right_pressed: true,
        right_just_released: true,
    };
    let step = p.update(b, 1, Coord::new(-1, 0), false, Some(Cost(0)));
    assert_eq!(step.compute, None);
    assert_eq!(step.paint, None);
    assert_eq!(p, PaintData { block: false, is_painting: true });
}
