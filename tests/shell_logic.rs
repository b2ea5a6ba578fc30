use life_grid::field::{in_play_field, pixel_to_cell, place_coordinate, CELL_SIZE, FIELD_HEIGHT, FIELD_WIDTH};
use life_grid::{Coordinate, Mode, Simulation};

#[test]
fn pixel_to_cell_rounds_down() {
    assert_eq!(CELL_SIZE, 8);
    assert_eq!(pixel_to_cell(0), 0);
    assert_eq!(pixel_to_cell(7), 0);
    assert_eq!(pixel_to_cell(8), 1);
    assert_eq!(pixel_to_cell(17), 2);
    assert_eq!(pixel_to_cell(-1), -1);
    assert_eq!(pixel_to_cell(-8), -1);
    assert_eq!(pixel_to_cell(-9), -2);
    assert_eq!(pixel_to_cell(i64::MIN), i64::MIN / 8);
    assert_eq!(pixel_to_cell(i64::MAX), i64::MAX / 8);
}

#[test]
fn play_field_bounds() {
    assert_eq!((FIELD_WIDTH, FIELD_HEIGHT), (1280, 720));
    assert!(in_play_field(0, 0));
    assert!(in_play_field(640, 360));
    assert!(in_play_field(-640, -360));
    assert!(!in_play_field(641, 0));
    assert!(!in_play_field(0, -361));
}

#[test]
fn place_coordinate_on_and_off_field() {
    assert_eq!(place_coordinate(17, -9), Some(Coordinate::new(2, -2)));
    assert_eq!(place_coordinate(700, 0), None);
    assert_eq!(place_coordinate(0, 400), None);
}

#[test]
fn simulation_places_only_while_editing() {
    let mut sim: Simulation<u32> = Simulation::new();
    assert_eq!(sim.mode(), Mode::Editing);
    assert_eq!(sim.place(Coordinate::new(0, 0), 1), Ok(()));
    assert_eq!(sim.place(Coordinate::new(0, 0), 2), Err(2));
    assert!(sim.tick().is_none());
    assert!(sim.grid().is_alive(Coordinate::new(0, 0)));
    sim.start();
    assert_eq!(sim.mode(), Mode::Running);
    assert_eq!(sim.place(Coordinate::new(1, 1), 3), Err(3));
    assert!(!sim.grid().is_alive(Coordinate::new(1, 1)));
}

#[test]
fn simulation_steps_once_per_tick_while_running() {
    let mut sim: Simulation<u32> = Simulation::new();
    for (i, x) in [-1i64, 0, 1].iter().enumerate() {
        assert_eq!(sim.place(Coordinate::new(*x, 0), i as u32), Ok(()));
    }
    sim.start();
    let r = sim.tick().expect("running simulation steps");
    assert_eq!(r.born.len(), 2);
    assert_eq!(r.died.len(), 2);
    assert!(sim.grid().is_alive(Coordinate::new(0, 1)));
    assert!(sim.grid().is_alive(Coordinate::new(0, -1)));
    assert_eq!(sim.grid().generation(), 1);
    let born = r.born[0];
    assert_eq!(sim.set_handle(born, 10), Ok(None));
}
