use tgol::cell::{draw_exceeds_threshold, Cell, ALIVE_THRESHOLD, COOLING_RATE, MAX_HEAT};

#[test]
fn new_cell_heat_follows_alive_flag() {
    assert_eq!(Cell::new(true), Cell { alive: true, heat: 255 });
    assert_eq!(Cell::new(false), Cell { alive: false, heat: 0 });
}

#[test]
fn set_alive_restores_full_heat() {
    let mut c = Cell { alive: false, heat: 10 };
    c.set(true);
    assert_eq!(c, Cell { alive: true, heat: MAX_HEAT });
    let mut d = Cell { alive: true, heat: 255 };
    d.set(true);
    assert_eq!(d.heat, 255);
}

#[test]
fn set_dead_keeps_heat() {
    let mut c = Cell { alive: true, heat: 255 };
    c.set(false);
    assert_eq!(c, Cell { alive: false, heat: 255 });
    let mut d = Cell { alive: false, heat: 17 };
    d.set(false);
    assert_eq!(d, Cell { alive: false, heat: 17 });
}

#[test]
fn cooling_subtracts_amount() {
    let mut c = Cell { alive: false, heat: 200 };
    c.cool_if_dead(COOLING_RATE);
    assert_eq!(c, Cell { alive: false, heat: 150 });
}

#[test]
fn cooling_floors_at_zero() {
    let mut c = Cell { alive: false, heat: 30 };
    c.cool_if_dead(50);
    assert_eq!(c, Cell { alive: false, heat: 0 });
    c.cool_if_dead(50);
    assert_eq!(c, Cell { alive: false, heat: 0 });
}

#[test]
fn cooling_leaves_alive_cell_alone() {
    let mut c = Cell { alive: true, heat: 255 };
    c.cool_if_dead(50);
    assert_eq!(c, Cell { alive: true, heat: 255 });
}

#[test]
fn draw_threshold_boundary() {
    assert!(!draw_exceeds_threshold(0));
    assert!(!draw_exceeds_threshold(ALIVE_THRESHOLD));
    assert!(draw_exceeds_threshold(ALIVE_THRESHOLD + 1));
    assert!(draw_exceeds_threshold(0x7f_ffff));
    // only the low 23 bits count
    assert!(!draw_exceeds_threshold(0x80_0000));
    assert!(!draw_exceeds_threshold(0xff80_0000 | ALIVE_THRESHOLD));
    assert!(draw_exceeds_threshold(0xff80_0000 | (ALIVE_THRESHOLD + 1)));
}

#[test]
fn draw_threshold_matches_fraction_of_unit_interval() {
    for u in [0u32, 1, 2516582, 2516583, 4194304, 8388607, 0x1234_5678, u32::MAX] {
        let fraction = (u & 0x7f_ffff) as f64 / (1u64 << 23) as f64;
        assert_eq!(draw_exceeds_threshold(u), fraction > 0.3f32 as f64, "draw {}", u);
    }
}

#[test]
fn cell_from_draw_is_fresh() {
    assert_eq!(Cell::from_draw(ALIVE_THRESHOLD + 1), Cell { alive: true, heat: 255 });
    assert_eq!(Cell::from_draw(ALIVE_THRESHOLD), Cell { alive: false, heat: 0 });
}

#[test]
fn cell_colors() {
    assert_eq!(Cell { alive: true, heat: 255 }.color(), [50, 0, 255, 255]);
    assert_eq!(Cell { alive: false, heat: 200 }.color(), [100, 0, 170, 170]);
    assert_eq!(Cell { alive: false, heat: 50 }.color(), [0, 0, 20, 20]);
    assert_eq!(Cell { alive: false, heat: 0 }.color(), [0, 0, 0, 0]);
}
