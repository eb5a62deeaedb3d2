use planet_mesh::field::HeightMap;
use planet_mesh::sampling::{GridCell, Neighbors};
use planet_mesh::view::ColorMode;

fn cell(lon: (usize, usize), lat: (usize, usize), lon_upper: bool, lat_upper: bool) -> GridCell {
    GridCell {
        lon_floor: lon.0,
        lon_ceil: lon.1,
        lat_floor: lat.0,
        lat_ceil: lat.1,
        lon_upper,
        lat_upper,
    }
}

#[test]
fn nearest_picks_the_quadrant() {
    let n = Neighbors { bottom_left: 1, bottom_right: 2, top_left: 3, top_right: 4 };
    assert_eq!(n.nearest(false, false), 1);
    assert_eq!(n.nearest(false, true), 2);
    assert_eq!(n.nearest(true, false), 3);
    assert_eq!(n.nearest(true, true), 4);
}

#[test]
fn neighbors_read_the_four_corners() {
    let m = HeightMap::new(4, 2, vec![0, 1, 2, 3, 4, 5, 6, 7]).unwrap();
    let n = m.get_neighbors(&cell((1, 2), (0, 1), false, false));
    assert_eq!(n, Neighbors { bottom_left: 1, bottom_right: 2, top_left: 5, top_right: 6 });
}

#[test]
fn neighbors_wrap_rows_and_clamp_columns() {
    let m = HeightMap::new(4, 2, vec![0, 1, 2, 3, 4, 5, 6, 7]).unwrap();
    let n = m.get_neighbors(&cell((3, 4), (1, 2), true, true));
    assert_eq!(n, Neighbors { bottom_left: 7, bottom_right: 7, top_left: 3, top_right: 3 });
    assert_eq!(m.nearest_at(&cell((3, 4), (1, 2), true, true)), 3);
}

#[test]
fn grid_point_reads_its_sample() {
    let m = HeightMap::new(4, 2, vec![0, 1, 2, 3, 4, 5, 6, 7]).unwrap();
    for row in 0..2usize {
        for col in 0..4usize {
            for (lon_upper, lat_upper) in [(false, false), (true, false), (false, true), (true, true)] {
                let c = cell((col, col), (row, row), lon_upper, lat_upper);
                assert_eq!(m.nearest_at(&c), m.height_at(row, col));
            }
        }
    }
}

#[test]
fn zero_field_samples_zero_everywhere() {
    let m = HeightMap::new(4, 2, vec![0; 8]).unwrap();
    for lon in 0..4usize {
        for lat in 0..2usize {
            let c = cell((lon, lon + 1), (lat, lat + 1), lon % 2 == 0, lat % 2 == 1);
            assert_eq!(m.nearest_at(&c), 0);
        }
    }
}

#[test]
fn one_nonzero_sample_is_found_only_from_its_quadrant() {
    let mut data = vec![0i16; 8];
    data[4 + 2] = 37;
    let m = HeightMap::new(4, 2, data).unwrap();
    // a point in cell lon 1..2, lat 0..1, in its upper-right quadrant rounds to (row 1, col 2)
    assert_eq!(m.nearest_at(&cell((1, 2), (0, 1), true, true)), 37);
    assert_eq!(m.nearest_at(&cell((1, 2), (0, 1), false, true)), 0);
    assert_eq!(m.nearest_at(&cell((1, 2), (0, 1), true, false)), 0);
    assert_eq!(m.nearest_at(&cell((1, 2), (0, 1), false, false)), 0);
}

#[test]
fn color_mode_cycles_through_all_four() {
    let mut mode = ColorMode::Real;
    assert_eq!(mode.cycle(), ColorMode::Normal);
    assert_eq!(mode.cycle(), ColorMode::Inclination);
    assert_eq!(mode.cycle(), ColorMode::Altitude);
    assert_eq!(mode.cycle(), ColorMode::Real);
    assert_eq!(mode, ColorMode::Real);
}

#[test]
fn color_mode_custom_and_codes() {
    assert!(!ColorMode::Real.is_custom());
    assert!(ColorMode::Normal.is_custom());
    assert!(ColorMode::Inclination.is_custom());
    assert!(ColorMode::Altitude.is_custom());
    assert_eq!(ColorMode::Real.code(), 0);
    assert_eq!(ColorMode::Normal.code(), 1);
    assert_eq!(ColorMode::Inclination.code(), 2);
    assert_eq!(ColorMode::Altitude.code(), 3);
}
