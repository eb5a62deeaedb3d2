use planet_mesh::field::{floor_sqrt, ConfigurationError, HeightMap};

fn grid_4x2() -> HeightMap {
    HeightMap::new(4, 2, vec![0, 1, 2, 3, 4, 5, 6, 7]).unwrap()
}

#[test]
fn new_rejects_empty_dimensions() {
    assert_eq!(HeightMap::new(0, 2, vec![]).err(), Some(ConfigurationError::EmptyDimension));
    assert_eq!(HeightMap::new(4, 0, vec![]).err(), Some(ConfigurationError::EmptyDimension));
}

#[test]
fn new_rejects_size_mismatch() {
    assert_eq!(
        HeightMap::new(4, 2, vec![0; 7]).err(),
        Some(ConfigurationError::SizeMismatch)
    );
    assert_eq!(
        HeightMap::new(4, 2, vec![0; 9]).err(),
        Some(ConfigurationError::SizeMismatch)
    );
}

#[test]
fn new_keeps_dimensions_and_samples() {
    let m = grid_4x2();
    assert_eq!(m.width(), 4);
    assert_eq!(m.height(), 2);
    assert_eq!(m.samples(), &vec![0, 1, 2, 3, 4, 5, 6, 7]);
}

#[test]
fn height_at_reads_row_major() {
    let m = grid_4x2();
    assert_eq!(m.height_at(0, 0), 0);
    assert_eq!(m.height_at(0, 3), 3);
    assert_eq!(m.height_at(1, 2), 6);
}

#[test]
fn height_at_clamps_columns() {
    let m = grid_4x2();
    assert_eq!(m.height_at(0, 4), 3);
    assert_eq!(m.height_at(1, 1000), 7);
}

#[test]
fn height_at_wraps_rows() {
    let m = grid_4x2();
    assert_eq!(m.height_at(2, 1), 1);
    assert_eq!(m.height_at(3, 1), 5);
    assert_eq!(m.height_at(2, 0), m.height_at(0, 0));
}

#[test]
fn longitude_seam_reads_last_column() {
    // the column past the end reads as the last one, which equals column 0
    // only where the row closes on itself
    let m = HeightMap::new(4, 2, vec![9, 1, 2, 9, 4, 5, 6, 7]).unwrap();
    assert_eq!(m.height_at(0, 4), m.height_at(0, 0));
    assert_eq!(m.height_at(1, 4), 7);
    assert_ne!(m.height_at(1, 4), m.height_at(1, 0));
}

#[test]
fn floor_sqrt_values() {
    assert_eq!(floor_sqrt(0), 0);
    assert_eq!(floor_sqrt(1), 1);
    assert_eq!(floor_sqrt(15), 3);
    assert_eq!(floor_sqrt(16), 4);
    assert_eq!(floor_sqrt(17), 4);
    assert_eq!(floor_sqrt(46080 * 46080), 46080);
}

#[test]
fn img_bytes_decode_big_endian() {
    let bytes: Vec<u8> = vec![
        0x00, 0x01, 0xFF, 0xFF, 0x80, 0x00, 0x7F, 0xFF, 0x01, 0x00, 0x00, 0x00, 0xFE, 0x0C,
        0x12, 0x34,
    ];
    let m = HeightMap::from_img_bytes(&bytes).unwrap();
    assert_eq!(m.width(), 4);
    assert_eq!(m.height(), 2);
    assert_eq!(
        m.samples(),
        &vec![1, -1, -32768, 32767, 256, 0, -500, 0x1234]
    );
}

#[test]
fn img_bytes_reject_small_files() {
    assert_eq!(
        HeightMap::from_img_bytes(&[]).err(),
        Some(ConfigurationError::EmptyDimension)
    );
    assert_eq!(
        HeightMap::from_img_bytes(&[1, 2, 3]).err(),
        Some(ConfigurationError::EmptyDimension)
    );
}

#[test]
fn img_bytes_reject_non_square_sizes() {
    assert_eq!(
        HeightMap::from_img_bytes(&[0; 8]).err(),
        Some(ConfigurationError::SizeMismatch)
    );
    // 25 bytes: width 5, height 2, which would need 20 bytes
    assert_eq!(
        HeightMap::from_img_bytes(&[0; 25]).err(),
        Some(ConfigurationError::SizeMismatch)
    );
}
