use scene_deploy::matrix::Matrix4;
use scene_deploy::names::make_synthetic_name;

#[test]
fn transposed_exchanges_rows_and_columns() {
    let m = Matrix4::new([0, 1, 2, 3, 4, 5, 6, 7, 8, 9, 10, 11, 12, 13, 14, 15]);
    let t = m.transposed();
    assert_eq!(t.cells, [0, 4, 8, 12, 1, 5, 9, 13, 2, 6, 10, 14, 3, 7, 11, 15]);
    assert_eq!(t.transposed(), m);
    assert_eq!(m.cell(1, 2), 6);
    assert_eq!(t.cell(2, 1), 6);
}

#[test]
fn transposed_moves_a_translation_to_the_last_group() {
    let row_major: [f32; 16] =
        [1.0, 0.0, 0.0, 5.0, 0.0, 1.0, 0.0, 6.0, 0.0, 0.0, 1.0, 7.0, 0.0, 0.0, 0.0, 1.0];
    let mut cells = [0u32; 16];
    for i in 0..16 {
        cells[i] = row_major[i].to_bits();
    }
    let t = Matrix4::new(cells).transposed();
    assert_eq!(f32::from_bits(t.cells[12]), 5.0);
    assert_eq!(f32::from_bits(t.cells[13]), 6.0);
    assert_eq!(f32::from_bits(t.cells[14]), 7.0);
    assert_eq!(f32::from_bits(t.cells[15]), 1.0);
    assert_eq!(f32::from_bits(t.cells[3]), 0.0);
}

#[test]
fn synthetic_names_join_name_and_position() {
    assert_eq!(make_synthetic_name(&"B".to_string(), 0), "B-mesh-0");
    assert_eq!(make_synthetic_name(&"knee-socks".to_string(), 7), "knee-socks-mesh-7");
    assert_eq!(make_synthetic_name(&"".to_string(), 1203), "-mesh-1203");
    assert_eq!(make_synthetic_name(&"x".to_string(), 10), "x-mesh-10");
}
