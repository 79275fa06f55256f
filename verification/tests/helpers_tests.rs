use lstrs::cube::Cube;
use lstrs::helpers::add_data_to_ndarray;
use lstrs::helpers::format_milliseconds;
use lstrs::helpers::get_adcnum;
use lstrs::helpers::u32_to_string;

fn cube_from(values: &[[[u32; 3]; 3]; 2]) -> Cube {
    let mut c = Cube::zeros(2, 3, 3);
    for y in 0..2 {
        for x in 0..3 {
            for z in 0..3 {
                c.set(y, x, z, values[y][x][z]);
            }
        }
    }
    c
}

fn assert_cube_eq(c: &Cube, values: &[[[u32; 3]; 3]; 2]) {
    assert_eq!(c.dims(), (2, 3, 3));
    for y in 0..2 {
        for x in 0..3 {
            for z in 0..3 {
                assert_eq!(c.get(y, x, z), values[y][x][z]);
            }
        }
    }
}

#[test]
fn test_get_adcnum() {
    let mut adcnum = get_adcnum(2147484424);
    assert_eq!(adcnum, [8, 256, 512]);

    adcnum = get_adcnum(2147487520);
    assert_eq!(adcnum, [32, 256, 512, 1024, 2048]);
}

#[test]
fn test_add_data_array() {
    let mut array_1 = cube_from(&[[[1, 2, 3], [6, 7, 8], [1, 2, 3]], [[1, 2, 3], [6, 7, 8], [1, 2, 3]]]);
    assert_eq!(array_1.dims(), (2, 3, 3));

    let array_2 = cube_from(&[[[1, 2, 3], [6, 7, 8], [1, 2, 3]], [[1, 2, 3], [6, 7, 8], [1, 2, 3]]]);
    assert_eq!(array_2.dims(), (2, 3, 3));

    add_data_to_ndarray(&mut array_1, &array_2);

    assert_eq!(array_1.dims(), (2, 3, 3));
    assert_cube_eq(
        &array_1,
        &[[[2, 4, 6], [12, 14, 16], [2, 4, 6]], [[2, 4, 6], [12, 14, 16], [2, 4, 6]]],
    );

    let array_3 = cube_from(&[[[1, 2, 3], [6, 7, 8], [1, 2, 3]], [[1, 2, 3], [6, 7, 8], [1, 2, 3]]]);
    assert_eq!(array_3.dims(), (2, 3, 3));

    add_data_to_ndarray(&mut array_1, &array_3);
    assert_eq!(array_1.dims(), (2, 3, 3));
    assert_cube_eq(
        &array_1,
        &[[[3, 6, 9], [18, 21, 24], [3, 6, 9]], [[3, 6, 9], [18, 21, 24], [3, 6, 9]]],
    );
}

#[test]
fn test_format_millisecond() {
    let mut formatted = format_milliseconds(9045000);
    assert_eq!(formatted, "02:30:45");

    formatted = format_milliseconds(1000);
    assert_eq!(formatted, "00:00:01");

    formatted = format_milliseconds(1693000);
    assert_eq!(formatted, "00:28:13");
}

#[test]
fn test_u32_to_string() {
    assert_eq!(u32_to_string(0), "0");
    assert_eq!(u32_to_string(7), "7");
    assert_eq!(u32_to_string(1204), "1204");
    assert_eq!(u32_to_string(4294967295), "4294967295");
}

#[test]
fn test_cube_set_get() {
    let mut c = Cube::zeros(2, 2, 2);
    assert_eq!(c.get(1, 0, 1), 0);
    c.set(1, 0, 1, 77);
    assert_eq!(c.get(1, 0, 1), 77);
    assert_eq!(c.get(0, 0, 1), 0);
    c.add_at(1, 0, 1, 3);
    assert_eq!(c.get(1, 0, 1), 80);
    assert!(c.has_counts());
    let zeroed = Cube::zeros(2, 2, 2);
    assert!(!zeroed.has_counts());
}

#[test]
fn test_cube_slice() {
    let mut c = Cube::zeros(1, 2, 4);
    c.set(0, 0, 2, 5);
    c.set(0, 1, 3, 9);
    let s = c.slice_z(2, 4);
    assert_eq!(s.dims(), (1, 2, 2));
    assert_eq!(s.get(0, 0, 0), 5);
    assert_eq!(s.get(0, 1, 1), 9);
    assert_eq!(s.get(0, 0, 1), 0);
}

#[test]
fn test_saturating_cell() {
    let mut c = Cube::zeros(1, 1, 1);
    c.set(0, 0, 0, u32::MAX - 1);
    c.add_at(0, 0, 0, 1);
    assert_eq!(c.get(0, 0, 0), u32::MAX);
    c.add_at(0, 0, 0, 1);
    assert_eq!(c.get(0, 0, 0), u32::MAX);
}
