use protomaps2d::draw::{de_zig_zag_ratio, geometry_complete, path, zig_zag, PathCommand};

#[test]
fn zig_zag_small_values() {
    assert_eq!(zig_zag(0), 0);
    assert_eq!(zig_zag(1), -1);
    assert_eq!(zig_zag(2), 1);
    assert_eq!(zig_zag(3), -2);
    assert_eq!(zig_zag(50), 25);
    assert_eq!(zig_zag(0x7FFF_FFFE), 0x3FFF_FFFF);
    assert_eq!(zig_zag(0x7FFF_FFFF), -0x4000_0000);
}

#[test]
fn zig_zag_high_bit_uses_signed_shift() {
    // The parameter is reinterpreted as a signed integer before shifting.
    assert_eq!(zig_zag(0xFFFF_FFFF), 0);
    assert_eq!(zig_zag(0x8000_0000), -0x4000_0000);
    assert_eq!(zig_zag(0xFFFF_FFFE), -1);
}

#[test]
fn de_zig_zag_ratio_divides_by_extent_pixels() {
    assert_eq!(de_zig_zag_ratio(4096, 3), (-2, 2));
    assert_eq!(de_zig_zag_ratio(2048, 50), (25, 1));
    assert_eq!(de_zig_zag_ratio(1000, 4), (2, 0));
}

#[test]
fn path_point() {
    let p = path(&vec![9, 50, 34], 4096);
    assert_eq!(p.commands, vec![PathCommand::MoveTo(25, 17)]);
    assert_eq!(p.scale, 2);
}

#[test]
fn path_linestring() {
    let p = path(&vec![9, 4, 4, 18, 0, 16, 16, 0], 2048);
    assert_eq!(
        p.commands,
        vec![PathCommand::MoveTo(2, 2), PathCommand::LineTo(0, 8), PathCommand::LineTo(8, 0)]
    );
    assert_eq!(p.scale, 1);
}

#[test]
fn path_polygon() {
    let p = path(&vec![9, 6, 12, 18, 10, 12, 24, 44, 15], 4096);
    assert_eq!(
        p.commands,
        vec![
            PathCommand::MoveTo(3, 6),
            PathCommand::LineTo(5, 6),
            PathCommand::LineTo(12, 22),
            PathCommand::ClosePath,
        ]
    );
}

#[test]
fn path_other_ids_close_the_path() {
    // ids 0, 3 and 7 all close the path and take no parameters, whatever their count
    let p = path(&vec![0, 8 * 5 + 3, 7], 4096);
    assert_eq!(
        p.commands,
        vec![PathCommand::ClosePath, PathCommand::ClosePath, PathCommand::ClosePath]
    );
}

#[test]
fn path_empty() {
    let p = path(&vec![], 4096);
    assert!(p.commands.is_empty());
}

#[test]
fn geometry_complete_detects_truncation() {
    assert!(geometry_complete(&vec![9, 50, 34]));
    assert!(geometry_complete(&vec![]));
    assert!(!geometry_complete(&vec![9, 50]));
    assert!(!geometry_complete(&vec![17, 1, 2, 3]));
    assert!(geometry_complete(&vec![15, 15]));
}

#[test]
fn path_concatenation_concatenates_commands() {
    let a = vec![9, 50, 34];
    let b = vec![18, 0, 16, 16, 0, 15];
    let mut ab = a.clone();
    ab.extend(b.iter());
    let mut expected = path(&a, 4096).commands;
    expected.extend(path(&b, 4096).commands);
    assert_eq!(path(&ab, 4096).commands, expected);
}
