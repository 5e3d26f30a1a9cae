use scpify::helpers::{hex_dump, hex_dump_pretty};

#[test]
fn a_dump_shows_the_bytes() {
    assert_eq!(hex_dump(&[0x00, 0x0A, 0xFF], 10), "00 0A FF");
    assert_eq!(hex_dump(&[], 10), "");
    assert_eq!(hex_dump(&[0x7F], 1), "7F");
}

#[test]
fn a_long_dump_is_cut() {
    assert_eq!(
        hex_dump(&[1, 2, 3, 4], 2),
        "01 02 ... (4 bytes total)"
    );
    assert_eq!(hex_dump(&[1, 2, 3], 0), " ... (3 bytes total)");
}

#[test]
fn a_table_has_rows_of_16_bytes() {
    let data: Vec<u8> = (0x30..0x42).collect();
    let hex1 = "30 31 32 33 34 35 36 37 38 39 3A 3B 3C 3D 3E 3F";
    let expected = format!(
        "{:<48}  0123456789:;<=>?\n{:<48}  @A",
        hex1, "40 41"
    );
    assert_eq!(hex_dump_pretty(&data, 100), expected);
    assert_eq!(hex_dump_pretty(&data, 2), format!("{:<48}  01", "30 31"));
    assert_eq!(hex_dump_pretty(&[], 100), "");
    assert_eq!(hex_dump_pretty(&data, 0), "");
}

#[test]
fn invisible_bytes_are_dots() {
    assert_eq!(
        hex_dump_pretty(&[0x20, 0x21, 0x7E, 0x7F, 0x00, 0xE9], 6),
        format!("{:<48}  .!~...", "20 21 7E 7F 00 E9")
    );
}

#[test]
fn the_character_column_is_aligned() {
    let data = [b'x'; 40];
    for row in hex_dump_pretty(&data, 40).split('\n') {
        assert_eq!(&row[48..50], "  ");
        assert!(row[50..].chars().all(|c| c == 'x'));
    }
}
