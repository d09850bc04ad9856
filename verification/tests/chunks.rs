use polyline::chunks::Chunks;
use polyline::{decode_element, encode_element};

#[test]
fn parse_and_string_render_groups() {
    // 174 = 0b101_01110 splits into groups 14 and 5; marking sets the
    // continuation flag on the first and offsets both by 63.
    let mut c = Chunks::new();
    c.parse(174);
    assert_eq!(c.string(), "mD");
}

#[test]
fn parse_zero_still_yields_one_group() {
    let mut c = Chunks::new();
    c.parse(0);
    assert_eq!(c.string(), "?");
}

#[test]
fn parse_line_and_coordinate_value_reassemble() {
    // "mD" holds groups 14 and 5, so the raw value is 174; its low bit
    // is clear, so undoing the zig-zag halves it.
    let mut c = Chunks::new();
    c.parse_line("mD");
    assert_eq!(c.coordinate_value(), 87);
}

#[test]
fn coordinate_value_undoes_zigzag_complement() {
    // An odd raw value came from a complemented (negative) difference.
    let mut c = Chunks::new();
    c.parse_line("@");
    assert_eq!(c.coordinate_value(), -1);
}

#[test]
fn encode_element_zero_is_query_char() {
    assert_eq!(encode_element(0, false), "?");
}

#[test]
fn encode_element_round_trips() {
    for &(value, negative) in &[
        (0_i32, false),
        (0, true),
        (1, false),
        (-1, true),
        (3850000, false),
        (-12020000, true),
        (17998321, false),
        (-17998321, true),
    ] {
        let s = encode_element(value, negative);
        assert_eq!(decode_element(&s), value);
    }
}

#[test]
fn encode_element_known_vector() {
    // -179.9832104 at precision 5 scales to -17998321.
    assert_eq!(encode_element(-17998321, true), "`~oia@");
}

#[test]
fn string_of_no_chunks_is_empty() {
    let mut c = Chunks::new();
    assert_eq!(c.string(), "");
}
