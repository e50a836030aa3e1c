use img2poster::poster::{Page, PosterArray};
use img2poster::codec::{serialize_array, deserialize_array, serialize_single, deserialize_single,
    parse_u32, emit_u32};
use img2poster::annot::{format_print_id, fresh_print_id};
use img2poster::PosterError;

fn page(fill: u8, label: &str, tooltip: &str) -> Page {
    Page {
        pixels: vec![fill; 128 * 128],
        label: String::from(label),
        tooltip: String::from(tooltip),
    }
}

#[test]
fn number_encoding_round_trips() {
    let mut out: Vec<u8> = Vec::new();
    emit_u32(&mut out, 123);
    assert_eq!(out, b"123\n");
    emit_u32(&mut out, 0);
    assert_eq!(out, b"123\n0\n");
    assert_eq!(parse_u32(&out, 0), Some((123, 4)));
    assert_eq!(parse_u32(&out, 4), Some((0, 6)));
}

#[test]
fn number_parsing_rejects_noncanonical_input() {
    assert_eq!(parse_u32(b"0123\n", 0), None); // leading zero
    assert_eq!(parse_u32(b"\n", 0), None); // no digits
    assert_eq!(parse_u32(b"12", 0), None); // no newline
    assert_eq!(parse_u32(b"12x\n", 0), None); // wrong terminator
    assert_eq!(parse_u32(b"4294967295\n", 0), Some((u32::MAX, 11)));
    assert_eq!(parse_u32(b"4294967296\n", 0), None); // over u32
    assert_eq!(parse_u32(b"99999999999\n", 0), None); // too many digits
}

#[test]
fn array_round_trip_zero_pages() {
    let a = PosterArray { pages: vec![], width: 0, height: 0, title: String::from("empty") };
    let bytes = serialize_array(&a);
    assert_eq!(deserialize_array(&bytes).unwrap(), a);
}

#[test]
fn array_round_trip_one_page() {
    let a = PosterArray {
        pages: vec![page(3, "only", "tip")],
        width: 1,
        height: 1,
        title: String::from("one"),
    };
    let bytes = serialize_array(&a);
    assert_eq!(deserialize_array(&bytes).unwrap(), a);
}

#[test]
fn array_round_trip_many_pages_and_unicode_title() {
    let a = PosterArray {
        pages: vec![
            page(0, "a", "t0"),
            page(1, "b", "t1"),
            page(2, "c", "newlines\nand spaces ok"),
            page(255, "d", ""),
        ],
        width: 2,
        height: 2,
        title: String::from("p\u{f6}rtrait \u{2713}"),
    };
    let bytes = serialize_array(&a);
    let back = deserialize_array(&bytes).unwrap();
    assert_eq!(back, a);
    assert_eq!(back.title, "p\u{f6}rtrait \u{2713}");
}

#[test]
fn deserialize_rejects_malformed_input() {
    assert_eq!(deserialize_array(b"").unwrap_err(), PosterError::MalformedPersistedData);
    assert_eq!(deserialize_array(b"junk").unwrap_err(), PosterError::MalformedPersistedData);
    assert_eq!(
        deserialize_array(b"1\n1\n0\n\n1\n").unwrap_err(),
        PosterError::MalformedPersistedData
    );
    // A valid encoding with trailing garbage is refused.
    let a = PosterArray { pages: vec![], width: 0, height: 0, title: String::new() };
    let mut bytes = serialize_array(&a);
    bytes.push(b' ');
    assert_eq!(deserialize_array(&bytes).unwrap_err(), PosterError::MalformedPersistedData);
    // A truncated encoding is refused.
    let full = serialize_array(&PosterArray {
        pages: vec![page(1, "x", "y")],
        width: 1,
        height: 1,
        title: String::new(),
    });
    assert_eq!(
        deserialize_array(&full[..full.len() - 1]).unwrap_err(),
        PosterError::MalformedPersistedData
    );
}

#[test]
fn single_page_encoding_round_trips() {
    let a = PosterArray {
        pages: vec![page(7, "lone", "tool")],
        width: 1,
        height: 1,
        title: String::from("ignored by this format"),
    };
    let bytes = serialize_single(&a).unwrap();
    let back = deserialize_single(&bytes).unwrap();
    assert_eq!(back.width, 1);
    assert_eq!(back.height, 1);
    assert_eq!(back.title, "untitled");
    assert_eq!(back.pages.len(), 1);
    assert_eq!(back.pages[0], a.pages[0]);
}

#[test]
fn single_page_encoding_rejects_multi_page_arrays() {
    let a = PosterArray {
        pages: vec![page(0, "a", ""), page(1, "b", "")],
        width: 2,
        height: 1,
        title: String::new(),
    };
    assert_eq!(serialize_single(&a).unwrap_err(), PosterError::UnsupportedMultiPage);
    let empty = PosterArray { pages: vec![], width: 1, height: 1, title: String::new() };
    assert_eq!(serialize_single(&empty).unwrap_err(), PosterError::InvalidDimensions);
}

#[test]
fn single_page_decoding_rejects_malformed_input() {
    assert_eq!(deserialize_single(b"").unwrap_err(), PosterError::MalformedPersistedData);
    let a = PosterArray {
        pages: vec![page(7, "lone", "tool")],
        width: 1,
        height: 1,
        title: String::new(),
    };
    let mut bytes = serialize_single(&a).unwrap();
    bytes.push(b'!');
    assert_eq!(deserialize_single(&bytes).unwrap_err(), PosterError::MalformedPersistedData);
}

#[test]
fn print_ids_are_six_zero_padded_digits() {
    assert_eq!(format_print_id(7), "000007");
    assert_eq!(format_print_id(0), "000000");
    assert_eq!(format_print_id(999998), "999998");
    assert_eq!(format_print_id(123456), "123456");
    for _ in 0..20 {
        let id = fresh_print_id();
        assert_eq!(id.len(), 6);
        assert!(id.bytes().all(|b| b.is_ascii_digit()));
        assert!(id.parse::<u32>().unwrap() < 999999);
    }
}
