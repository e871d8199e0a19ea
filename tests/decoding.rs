use utf8::{decode, DecodeResult, IncompleteChar};

fn incomplete(input: &[u8]) -> (&str, IncompleteChar) {
    match decode(input) {
        DecodeResult::Incomplete(valid, ch) => (valid, ch),
        other => panic!("expected an incomplete character, got {:?}", other),
    }
}

#[test]
fn ascii_is_valid() {
    match decode(b"hi") {
        DecodeResult::Valid(s) => assert_eq!(s, "hi"),
        other => panic!("{:?}", other),
    }
}

#[test]
fn empty_input_is_valid() {
    match decode(b"") {
        DecodeResult::Valid(s) => assert_eq!(s, ""),
        other => panic!("{:?}", other),
    }
}

#[test]
fn multibyte_text_is_valid() {
    let text = "caf\u{e9} \u{20ac} \u{1f600}";
    match decode(text.as_bytes()) {
        DecodeResult::Valid(s) => assert_eq!(s, text),
        other => panic!("{:?}", other),
    }
}

#[test]
fn two_byte_character_split_across_chunks() {
    let bytes = "caf\u{e9}".as_bytes();
    assert_eq!(bytes.len(), 5);
    let (valid, mut ch) = incomplete(&bytes[..4]);
    assert_eq!(valid, "caf");
    assert_eq!(ch.pending_bytes(), &[0xc3]);
    match ch.try_complete(&bytes[4..]) {
        Some((Ok(s), rest)) => {
            assert_eq!(s, "\u{e9}");
            assert!(rest.is_empty());
        }
        other => panic!("{:?}", other),
    }
}

#[test]
fn lone_continuation_byte_is_invalid() {
    match decode(b"ab\x80") {
        DecodeResult::Error(valid, bad, rest) => {
            assert_eq!(valid, "ab");
            assert_eq!(bad.0, &[0x80]);
            assert!(rest.is_empty());
        }
        other => panic!("{:?}", other),
    }
}

#[test]
fn three_byte_lead_then_bad_continuation() {
    match decode(&[0xe2, 0x41, 0x42]) {
        DecodeResult::Error(valid, bad, rest) => {
            assert_eq!(valid, "");
            assert_eq!(bad.0, &[0xe2]);
            assert_eq!(rest, b"AB");
        }
        other => panic!("{:?}", other),
    }
}

#[test]
fn maximal_subpart_of_two_bytes() {
    match decode(&[0x78, 0xe2, 0x82, 0x41]) {
        DecodeResult::Error(valid, bad, rest) => {
            assert_eq!(valid, "x");
            assert_eq!(bad.0, &[0xe2, 0x82]);
            assert_eq!(rest, b"A");
        }
        other => panic!("{:?}", other),
    }
}

#[test]
fn maximal_subpart_of_three_bytes() {
    match decode(&[0xf0, 0x9f, 0x98, 0x41, 0x42]) {
        DecodeResult::Error(valid, bad, rest) => {
            assert_eq!(valid, "");
            assert_eq!(bad.0, &[0xf0, 0x9f, 0x98]);
            assert_eq!(rest, b"AB");
        }
        other => panic!("{:?}", other),
    }
}

#[test]
fn never_a_lead_byte_is_invalid_not_incomplete() {
    for b in [0xc0u8, 0xc1, 0xf5, 0xff] {
        match decode(&[0x61, b]) {
            DecodeResult::Error(valid, bad, rest) => {
                assert_eq!(valid, "a");
                assert_eq!(bad.0, &[b]);
                assert!(rest.is_empty());
            }
            other => panic!("{:02x}: {:?}", b, other),
        }
    }
}

#[test]
fn surrogate_and_out_of_range_second_bytes_are_invalid() {
    for (lead, second) in [(0xedu8, 0xa0u8), (0xe0, 0x9f), (0xf0, 0x8f), (0xf4, 0x90)] {
        match decode(&[lead, second]) {
            DecodeResult::Error(valid, bad, rest) => {
                assert_eq!(valid, "");
                assert_eq!(bad.0, &[lead]);
                assert_eq!(rest, &[second]);
            }
            other => panic!("{:02x} {:02x}: {:?}", lead, second, other),
        }
    }
}

#[test]
fn four_byte_character_over_three_chunks() {
    let bytes = "\u{1f600}".as_bytes();
    let (valid, mut ch) = incomplete(&bytes[..1]);
    assert_eq!(valid, "");
    assert!(ch.try_complete(&bytes[1..2]).is_none());
    assert_eq!(ch.pending_bytes(), &bytes[..2]);
    match ch.try_complete(&bytes[2..]) {
        Some((Ok(s), rest)) => {
            assert_eq!(s, "\u{1f600}");
            assert!(rest.is_empty());
        }
        other => panic!("{:?}", other),
    }
}

#[test]
fn four_byte_character_one_byte_at_a_time() {
    let bytes = "\u{1f600}z".as_bytes();
    let (valid, mut ch) = incomplete(&bytes[..1]);
    assert_eq!(valid, "");
    assert!(ch.try_complete(&bytes[1..2]).is_none());
    assert!(ch.try_complete(&bytes[2..3]).is_none());
    assert_eq!(ch.pending_bytes(), &bytes[..3]);
    match ch.try_complete(&bytes[3..]) {
        Some((Ok(s), rest)) => {
            assert_eq!(s, "\u{1f600}");
            assert_eq!(rest, b"z");
        }
        other => panic!("{:?}", other),
    }
}

#[test]
fn empty_input_leaves_character_pending() {
    let (_, mut ch) = incomplete(&[0xe2, 0x82]);
    assert!(ch.try_complete(&[]).is_none());
    assert_eq!(ch.pending_bytes(), &[0xe2, 0x82]);
}

#[test]
fn dangling_bytes_at_end_of_stream() {
    let (valid, ch) = incomplete(&[0x61, 0xe2, 0x82]);
    assert_eq!(valid, "a");
    assert_eq!(ch.pending_bytes(), &[0xe2, 0x82]);
}

#[test]
fn completion_takes_only_what_it_needs() {
    let (valid, mut ch) = incomplete(&[0x61, 0xc3]);
    assert_eq!(valid, "a");
    match ch.try_complete(&[0xa9, 0xff, 0x62]) {
        Some((Ok(s), rest)) => {
            assert_eq!(s, "\u{e9}");
            assert_eq!(rest, &[0xff, 0x62]);
        }
        other => panic!("{:?}", other),
    }
}

#[test]
fn completion_with_text_after_the_character() {
    let (_, mut ch) = incomplete(&[0xe2, 0x82]);
    match ch.try_complete(&[0xac, 0x61, 0x62, 0x63]) {
        Some((Ok(s), rest)) => {
            assert_eq!(s, "\u{20ac}a");
            assert_eq!(rest, b"bc");
        }
        other => panic!("{:?}", other),
    }
}

#[test]
fn completion_that_fails_inside_the_input() {
    let (_, mut ch) = incomplete(&[0xe2]);
    match ch.try_complete(&[0x82, 0x41]) {
        Some((Err(bad), rest)) => {
            assert_eq!(bad, &[0xe2, 0x82]);
            assert_eq!(rest, b"A");
        }
        other => panic!("{:?}", other),
    }
}

#[test]
fn completion_that_fails_on_the_first_new_byte() {
    let (_, mut ch) = incomplete(&[0xe2]);
    match ch.try_complete(&[0x41, 0x42]) {
        Some((Err(bad), rest)) => {
            assert_eq!(bad, &[0xe2]);
            assert_eq!(rest, b"AB");
        }
        other => panic!("{:?}", other),
    }
}
