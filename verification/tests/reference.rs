use ct_resume_hash::error::HashError;
use ct_resume_hash::reference::normalize_reference;

fn canon(raw: &[u8]) -> Vec<u8> {
    normalize_reference(raw).expect("a valid reference")
}

#[test]
fn repeated_and_closing_separators_are_dropped() {
    assert_eq!(canon(b"/a//b/"), b"/a/b".to_vec());
    assert_eq!(canon(b"/a/b"), b"/a/b".to_vec());
    assert_eq!(canon(b"a///b////c"), b"a/b/c".to_vec());
    assert_eq!(canon(b"a/b//"), b"a/b".to_vec());
}

#[test]
fn separator_alone_is_kept() {
    assert_eq!(canon(b"/"), b"/".to_vec());
    assert_eq!(canon(b"//"), b"/".to_vec());
    assert_eq!(canon(b"\\"), b"/".to_vec());
    assert_eq!(canon(b" /// "), b"/".to_vec());
}

#[test]
fn empty_reference_is_canonical() {
    assert_eq!(canon(b""), Vec::<u8>::new());
    assert_eq!(canon(b" \t "), Vec::<u8>::new());
}

#[test]
fn backslash_is_a_separator() {
    assert_eq!(canon(b"\\a\\b"), b"/a/b".to_vec());
    assert_eq!(canon(b"a\\/\\b\\"), b"a/b".to_vec());
}

#[test]
fn surrounding_spaces_and_tabs_are_dropped() {
    assert_eq!(canon(b"  a/b \t"), b"a/b".to_vec());
    assert_eq!(canon(b"\t/x"), b"/x".to_vec());
}

#[test]
fn escape_digits_are_upper_cased_and_nothing_else() {
    assert_eq!(canon(b"a%2fb"), b"a%2Fb".to_vec());
    assert_eq!(canon(b"%e2%9c%93"), b"%E2%9C%93".to_vec());
    assert_eq!(canon(b"%2F"), b"%2F".to_vec());
    // letters outside an escape keep their case, also a-f
    assert_eq!(canon(b"Abc/deF"), b"Abc/deF".to_vec());
    assert_eq!(canon(b"%41bcd"), b"%41bcd".to_vec());
}

#[test]
fn bytes_above_ascii_pass_through() {
    assert_eq!(canon(b"caf\xc3\xa9/\xff"), b"caf\xc3\xa9/\xff".to_vec());
}

#[test]
fn incomplete_escape_is_rejected() {
    assert_eq!(normalize_reference(b"%"), Err(HashError::InvalidReference));
    assert_eq!(normalize_reference(b"a%2"), Err(HashError::InvalidReference));
    assert_eq!(normalize_reference(b"a%2/"), Err(HashError::InvalidReference));
    assert_eq!(normalize_reference(b"a%/2f"), Err(HashError::InvalidReference));
}

#[test]
fn escape_with_other_than_hex_digits_is_rejected() {
    assert_eq!(normalize_reference(b"a%zz"), Err(HashError::InvalidReference));
    assert_eq!(normalize_reference(b"a%2g"), Err(HashError::InvalidReference));
    assert_eq!(normalize_reference(b"%%41"), Err(HashError::InvalidReference));
}

#[test]
fn inner_whitespace_and_control_bytes_are_rejected() {
    assert_eq!(normalize_reference(b"a b"), Err(HashError::InvalidReference));
    assert_eq!(normalize_reference(b"a\tb"), Err(HashError::InvalidReference));
    assert_eq!(normalize_reference(b"a\x01"), Err(HashError::InvalidReference));
    assert_eq!(normalize_reference(b"\x00"), Err(HashError::InvalidReference));
    assert_eq!(normalize_reference(b"a\x7fb"), Err(HashError::InvalidReference));
    assert_eq!(normalize_reference(b"a\nb"), Err(HashError::InvalidReference));
    assert_eq!(normalize_reference(b"a /"), Err(HashError::InvalidReference));
}

#[test]
fn invalid_byte_is_found_wherever_it_stands() {
    for at in 0..8 {
        let mut raw = b"abcdefgh".to_vec();
        raw[at] = 0x1f;
        assert_eq!(normalize_reference(&raw), Err(HashError::InvalidReference));
    }
}

#[test]
fn normalizing_a_reference_twice_changes_nothing() {
    let samples: [&[u8]; 8] = [
        b"/a//b/",
        b"  \\\\x\\y%aa//",
        b"",
        b"/",
        b"a",
        b"%ff%0a",
        b"A/B/c%2f",
        b"\t//\\//\t",
    ];
    for raw in samples {
        let once = canon(raw);
        assert_eq!(canon(&once), once);
    }
}

#[test]
fn input_is_left_as_it_was() {
    let raw = b" /A//b%2f/ ".to_vec();
    let before = raw.clone();
    let _ = normalize_reference(&raw);
    assert_eq!(raw, before);
}
