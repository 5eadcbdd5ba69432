use ct_resume_hash::error::HashError;
use ct_resume_hash::hash_core::{
    assemble_parts, find_delimiter, fingerprint, fingerprint_descriptor, split_input, DELIMITER,
    MAX_INPUT_LEN,
};
use ct_resume_hash::{
    ct_resume_hash_once, hash_once, CT_RESUME_HASH_LEN, STATUS_FAILED, STATUS_OK,
};

fn hex_of(bytes: &[u8]) -> String {
    let mut s = String::new();
    for b in bytes {
        s.push_str(&format!("{:02x}", b));
    }
    s
}

fn framed(reference: &[u8], content_type: &[u8]) -> Vec<u8> {
    let mut v = reference.to_vec();
    v.push(b'\n');
    v.extend_from_slice(content_type);
    v
}

#[test]
fn example_descriptors_share_a_fingerprint() {
    let a = fingerprint_descriptor(b"/a//b/", b"TEXT/Plain; charset=UTF-8").unwrap();
    let b = fingerprint_descriptor(b"/a/b", b"text/plain;charset=UTF-8").unwrap();
    assert_eq!(a, b);
    assert_eq!(
        hex_of(&a),
        "aff69361f4db3cbfb840ece10566da804cb161ab5d94eaf8c19d4851bc84c23c"
    );
}

#[test]
fn fingerprint_is_the_digest_of_the_assembled_forms() {
    assert_eq!(
        hex_of(&fingerprint(b"ab\nc/d").unwrap()),
        "0fe14d427ef02e910f188376c4eb41822ae38753773b105322a11f58881fd10c"
    );
    assert_eq!(
        hex_of(&fingerprint(b"\na/b").unwrap()),
        "b5c2f64a13aa8a0145f0d1bc610bd0cc2ebe03d82d441420eb8605dec9ccb4a0"
    );
    assert_eq!(
        hex_of(&fingerprint(b"x\na/b; t=\"a b\"").unwrap()),
        "e0bd7ba5e657d07819428ba395a5e9658d8c00b3454a4aa2114bcffae1f7f6db"
    );
}

#[test]
fn fingerprint_has_thirty_two_bytes() {
    assert_eq!(CT_RESUME_HASH_LEN, 32);
    assert_eq!(fingerprint(b"a\nb/c").unwrap().len(), CT_RESUME_HASH_LEN);
}

#[test]
fn computing_twice_gives_the_same() {
    let input = framed(b" /x//y ", b"Text/HTML; q=\"1\"");
    assert_eq!(fingerprint(&input), fingerprint(&input));
    let bad = framed(b"a b", b"text/html");
    assert_eq!(fingerprint(&bad), fingerprint(&bad));
}

#[test]
fn superficial_variations_share_a_fingerprint() {
    let base = fingerprint_descriptor(b"/media/a%2Fb", b"image/png;a=1;b=2").unwrap();
    let variants: [(&[u8], &[u8]); 8] = [
        (b"/media//a%2Fb", b"image/png;a=1;b=2"),
        (b"\\media\\a%2Fb", b"image/png;a=1;b=2"),
        (b"/media/a%2fb", b"image/png;a=1;b=2"),
        (b"/media/a%2Fb/", b"image/png;a=1;b=2"),
        (b"  /media/a%2Fb\t", b" image/png;a=1;b=2 "),
        (b"/media/a%2Fb", b"IMAGE/Png;a=1;b=2"),
        (b"/media/a%2Fb", b"image/png;b=2;a=1"),
        (b"/media/a%2Fb", b"image/png ; a=\"1\" ;\tb=2"),
    ];
    for (reference, content_type) in variants {
        assert_eq!(fingerprint_descriptor(reference, content_type).unwrap(), base);
    }
}

#[test]
fn one_byte_of_difference_changes_the_fingerprint() {
    let a = fingerprint_descriptor(b"/a/b", b"text/plain").unwrap();
    let b = fingerprint_descriptor(b"/a/c", b"text/plain").unwrap();
    assert_ne!(a, b);
    assert_eq!(
        hex_of(&a),
        "8a39597279c9694b2da20eac30da6b0052e5b663833300898aaad62bd0b3f361"
    );
    assert_eq!(
        hex_of(&b),
        "39ec9262c548ca5c4b08f4c5ef7c575486e8a09f677d935910cebe0113ce56c2"
    );
}

#[test]
fn case_outside_case_insensitive_places_matters() {
    let a = fingerprint_descriptor(b"/a/b", b"text/plain;k=v").unwrap();
    assert_ne!(a, fingerprint_descriptor(b"/A/b", b"text/plain;k=v").unwrap());
    assert_ne!(a, fingerprint_descriptor(b"/a/b", b"text/plain;K=v").unwrap());
    assert_ne!(a, fingerprint_descriptor(b"/a/b", b"text/plain;k=V").unwrap());
}

#[test]
fn assembly_keeps_shifted_components_apart() {
    let first = assemble_parts(b"ab", b"c");
    let second = assemble_parts(b"a", b"bc");
    assert_ne!(first, second);
    assert_eq!(hex_of(&first), "00000000000000026162000000000000000163");
    assert_eq!(hex_of(&second), "00000000000000016100000000000000026263");
    assert_eq!(assemble_parts(b"", b""), vec![0u8; 16]);
}

#[test]
fn shifted_components_have_different_fingerprints() {
    let first = fingerprint_descriptor(b"ab/c", b"d/e").unwrap();
    let second = fingerprint_descriptor(b"ab", b"c/d").unwrap();
    assert_ne!(first, second);
}

#[test]
fn delimiter_is_found_only_when_alone() {
    assert_eq!(DELIMITER, b'\n');
    assert_eq!(find_delimiter(b"ab\ncd"), Some(2));
    assert_eq!(find_delimiter(b"\n"), Some(0));
    assert_eq!(find_delimiter(b"abc\n"), Some(3));
    assert_eq!(find_delimiter(b""), None);
    assert_eq!(find_delimiter(b"abcd"), None);
    assert_eq!(find_delimiter(b"a\nb\nc"), None);
    assert_eq!(find_delimiter(b"\n\n"), None);
    assert_eq!(find_delimiter(b"a\n\n\n"), None);
}

#[test]
fn input_without_one_delimiter_is_malformed() {
    assert_eq!(fingerprint(b""), Err(HashError::MalformedInput));
    assert_eq!(fingerprint(b"/a/b text/plain"), Err(HashError::MalformedInput));
    assert_eq!(fingerprint(b"/a/b\ntext/plain\n"), Err(HashError::MalformedInput));
    assert_eq!(fingerprint(b"/a\n/b\ntext/plain"), Err(HashError::MalformedInput));
    assert_eq!(
        fingerprint_descriptor(b"/a\nb", b"text/plain"),
        Err(HashError::MalformedInput)
    );
}

#[test]
fn input_over_the_length_limit_is_malformed() {
    assert_eq!(MAX_INPUT_LEN, 65535);
    let content_type = b"text/plain";
    let longest = vec![b'a'; MAX_INPUT_LEN - 1 - content_type.len()];
    assert!(fingerprint(&framed(&longest, content_type)).is_ok());
    let too_long = vec![b'a'; MAX_INPUT_LEN - content_type.len()];
    assert_eq!(
        fingerprint(&framed(&too_long, content_type)),
        Err(HashError::MalformedInput)
    );
}

#[test]
fn whitespace_that_passes_the_length_limit_makes_the_input_malformed() {
    let content_type = b"text/plain";
    let reference = vec![b'a'; MAX_INPUT_LEN - 1 - content_type.len()];
    assert!(fingerprint_descriptor(&reference, content_type).is_ok());
    let mut padded = reference.clone();
    padded.push(b' ');
    assert_eq!(
        fingerprint_descriptor(&padded, content_type),
        Err(HashError::MalformedInput)
    );
}

#[test]
fn invalid_reference_is_reported() {
    assert_eq!(fingerprint(b"a b\ntext/plain"), Err(HashError::InvalidReference));
    assert_eq!(fingerprint(b"%zz\ntext/plain"), Err(HashError::InvalidReference));
}

#[test]
fn invalid_content_type_is_reported() {
    assert_eq!(fingerprint(b"/a/b\ntext"), Err(HashError::InvalidContentType));
    assert_eq!(fingerprint(b"/a/b\n"), Err(HashError::InvalidContentType));
    assert_eq!(fingerprint(b"/a/b\ntext/plain;x"), Err(HashError::InvalidContentType));
}

#[test]
fn reference_is_reported_where_both_components_are_invalid() {
    assert_eq!(fingerprint(b"a b\ntext"), Err(HashError::InvalidReference));
}

#[test]
fn status_is_zero_and_output_filled_on_success() {
    let mut out = [0u8; 32];
    let status = ct_resume_hash_once(b"/a//b/\nTEXT/Plain; charset=UTF-8", &mut out);
    assert_eq!(status, 0);
    assert_eq!(status, STATUS_OK);
    assert_eq!(
        hex_of(&out),
        "aff69361f4db3cbfb840ece10566da804cb161ab5d94eaf8c19d4851bc84c23c"
    );
}

#[test]
fn failure_is_one_status_and_leaves_the_output_alone() {
    let inputs: [&[u8]; 4] = [
        b"/a/b\ntext",
        b"a b\ntext/plain",
        b"no delimiter",
        b"/a/b\ntext/plain;charset",
    ];
    for input in inputs {
        let mut out = [0xaau8; 32];
        let status = ct_resume_hash_once(input, &mut out);
        assert_ne!(status, 0);
        assert_eq!(status, STATUS_FAILED);
        assert_eq!(out, [0xaau8; 32]);
    }
}

#[test]
fn text_entry_gives_the_fingerprint() {
    let digest = hash_once("/a//b/\nTEXT/Plain; charset=UTF-8").unwrap();
    assert_eq!(
        hex_of(&digest),
        "aff69361f4db3cbfb840ece10566da804cb161ab5d94eaf8c19d4851bc84c23c"
    );
    assert_eq!(
        hash_once("/caf\u{e9}\ntext/plain").unwrap(),
        fingerprint(b"/caf\xc3\xa9\ntext/plain").unwrap()
    );
}

#[test]
fn text_entry_reports_failure_with_its_message() {
    assert_eq!(hash_once("/a/b\ntext"), Err("ct_resume_hash_once failed"));
    assert_eq!(hash_once(""), Err("ct_resume_hash_once failed"));
    assert_eq!(hash_once("a b\nx/y"), Err("ct_resume_hash_once failed"));
}

#[test]
fn frame_is_split_at_its_delimiter() {
    assert_eq!(split_input(b"/a/b\ntext/plain"), Ok((&b"/a/b"[..], &b"text/plain"[..])));
    assert_eq!(split_input(b"\n"), Ok((&b""[..], &b""[..])));
    assert_eq!(split_input(b" x \n y "), Ok((&b" x "[..], &b" y "[..])));
    assert_eq!(split_input(b"abc"), Err(HashError::MalformedInput));
    assert_eq!(split_input(b"a\nb\nc"), Err(HashError::MalformedInput));
    let mut long = vec![b'a'; MAX_INPUT_LEN];
    long.push(b'\n');
    assert_eq!(split_input(&long), Err(HashError::MalformedInput));
    long.remove(0);
    assert!(split_input(&long).is_ok());
}
