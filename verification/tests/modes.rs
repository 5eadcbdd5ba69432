use ct_resume_hash::bytes::{
    lower_byte, lower_byte_std, quoted_byte, quoted_byte_std, token_byte, token_byte_std, ws_byte,
    ws_byte_std,
};
use ct_resume_hash::hash_core::{find_delimiter, find_delimiter_ct, find_delimiter_std};
use ct_resume_hash::mode::CONSTANT_TIME;
use ct_resume_hash::order::{lex_le, lex_le_ct, lex_le_std, same_bytes, same_bytes_ct, same_bytes_std};
use ct_resume_hash::reference::{
    normalize_reference, normalize_reference_ct, normalize_reference_std,
};
use ct_resume_hash::trim::{trim_bounds, trim_bounds_ct, trim_bounds_std};

/// Every string over `alphabet` of at most `max` bytes.
fn strings(alphabet: &[u8], max: usize) -> Vec<Vec<u8>> {
    let mut all: Vec<Vec<u8>> = vec![Vec::new()];
    let mut from = 0;
    for _ in 0..max {
        let upto = all.len();
        for k in from..upto {
            for &b in alphabet {
                let mut s = all[k].clone();
                s.push(b);
                all.push(s);
            }
        }
        from = upto;
    }
    all
}

/// The rules of the reference normalizer, written out step by step.
fn reference_by_the_rules(raw: &[u8]) -> Option<Vec<u8>> {
    let is_ws = |b: u8| b == b' ' || b == b'\t';
    let is_sep = |b: u8| b == b'/' || b == b'\\';
    let mut t: &[u8] = raw;
    while !t.is_empty() && is_ws(t[0]) {
        t = &t[1..];
    }
    while !t.is_empty() && is_ws(t[t.len() - 1]) {
        t = &t[..t.len() - 1];
    }
    for (i, &b) in t.iter().enumerate() {
        if b <= 0x20 || b == 0x7f {
            return None;
        }
        if b == b'%' {
            if i + 2 >= t.len() || !t[i + 1].is_ascii_hexdigit() || !t[i + 2].is_ascii_hexdigit() {
                return None;
            }
        }
    }
    let mut out: Vec<u8> = Vec::new();
    for (i, &b) in t.iter().enumerate() {
        let in_escape = (i >= 1 && t[i - 1] == b'%') || (i >= 2 && t[i - 2] == b'%');
        if is_sep(b) {
            if !(i >= 1 && is_sep(t[i - 1])) {
                out.push(b'/');
            }
        } else if in_escape {
            out.push(b.to_ascii_uppercase());
        } else {
            out.push(b);
        }
    }
    if out.len() > 1 && out[out.len() - 1] == b'/' {
        out.pop();
    }
    Some(out)
}

#[test]
fn constant_time_mode_is_the_one_built() {
    assert!(CONSTANT_TIME);
}

#[test]
fn both_modes_classify_bytes_alike() {
    for b in 0..=255u8 {
        assert_eq!(ws_byte(b), ws_byte_std(b));
        assert_eq!(token_byte(b), token_byte_std(b));
        assert_eq!(quoted_byte(b), quoted_byte_std(b));
        assert_eq!(lower_byte(b), lower_byte_std(b));
        assert_eq!(lower_byte_std(b), b.to_ascii_lowercase());
    }
}

#[test]
fn both_modes_trim_alike() {
    for s in strings(b" \ta", 7) {
        let expected = trim_bounds_std(&s);
        assert_eq!(trim_bounds_ct(&s), expected);
        assert_eq!(trim_bounds(&s), expected);
    }
    assert_eq!(trim_bounds_std(b"  ab \t"), (2, 4));
    assert_eq!(trim_bounds_std(b" \t "), (3, 3));
}

#[test]
fn both_modes_normalize_references_alike() {
    for s in strings(b"a/\\%2f \x01", 5) {
        let expected = normalize_reference_std(&s);
        assert_eq!(normalize_reference_ct(&s), expected);
        assert_eq!(normalize_reference(&s), expected);
    }
}

#[test]
fn references_are_normalized_by_the_rules() {
    for s in strings(b"aF/\\%2f \t\x7f", 5) {
        let expected = reference_by_the_rules(&s);
        assert_eq!(normalize_reference_ct(&s).ok(), expected);
        assert_eq!(normalize_reference_std(&s).ok(), expected);
    }
}

#[test]
fn both_modes_find_the_delimiter_alike() {
    for s in strings(b"a\n", 8) {
        let expected = find_delimiter_std(&s);
        assert_eq!(find_delimiter_ct(&s), expected);
        assert_eq!(find_delimiter(&s), expected);
        let count = s.iter().filter(|&&b| b == b'\n').count();
        assert_eq!(expected.is_some(), count == 1);
        if let Some(k) = expected {
            assert_eq!(s[k], b'\n');
        }
    }
}

#[test]
fn both_modes_order_bytes_alike() {
    let all = strings(b"aB\xff", 4);
    for x in &all {
        for y in &all {
            let le = x <= y;
            assert_eq!(lex_le_std(x, y), le);
            assert_eq!(lex_le_ct(x, y), le);
            assert_eq!(lex_le(x, y), le);
            let same = x == y;
            assert_eq!(same_bytes_std(x, y), same);
            assert_eq!(same_bytes_ct(x, y), same);
            assert_eq!(same_bytes(x, y), same);
        }
    }
}
