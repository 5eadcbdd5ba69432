use ct_resume_hash::bytes::{
    hex_bit, qchar_bit, ref_byte_bit, sep_bit, tchar_bit, to_hex_upper, to_lower, ws_bit,
};
use ct_resume_hash::ct::{
    and_bit, eq_bit, ge_bit, in_range_bit, nonzero_bit, not_bit, or_bit, select,
};
use ct_resume_hash::order::{insert_sorted, lex_le, no_later, same_bytes, Param};
use ct_resume_hash::trim::trim_bounds;

fn bit_of(c: bool) -> u8 {
    if c {
        1
    } else {
        0
    }
}

#[test]
fn comparison_bits_agree_with_comparisons() {
    for a in 0..=255u8 {
        assert_eq!(nonzero_bit(a), bit_of(a != 0));
        for b in 0..=255u8 {
            assert_eq!(eq_bit(a, b), bit_of(a == b));
            assert_eq!(ge_bit(a, b), bit_of(a >= b));
        }
    }
}

#[test]
fn range_bit_agrees_with_range_test() {
    for x in 0..=255u8 {
        assert_eq!(in_range_bit(x, 0x30, 0x39), bit_of((0x30..=0x39).contains(&x)));
        assert_eq!(in_range_bit(x, 0, 255), 1);
        assert_eq!(in_range_bit(x, 9, 8), 0);
        assert_eq!(in_range_bit(x, x, x), 1);
    }
}

#[test]
fn logic_on_bits() {
    assert_eq!(and_bit(0, 0), 0);
    assert_eq!(and_bit(0, 1), 0);
    assert_eq!(and_bit(1, 0), 0);
    assert_eq!(and_bit(1, 1), 1);
    assert_eq!(or_bit(0, 0), 0);
    assert_eq!(or_bit(0, 1), 1);
    assert_eq!(or_bit(1, 0), 1);
    assert_eq!(or_bit(1, 1), 1);
    assert_eq!(not_bit(0), 1);
    assert_eq!(not_bit(1), 0);
}

#[test]
fn select_picks_by_the_bit() {
    for a in [0u8, 1, 0x55, 0xaa, 0xff] {
        for b in [0u8, 1, 0x33, 0xcc, 0xff] {
            assert_eq!(select(1, a, b), a);
            assert_eq!(select(0, a, b), b);
        }
    }
}

#[test]
fn byte_classes() {
    for b in 0..=255u8 {
        assert_eq!(ws_bit(b), bit_of(b == b' ' || b == b'\t'));
        assert_eq!(sep_bit(b), bit_of(b == b'/' || b == b'\\'));
        assert_eq!(hex_bit(b), bit_of(b.is_ascii_hexdigit()));
        assert_eq!(ref_byte_bit(b), bit_of(b > 0x20 && b != 0x7f));
        assert_eq!(qchar_bit(b), bit_of(b == b'\t' || (b >= 0x20 && b != 0x7f)));
        let token = b.is_ascii_alphanumeric() || b"!#$%&'*+-.^_`|~".contains(&b);
        assert_eq!(tchar_bit(b), bit_of(token));
    }
}

#[test]
fn case_folding_of_bytes() {
    for b in 0..=255u8 {
        assert_eq!(to_lower(b), b.to_ascii_lowercase());
        let upper = if (b'a'..=b'f').contains(&b) { b - 32 } else { b };
        assert_eq!(to_hex_upper(b), upper);
    }
}

#[test]
fn trimming_finds_what_is_kept() {
    assert_eq!(trim_bounds(b"  ab \t"), (2, 4));
    assert_eq!(trim_bounds(b"ab"), (0, 2));
    assert_eq!(trim_bounds(b"a b"), (0, 3));
    assert_eq!(trim_bounds(b""), (0, 0));
    let (a, b) = trim_bounds(b" \t ");
    assert_eq!(a, b);
    // only spaces and tabs are trimmed
    assert_eq!(trim_bounds(b"\r\nab\n"), (0, 5));
}

#[test]
fn lexicographic_order_of_bytes() {
    assert!(lex_le(b"", b""));
    assert!(lex_le(b"", b"a"));
    assert!(!lex_le(b"a", b""));
    assert!(lex_le(b"a", b"a"));
    assert!(lex_le(b"a", b"ab"));
    assert!(!lex_le(b"ab", b"a"));
    assert!(lex_le(b"ab", b"b"));
    assert!(!lex_le(b"b", b"ab"));
    assert!(lex_le(b"B", b"a"));
    assert!(lex_le(b"a", b"\xff"));
    assert!(same_bytes(b"abc", b"abc"));
    assert!(!same_bytes(b"abc", b"abd"));
    assert!(!same_bytes(b"abc", b"ab"));
    assert!(same_bytes(b"", b""));
}

fn param(name: &[u8], value: &[u8]) -> Param {
    Param { name: name.to_vec(), value: value.to_vec() }
}

#[test]
fn parameters_are_ordered_by_name_first() {
    assert!(no_later(&param(b"a", b"z"), &param(b"b", b"a")));
    assert!(!no_later(&param(b"b", b"a"), &param(b"a", b"z")));
    assert!(no_later(&param(b"a", b"1"), &param(b"a", b"2")));
    assert!(!no_later(&param(b"a", b"2"), &param(b"a", b"1")));
    assert!(no_later(&param(b"a", b"1"), &param(b"a", b"1")));
}

#[test]
fn insertion_keeps_the_order() {
    let mut v: Vec<Param> = Vec::new();
    for (name, value) in [("m", "1"), ("a", "2"), ("z", "3"), ("m", "0"), ("b", "9")] {
        insert_sorted(&mut v, param(name.as_bytes(), value.as_bytes()));
    }
    let names: Vec<Vec<u8>> = v.iter().map(|p| [p.name.clone(), p.value.clone()].concat()).collect();
    assert_eq!(
        names,
        vec![b"a2".to_vec(), b"b9".to_vec(), b"m0".to_vec(), b"m1".to_vec(), b"z3".to_vec()]
    );
}
