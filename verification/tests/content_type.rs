use ct_resume_hash::content_type::normalize_content_type;
use ct_resume_hash::error::HashError;

fn canon(raw: &[u8]) -> Vec<u8> {
    normalize_content_type(raw).expect("a valid content type")
}

fn rejected(raw: &[u8]) {
    assert_eq!(normalize_content_type(raw), Err(HashError::InvalidContentType));
}

#[test]
fn type_and_subtype_are_lower_cased() {
    assert_eq!(canon(b"TEXT/Plain"), b"text/plain".to_vec());
    assert_eq!(canon(b"Application/Vnd.Api+JSON"), b"application/vnd.api+json".to_vec());
    assert_eq!(canon(b"text/plain"), b"text/plain".to_vec());
}

#[test]
fn optional_whitespace_is_dropped() {
    assert_eq!(canon(b"TEXT/Plain; charset=UTF-8"), b"text/plain;charset=UTF-8".to_vec());
    assert_eq!(canon(b"  text/plain \t;\t charset=UTF-8  "), b"text/plain;charset=UTF-8".to_vec());
    assert_eq!(canon(b"\ttext/plain "), b"text/plain".to_vec());
}

#[test]
fn names_and_values_keep_their_case() {
    assert_eq!(canon(b"a/b;Charset=Utf-8"), b"a/b;Charset=Utf-8".to_vec());
}

#[test]
fn parameters_are_ordered_by_name_then_value() {
    assert_eq!(canon(b"a/b;z=1;a=2"), b"a/b;a=2;z=1".to_vec());
    assert_eq!(canon(b"a/b;k=2;k=1"), b"a/b;k=1;k=2".to_vec());
    assert_eq!(canon(b"a/b;c=3;b=2;a=1"), b"a/b;a=1;b=2;c=3".to_vec());
    // byte order: upper case before lower case, a prefix before what extends it
    assert_eq!(canon(b"a/b;b=1;B=2"), b"a/b;B=2;b=1".to_vec());
    assert_eq!(canon(b"a/b;ab=1;a=2"), b"a/b;a=2;ab=1".to_vec());
    assert_eq!(canon(b"a/b;k=xy;k=x"), b"a/b;k=x;k=xy".to_vec());
}

#[test]
fn equal_parameters_are_all_kept() {
    assert_eq!(canon(b"a/b;k=1;k=1"), b"a/b;k=1;k=1".to_vec());
}

#[test]
fn needless_quotes_are_removed() {
    assert_eq!(canon(b"a/b;x=\"y\""), b"a/b;x=y".to_vec());
    assert_eq!(canon(b"text/plain; charset=\"UTF-8\""), b"text/plain;charset=UTF-8".to_vec());
    // an escape before a byte that needs none goes with the quotes
    assert_eq!(canon(b"a/b;x=\"a\\bc\""), b"a/b;x=abc".to_vec());
}

#[test]
fn needed_quotes_are_kept() {
    assert_eq!(canon(b"a/b;x=\"y z\""), b"a/b;x=\"y z\"".to_vec());
    assert_eq!(canon(b"a/b;x=\"\""), b"a/b;x=\"\"".to_vec());
    assert_eq!(canon(b"a/b;x=\"a;b\""), b"a/b;x=\"a;b\"".to_vec());
    assert_eq!(canon(b"a/b;x=\"a\\\"b\""), b"a/b;x=\"a\\\"b\"".to_vec());
    assert_eq!(canon(b"a/b;x=\"a\\\\b\""), b"a/b;x=\"a\\\\b\"".to_vec());
    // only the quote and the backslash stay escaped
    assert_eq!(canon(b"a/b;x=\"\\a\\ b\""), b"a/b;x=\"a b\"".to_vec());
}

#[test]
fn quoted_and_bare_spellings_of_a_value_sort_alike() {
    assert_eq!(canon(b"a/b;k=\"b\";k=a"), b"a/b;k=a;k=b".to_vec());
}

#[test]
fn missing_separator_is_rejected() {
    rejected(b"text");
    rejected(b"");
    rejected(b"   ");
    rejected(b"text/");
    rejected(b"/plain");
    rejected(b"/");
    rejected(b"text plain");
}

#[test]
fn whitespace_inside_the_type_is_rejected() {
    rejected(b"text /plain");
    rejected(b"text/ plain");
    rejected(b"te xt/plain");
}

#[test]
fn second_separator_is_rejected() {
    rejected(b"text/plain/x");
    rejected(b"text//plain");
}

#[test]
fn malformed_parameter_is_rejected() {
    rejected(b"text/plain;");
    rejected(b"text/plain; ");
    rejected(b"text/plain;x");
    rejected(b"text/plain;x=");
    rejected(b"text/plain;=y");
    rejected(b"text/plain;x =y");
    rejected(b"text/plain;x= y");
    rejected(b"text/plain;x=y z");
    rejected(b"text/plain x=y");
    rejected(b"text/plain;x=y;");
    rejected(b"text/plain;;x=y");
    rejected(b"text/plain;x=y,z=1");
}

#[test]
fn malformed_quoted_string_is_rejected() {
    rejected(b"text/plain;x=\"abc");
    rejected(b"text/plain;x=\"abc\\");
    rejected(b"text/plain;x=\"abc\\\"");
    rejected(b"text/plain;x=\"a\x01b\"");
    rejected(b"text/plain;x=\"a\\\x01b\"");
    rejected(b"text/plain;x=\"a\x7fb\"");
    rejected(b"text/plain;x=\"a\"b");
}

#[test]
fn bytes_outside_tokens_are_rejected() {
    rejected(b"t\xc3\xa9xt/plain");
    rejected(b"text/pl(ain");
    rejected(b"text/plain;n@me=x");
}

#[test]
fn normalizing_a_content_type_twice_changes_nothing() {
    let samples: [&[u8]; 6] = [
        b"TEXT/Plain; charset=UTF-8",
        b"a/b;z=\"q r\";y=\"\\\"\";x=\"\"",
        b"A/B",
        b" a/b ; k = \"v\" ".as_slice(),
        b"a/b;k=2;k=1;K=0",
        b"multipart/form-data; boundary=\"----x y\"",
    ];
    for raw in samples {
        if let Ok(once) = normalize_content_type(raw) {
            assert_eq!(canon(&once), once);
        }
    }
    // the fourth sample has whitespace around `=` and is rejected
    rejected(b" a/b ; k = \"v\" ");
}

fn is_token_byte(b: u8) -> bool {
    b.is_ascii_alphanumeric() || b"!#$%&'*+-.^_`|~".contains(&b)
}

fn take_token(t: &[u8], at: &mut usize) -> Vec<u8> {
    let from = *at;
    while *at < t.len() && is_token_byte(t[*at]) {
        *at += 1;
    }
    t[from..*at].to_vec()
}

fn skip_blanks(t: &[u8], at: &mut usize) {
    while *at < t.len() && (t[*at] == b' ' || t[*at] == b'\t') {
        *at += 1;
    }
}

/// The rules of the content-type normalizer, written out step by step.
fn content_type_by_the_rules(raw: &[u8]) -> Option<Vec<u8>> {
    let text = String::from_utf8_lossy(raw).into_owned();
    let trimmed = text.trim_matches(|c| c == ' ' || c == '\t');
    let t = trimmed.as_bytes();
    let mut at = 0;
    let kind = take_token(t, &mut at);
    if kind.is_empty() || at >= t.len() || t[at] != b'/' {
        return None;
    }
    at += 1;
    let subtype = take_token(t, &mut at);
    if subtype.is_empty() {
        return None;
    }
    let mut params: Vec<(Vec<u8>, Vec<u8>)> = Vec::new();
    while at < t.len() {
        skip_blanks(t, &mut at);
        if at >= t.len() || t[at] != b';' {
            return None;
        }
        at += 1;
        skip_blanks(t, &mut at);
        let name = take_token(t, &mut at);
        if name.is_empty() || at >= t.len() || t[at] != b'=' {
            return None;
        }
        at += 1;
        let value = if at < t.len() && t[at] == b'"' {
            at += 1;
            let mut v = Vec::new();
            loop {
                if at >= t.len() {
                    return None;
                }
                let mut b = t[at];
                at += 1;
                if b == b'"' {
                    break;
                }
                if b == b'\\' {
                    if at >= t.len() {
                        return None;
                    }
                    b = t[at];
                    at += 1;
                }
                if !(b == b'\t' || (b >= 0x20 && b != 0x7f)) {
                    return None;
                }
                v.push(b);
            }
            v
        } else {
            let v = take_token(t, &mut at);
            if v.is_empty() {
                return None;
            }
            v
        };
        params.push((name, value));
    }
    params.sort();
    let mut out = kind.to_ascii_lowercase();
    out.push(b'/');
    out.extend(subtype.to_ascii_lowercase());
    for (name, value) in params {
        out.push(b';');
        out.extend(name);
        out.push(b'=');
        if !value.is_empty() && value.iter().all(|&b| is_token_byte(b)) {
            out.extend(value);
        } else {
            out.push(b'"');
            for b in value {
                if b == b'"' || b == b'\\' {
                    out.push(b'\\');
                }
                out.push(b);
            }
            out.push(b'"');
        }
    }
    Some(out)
}

fn check_against_the_rules(raw: &[u8]) {
    assert_eq!(normalize_content_type(raw).ok(), content_type_by_the_rules(raw));
}

#[test]
fn content_types_are_normalized_by_the_rules() {
    // every string over a small alphabet, up to six bytes
    let alphabet = b"aB/;=\"\\ ";
    let mut all: Vec<Vec<u8>> = vec![Vec::new()];
    let mut from = 0;
    for _ in 0..6 {
        let upto = all.len();
        for k in from..upto {
            for &b in alphabet {
                let mut s = all[k].clone();
                s.push(b);
                all.push(s);
            }
        }
        from = upto;
    }
    for s in &all {
        check_against_the_rules(s);
    }
}

#[test]
fn parameters_are_normalized_by_the_rules() {
    // every parameter tail over a small alphabet, after a fixed head
    let alphabet = b"ab;=\"\\ \x01";
    let mut all: Vec<Vec<u8>> = vec![Vec::new()];
    let mut from = 0;
    for _ in 0..6 {
        let upto = all.len();
        for k in from..upto {
            for &b in alphabet {
                let mut s = all[k].clone();
                s.push(b);
                all.push(s);
            }
        }
        from = upto;
    }
    for tail in &all {
        let mut raw = b"x/y;b=c".to_vec();
        raw.extend_from_slice(tail);
        check_against_the_rules(&raw);
    }
}
