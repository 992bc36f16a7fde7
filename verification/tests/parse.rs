use cmdline::parse;

#[test]
fn simple_parse() {
    assert_eq!(
        parse(b"foo bar"),
        vec![(b"foo".to_vec(), None), (b"bar".to_vec(), None)]
    );
}

#[test]
fn empty() {
    assert_eq!(parse(b""), vec![]);
}

#[test]
fn parmaeters() {
    assert_eq!(
        parse(b"foo= bar=baz"),
        vec![
            (b"foo".to_vec(), Some(vec![])),
            (b"bar".to_vec(), Some(b"baz".to_vec()))
        ]
    );
}

#[test]
fn quoted() {
    assert_eq!(
        parse(b"\"f o\" \"b ar\"=\"ba z\""),
        vec![
            (b"f o".to_vec(), None),
            (b"b ar".to_vec(), Some(b"ba z".to_vec()))
        ]
    );
}

#[test]
fn name_before_name_gets_no_value() {
    assert_eq!(
        parse(b"a b"),
        vec![(b"a".to_vec(), None), (b"b".to_vec(), None)]
    );
}

#[test]
fn whitespace_runs_absorbed() {
    assert_eq!(
        parse(b"  foo \t\r\n bar  "),
        vec![(b"foo".to_vec(), None), (b"bar".to_vec(), None)]
    );
}

#[test]
fn whitespace_only_input() {
    assert_eq!(parse(b" \t\n\r \x0b\x0c "), vec![]);
}

#[test]
fn stray_equals_yields_no_pair() {
    assert_eq!(parse(b"=x"), vec![]);
    assert_eq!(parse(b"= ="), vec![]);
}

#[test]
fn all_quotes_name_is_dropped() {
    assert_eq!(parse(b"\"\" x"), vec![(b"x".to_vec(), None)]);
}

#[test]
fn empty_value_at_end_of_input() {
    assert_eq!(parse(b"foo="), vec![(b"foo".to_vec(), Some(vec![]))]);
}

#[test]
fn equals_inside_quotes_is_content() {
    assert_eq!(parse(b"\"a=b\""), vec![(b"a=b".to_vec(), None)]);
    assert_eq!(
        parse(b"\"a=b\"=c"),
        vec![(b"a=b".to_vec(), Some(b"c".to_vec()))]
    );
}

#[test]
fn value_keeps_later_equals() {
    assert_eq!(
        parse(b"a=b=c"),
        vec![(b"a".to_vec(), Some(b"b=c".to_vec()))]
    );
}

#[test]
fn unmatched_quote_is_accepted() {
    assert_eq!(parse(b"\"f oo"), vec![(b"f oo".to_vec(), None)]);
}

/// Writes a pair list back as command line text: `name` or `name=value`,
/// quoting each segment that contains whitespace, pairs joined by spaces.
fn serialize(pairs: &[(Vec<u8>, Option<Vec<u8>>)]) -> Vec<u8> {
    let mut out: Vec<u8> = Vec::new();
    for (i, (name, value)) in pairs.iter().enumerate() {
        if i > 0 {
            out.push(b' ');
        }
        push_segment(&mut out, name);
        if let Some(v) = value {
            out.push(b'=');
            push_segment(&mut out, v);
        }
    }
    out
}

fn push_segment(out: &mut Vec<u8>, seg: &[u8]) {
    let ws = seg
        .iter()
        .any(|&c| c == b' ' || c == 0x0c || c == b'\n' || c == b'\r' || c == b'\t' || c == 0x0b);
    if ws {
        out.push(b'"');
        out.extend_from_slice(seg);
        out.push(b'"');
    } else {
        out.extend_from_slice(seg);
    }
}

#[test]
fn round_trip_reparses_equal() {
    let input: &[u8] = b"foo bar=baz opt= \"q v\"=\"w x\" \"l one\"";
    let first = parse(input);
    let text = serialize(&first);
    let second = parse(&text);
    assert_eq!(first, second);
}
