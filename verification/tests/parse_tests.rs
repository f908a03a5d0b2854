use minilog::ParseError;
use minilog::encode;
use minilog::log2mlg;
use minilog::parse_log_line;

fn line_bytes(s: &str) -> Vec<u8> {
    s.as_bytes().to_vec()
}

#[test]
fn parse_literal_line() {
    let line = line_bytes("213.180.203.32 - - [31/Aug/2020:00:00:39 +0000] \"GET ...");
    let r = parse_log_line(&line).unwrap();
    let b = encode(r.t, r.a);
    assert_eq!(b, vec![95, 76, 61, 167, 213, 180, 203, 32]);
}

#[test]
fn parse_honors_timezone_offset() {
    let utc = parse_log_line(&line_bytes(
        "213.180.203.32 - - [31/Aug/2020:00:00:39 +0000] \"GET /\"",
    ))
    .unwrap();
    let cest = parse_log_line(&line_bytes(
        "213.180.203.32 - - [31/Aug/2020:02:00:39 +0200] \"GET /\"",
    ))
    .unwrap();
    assert_eq!(utc, cest);
    assert_eq!(utc.t, 1598832039);
}

#[test]
fn parse_too_few_fields() {
    assert_eq!(
        parse_log_line(&line_bytes("1.2.3.4 - -")).unwrap_err(),
        ParseError::TooFewFields
    );
    assert_eq!(
        parse_log_line(&line_bytes("")).unwrap_err(),
        ParseError::TooFewFields
    );
}

#[test]
fn parse_bad_address() {
    for s in [
        "999.1.2.3 - - [31/Aug/2020:00:00:39 +0000] \"GET /\"",
        "01.2.3.4 - - [31/Aug/2020:00:00:39 +0000] \"GET /\"",
        "1.2.3 - - [31/Aug/2020:00:00:39 +0000] \"GET /\"",
        "1.2.3.4.5 - - [31/Aug/2020:00:00:39 +0000] \"GET /\"",
        "a.b.c.d - - [31/Aug/2020:00:00:39 +0000] \"GET /\"",
    ] {
        assert_eq!(
            parse_log_line(&line_bytes(s)).unwrap_err(),
            ParseError::BadAddress,
            "line: {}",
            s
        );
    }
}

#[test]
fn parse_bad_timestamp() {
    for s in [
        "1.2.3.4 - - [31/Foo/2020:00:00:39 +0000] \"GET /\"",
        "1.2.3.4 - - 31/Aug/2020:00:00:39 +0000 \"GET /\"",
        "1.2.3.4 - - [31/Aug/2020:00:00:xx +0000] \"GET /\"",
        "1.2.3.4 - - [31/Aug/2020:00:00:39 junk] \"GET /\"",
    ] {
        assert_eq!(
            parse_log_line(&line_bytes(s)).unwrap_err(),
            ParseError::BadTimestamp,
            "line: {}",
            s
        );
    }
}

#[test]
fn parse_error_messages() {
    assert_eq!(
        ParseError::TooFewFields.message(),
        "skipping line: fewer than 5 fields"
    );
    assert_eq!(
        ParseError::BadAddress.message(),
        "skipping line: not a valid IPv4 address"
    );
    assert_eq!(
        ParseError::BadTimestamp.message(),
        "skipping line: not a valid timestamp"
    );
}

#[test]
fn malformed_middle_line_tolerated() {
    let lines = vec![
        line_bytes("213.180.203.32 - - [31/Aug/2020:00:00:39 +0000] \"GET /a\""),
        line_bytes("garbage"),
        line_bytes("10.0.0.1 - - [31/Aug/2020:00:01:39 +0000] \"GET /b\""),
    ];
    let (out, diags) = log2mlg(&lines);
    assert_eq!(out.len(), 16);
    assert_eq!(diags.len(), 1);
    assert_eq!(diags[0], "skipping line: fewer than 5 fields");
    let mut expected = encode(1598832039, 0xd5b4cb20);
    let mut second = encode(1598832099, (10 << 24) | 1);
    expected.append(&mut second);
    assert_eq!(out, expected);
}

#[test]
fn empty_log_converts_to_empty_stream() {
    let (out, diags) = log2mlg(&Vec::new());
    assert!(out.is_empty());
    assert!(diags.is_empty());
}
