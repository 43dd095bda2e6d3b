//! The line grammar of configuration files.

use lit::config::parse::{Header, LineKind, LineParser, LineSpan, ParseError, ParseErrorKind};

fn valid_sections() -> Vec<(&'static [u8], LineKind)> {
    vec![
        // section, no subsection
        (
            b"[core]\n",
            LineKind::Header(Header {
                name: LineSpan { start: 1, end: 5 },
                subsection: None,
            }),
        ),
        (
            b"[123]",
            LineKind::Header(Header {
                name: LineSpan { start: 1, end: 4 },
                subsection: None,
            }),
        ),
        (
            b"[core]  \t\n",
            LineKind::Header(Header {
                name: LineSpan { start: 1, end: 5 },
                subsection: None,
            }),
        ),
        (
            b"[core];trailing comment\n",
            LineKind::Header(Header {
                name: LineSpan { start: 1, end: 5 },
                subsection: None,
            }),
        ),
        (
            b"[core]#trailing comment\n",
            LineKind::Header(Header {
                name: LineSpan { start: 1, end: 5 },
                subsection: None,
            }),
        ),
        (
            b"[foo-bar]",
            LineKind::Header(Header {
                name: LineSpan { start: 1, end: 8 },
                subsection: None,
            }),
        ),
        (
            b"[core ]",
            LineKind::Header(Header {
                name: LineSpan { start: 1, end: 5 },
                subsection: None,
            }),
        ),
        // section, subsection
        (
            b"[remote \"origin\"]",
            LineKind::Header(Header {
                name: LineSpan { start: 1, end: 7 },
                subsection: Some(LineSpan { start: 9, end: 15 }),
            }),
        ),
        (
            b"[remote \"\"]",
            LineKind::Header(Header {
                name: LineSpan { start: 1, end: 7 },
                subsection: Some(LineSpan { start: 9, end: 9 }),
            }),
        ),
        (
            b"[remote \"a\\\"b\"]",
            LineKind::Header(Header {
                name: LineSpan { start: 1, end: 7 },
                subsection: Some(LineSpan { start: 9, end: 13 }),
            }),
        ),
        (
            b"[remote \"my origin\"]\n",
            LineKind::Header(Header {
                name: LineSpan { start: 1, end: 7 },
                subsection: Some(LineSpan { start: 9, end: 18 }),
            }),
        ),
        (
            b"[remote \"a b ; # c\"]\n",
            LineKind::Header(Header {
                name: LineSpan { start: 1, end: 7 },
                subsection: Some(LineSpan { start: 9, end: 18 }),
            }),
        ),
    ]
}

fn invalid_sections() -> Vec<(&'static [u8], ParseError)> {
    vec![
        (
            b"[core\n",
            ParseError {
                pos: 5,
                kind: ParseErrorKind::UnexpectedByte(b'\n'),
            },
        ),
        (
            b"[core",
            ParseError {
                pos: 5,
                kind: ParseErrorKind::UnexpectedEol,
            },
        ),
        // this is tricky, the section name is "re" then we have the mandatory space and when
        // we try to parse the subsection we encounter an unexpected 'm' instead of '"'
        (
            b"[re mote]\n",
            ParseError {
                pos: 4,
                kind: ParseErrorKind::UnexpectedByte(b'm'),
            },
        ),
        // expected a space between section-subsection
        (
            b"[core\"x\"]\n",
            ParseError {
                pos: 5,
                kind: ParseErrorKind::UnexpectedByte(b'\"'),
            },
        ),
        // never found closing quote
        (
            b"[remote \"origin\n",
            ParseError {
                pos: 16,
                kind: ParseErrorKind::UnexpectedEol,
            },
        ),
        // empty section name not allowed
        (
            b"[]",
            ParseError {
                pos: 1,
                kind: ParseErrorKind::UnexpectedByte(b']'),
            },
        ),
    ]
}

fn valid_variables() -> Vec<(&'static [u8], LineKind)> {
    vec![
        (
            b"key = value\n",
            LineKind::Variable {
                name: LineSpan { start: 0, end: 3 },
                value: Some(LineSpan { start: 6, end: 11 }),
            },
        ),
        (
            b"key=value\n",
            LineKind::Variable {
                name: LineSpan { start: 0, end: 3 },
                value: Some(LineSpan { start: 4, end: 9 }),
            },
        ),
        // trailing ws
        (
            b"key=value  \t\n",
            LineKind::Variable {
                name: LineSpan { start: 0, end: 3 },
                value: Some(LineSpan { start: 4, end: 9 }),
            },
        ),
        // internal spaces are retained
        (
            b"name = John Doe\n",
            LineKind::Variable {
                name: LineSpan { start: 0, end: 4 },
                value: Some(LineSpan { start: 7, end: 15 }),
            },
        ),
        // leading/trailing ws are retained within quotes
        (
            b"key = \"  value \"",
            LineKind::Variable {
                name: LineSpan { start: 0, end: 3 },
                value: Some(LineSpan { start: 6, end: 16 }),
            },
        ),
        // partial quoting
        (
            b"key = \" a \"b\" c \"",
            LineKind::Variable {
                name: LineSpan { start: 0, end: 3 },
                value: Some(LineSpan { start: 6, end: 17 }),
            },
        ),
        (
            b"key = \" # not a comment\"",
            LineKind::Variable {
                name: LineSpan { start: 0, end: 3 },
                value: Some(LineSpan { start: 6, end: 24 }),
            },
        ),
        // trailing comment stops the value span
        (
            b"key = \"value\" ; trailing comment",
            LineKind::Variable {
                name: LineSpan { start: 0, end: 3 },
                value: Some(LineSpan { start: 6, end: 13 }),
            },
        ),
        // trailing comment stops the value span
        (
            b"key = \"value\" # trailing comment",
            LineKind::Variable {
                name: LineSpan { start: 0, end: 3 },
                value: Some(LineSpan { start: 6, end: 13 }),
            },
        ),
        // \t escaped
        (
            b"key = \\t",
            LineKind::Variable {
                name: LineSpan { start: 0, end: 3 },
                value: Some(LineSpan { start: 6, end: 8 }),
            },
        ),
        // empty value
        (
            b"key =",
            LineKind::Variable {
                name: LineSpan { start: 0, end: 3 },
                value: Some(LineSpan { start: 5, end: 5 }),
            },
        ),
        // empty value with leading ws
        (
            b"key =    \n",
            LineKind::Variable {
                name: LineSpan { start: 0, end: 3 },
                value: Some(LineSpan { start: 9, end: 9 }),
            },
        ),
        // empty value followed by comment
        (
            b"key =  ; comment \n",
            LineKind::Variable {
                name: LineSpan { start: 0, end: 3 },
                value: Some(LineSpan { start: 7, end: 7 }),
            },
        ),
        // continuation, folded value foo\<nl>bar, the internal ws are retained
        (
            b"key = foo \\\n bar\n",
            LineKind::Variable {
                name: LineSpan { start: 0, end: 3 },
                value: Some(LineSpan { start: 6, end: 16 }),
            },
        ),
        // value begins with continuation
        (
            b"key = \\\n bar\n",
            LineKind::Variable {
                name: LineSpan { start: 0, end: 3 },
                value: Some(LineSpan { start: 6, end: 12 }),
            },
        ),
        // valueless
        (
            b"flag\n",
            LineKind::Variable {
                name: LineSpan { start: 0, end: 4 },
                value: None,
            },
        ),
        (
            b"flag ; comment\n",
            LineKind::Variable {
                name: LineSpan { start: 0, end: 4 },
                value: None,
            },
        ),
        // 1st has to be alphabetic
        (
            b"a1-2-3 ; comment\n",
            LineKind::Variable {
                name: LineSpan { start: 0, end: 6 },
                value: None,
            },
        ),
    ]
}

fn invalid_variables() -> Vec<(&'static [u8], ParseError)> {
    vec![
        (
            b"key! = value\n",
            ParseError {
                pos: 3,
                kind: ParseErrorKind::UnexpectedByte(b'!'),
            },
        ),
        // must start with alphabetic
        (
            b"123 = value\n",
            ParseError {
                pos: 0,
                kind: ParseErrorKind::UnexpectedByte(b'1'),
            },
        ),
        (
            b"key = \"value",
            ParseError {
                pos: 6,
                kind: ParseErrorKind::UnterminatedQuote,
            },
        ),
        // unknown escape
        (
            b"key = \\q",
            ParseError {
                pos: 7,
                kind: ParseErrorKind::UnexpectedByte(b'q'),
            },
        ),
    ]
}

fn comments() -> Vec<(&'static [u8], LineKind)> {
    vec![
        (b"#hello", LineKind::Comment),
        (b"  #leading ws", LineKind::Comment),
        // empty comment
        (b"#", LineKind::Comment),
        (b"# part of the comment ;", LineKind::Comment),
    ]
}

fn blank_lines() -> Vec<(&'static [u8], LineKind)> {
    vec![
        // empty line
        (b"", LineKind::Blank),
        (b"  \t \n", LineKind::Blank),
        // CRLF
        (b"   \r\n", LineKind::Blank),
    ]
}

#[test]
fn test_valid_sections() {
    for (buf, kind) in valid_sections() {
        let parser = LineParser::new(buf);
        let res = parser.parse().unwrap();
        assert_eq!(kind, res, "failed: {:?}", buf);
    }
}

#[test]
fn test_invalid_sections() {
    for (buf, err) in invalid_sections() {
        let parser = LineParser::new(buf);
        let res = parser.parse();
        assert_eq!(res, Err(err), "failed: {:?}", buf);
    }
}

#[test]
fn test_valid_variables() {
    for (buf, kind) in valid_variables() {
        let parser = LineParser::new(buf);
        let res = parser.parse().unwrap();
        assert_eq!(kind, res, "failed: {:?}", buf);
    }
}

#[test]
fn test_invalid_variables() {
    for (buf, err) in invalid_variables() {
        let parser = LineParser::new(buf);
        let res = parser.parse();
        assert_eq!(res, Err(err), "failed: {:?}", buf);
    }
}

#[test]
fn test_comments() {
    for (buf, kind) in comments() {
        let parser = LineParser::new(buf);
        let res = parser.parse().unwrap();
        assert_eq!(kind, res, "failed: {:?}", buf);
    }
}

#[test]
fn test_blank_lines() {
    for (buf, kind) in blank_lines() {
        let parser = LineParser::new(buf);
        let res = parser.parse().unwrap();
        assert_eq!(kind, res, "failed: {:?}", buf);
    }
}

#[test]
fn test_unexpected_character() {
    // @
    let buf = [64];
    let parser = LineParser::new(&buf);
    let err = ParseError {
        pos: 0,
        kind: ParseErrorKind::UnexpectedByte(b'@'),
    };
    let res = parser.parse();
    assert_eq!(res, Err(err), "failed: {:?}", buf);
}
