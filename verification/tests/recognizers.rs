use header_parser::headers::{
    complete_eol, eol, folding, folding_or_eol, header, headers, name, separator, value,
    value_bytes,
};
use header_parser::{is_eol, Header, Name, Value};

fn b(text: &str) -> &[u8] {
    text.as_bytes()
}

#[test]
fn test_headers() {
    assert_eq!(
        headers(b"k1:v1\r\n:v2\r\n v2+\r\nk3: v3\r\n\r\n"),
        Ok((
            b(""),
            (
                vec![
                    Header {
                        name: Name {
                            name: b"k1".to_vec(),
                            flags: 0
                        },
                        value: Value {
                            value: b"v1".to_vec(),
                            flags: 0
                        },
                    },
                    Header {
                        name: Name {
                            name: b"".to_vec(),
                            flags: 0
                        },
                        value: Value {
                            value: b"v2 v2+".to_vec(),
                            flags: 0
                        },
                    },
                    Header {
                        name: Name {
                            name: b"k3".to_vec(),
                            flags: 0
                        },
                        value: Value {
                            value: b"v3".to_vec(),
                            flags: 0
                        },
                    }
                ],
                true
            ),
        ))
    );
    assert_eq!(
        headers(b"k1:v1\r\nk2:v2\r"),
        Ok((
            b("k2:v2\r"),
            (
                vec![Header {
                    name: Name {
                        name: b"k1".to_vec(),
                        flags: 0
                    },
                    value: Value {
                        value: b"v1".to_vec(),
                        flags: 0
                    },
                },],
                false
            ),
        ))
    );
}

#[test]
fn test_header() {
    assert!(header(b"K: V").is_err());
    assert!(header(b"K: V\r\n").is_err());
    assert_eq!(
        header(b"K: V\r\n\r\n"),
        Ok((
            b("\r\n"),
            Header {
                name: Name {
                    name: b"K".to_vec(),
                    flags: 0
                },
                value: Value {
                    value: b"V".to_vec(),
                    flags: 0
                },
            }
        ))
    );
    assert_eq!(
        header(b"K: V\r\n a\r\n l\r\n u\r\n\te\r\n\r\n"),
        Ok((
            b("\r\n"),
            Header {
                name: Name {
                    name: b"K".to_vec(),
                    flags: 0
                },
                value: Value {
                    value: b"V a l u e".to_vec(),
                    flags: 0
                },
            }
        ))
    );
}

#[test]
fn test_separator() {
    assert!(separator(b" : ").is_err());
    assert!(separator(b" ").is_err());
    assert!(separator(b": value").is_ok());
    assert!(separator(b":value").is_ok());
    assert!(separator(b": value").is_ok());
    assert_eq!(separator(b":value"), Ok((b("value"), (b(":"), b("")))));
    assert_eq!(separator(b": value"), Ok((b("value"), (b(":"), b(" ")))));
    assert_eq!(
        separator(b":\t value"),
        Ok((b("value"), (b(":"), b("\t "))))
    );
}

#[test]
fn test_name() {
    assert_eq!(name(b"Hello: world").unwrap().1.name, b"Hello".to_vec());
    assert_eq!(name(b": world").unwrap().1.name, b"".to_vec());
    assert!(name(b" Hello: world").is_err());
    assert!(name(b"Hello").is_err());
}

#[test]
fn test_eol() {
    assert!(eol(b"test").is_err());
    assert!(eol(b"\r\n").is_err());
    assert!(eol(b"\n").is_err());
    assert!(eol(b"\r\n ").is_err());
    assert!(eol(b"\r\n\t").is_err());
    assert!(eol(b"\r\n\t ").is_err());
    assert_eq!(eol(b"\ra"), Ok((b("a"), b("\r"))));
    assert_eq!(eol(b"\na"), Ok((b("a"), b("\n"))));
    assert_eq!(eol(b"\n\r\r\na"), Ok((b("a"), b("\n\r\r\n"))));
    assert_eq!(eol(b"\r\n\r\na"), Ok((b("\r\na"), b("\r\n"))));

    assert!(complete_eol(b"test").is_err());
    assert!(complete_eol(b"\r\n").is_ok());
    assert!(complete_eol(b"\n").is_ok());
    assert_eq!(complete_eol(b"\r\n"), Ok((b(""), b("\r\n"))));
    assert_eq!(complete_eol(b"\r"), Ok((b(""), b("\r"))));
    assert_eq!(complete_eol(b"\n"), Ok((b(""), b("\n"))));
    assert_eq!(complete_eol(b"\n\r\r\n"), Ok((b(""), b("\n\r\r\n"))));
    assert_eq!(complete_eol(b"\r\n\r\n"), Ok((b("\r\n"), b("\r\n"))));
}

#[test]
fn test_is_eol() {
    assert!(is_eol(b'\r'));
    assert!(is_eol(b'\n'));
    assert!(!is_eol(b'\t'));
    assert!(!is_eol(b' '));
}

#[test]
fn test_folding() {
    assert!(folding(b"test").is_err());
    assert!(folding(b"\r\n").is_err());
    assert!(folding(b"\r\n ").is_err());
    assert!(folding(b"\r\n\t").is_err());
    assert!(folding(b"\r\n\t ").is_err());
    assert!(folding(b"\r\n \t").is_err());
    assert_eq!(
        folding(b"\r\n next"),
        Ok((b("next"), (b("\r\n"), b(" "))))
    );
    assert_eq!(
        folding(b"\r\n\tnext"),
        Ok((b("next"), (b("\r\n"), b("\t"))))
    );
    assert_eq!(
        folding(b"\r\n\t next"),
        Ok((b("next"), (b("\r\n"), b("\t "))))
    );
    assert_eq!(
        folding(b"\r\n\t\t\r\n"),
        Ok((b("\r\n"), (b("\r\n"), b("\t\t"))))
    );
    assert_eq!(
        folding(b"\r\n\t \t\r"),
        Ok((b("\r"), (b("\r\n"), b("\t \t"))))
    );
    assert_eq!(
        folding(b"\r\n     \n"),
        Ok((b("\n"), (b("\r\n"), b("     "))))
    );
}

#[test]
fn test_folding_or_eol() {
    // All of these fail because they are incomplete.
    // We need more bytes before we can get the full fold
    // or decide there is no fold.
    assert!(folding_or_eol(b"\r\n").is_err());
    assert!(folding_or_eol(b"\r\n\t").is_err());
    assert!(folding_or_eol(b"\r\n ").is_err());

    assert_eq!(
        folding_or_eol(b"\r\n\ta"),
        Ok((b("a"), (b("\r\n"), Some(b("\t")))))
    );
    assert_eq!(
        folding_or_eol(b"\r\n a"),
        Ok((b("a"), (b("\r\n"), Some(b(" ")))))
    );
    assert_eq!(folding_or_eol(b"\r\na"), Ok((b("a"), (b("\r\n"), None))));
    assert_eq!(folding_or_eol(b"\n\na"), Ok((b("\na"), (b("\n"), None))));
    assert_eq!(
        folding_or_eol(b"\r\n\r\na"),
        Ok((b("\r\na"), (b("\r\n"), None)))
    );
}

#[test]
fn test_value_bytes() {
    // Expect fail because we need to see EOL
    assert!(value_bytes(b" ").is_err());
    assert!(value_bytes(b"value").is_err());
    assert!(value_bytes(b"\tvalue").is_err());
    assert!(value_bytes(b" value").is_err());
    // Expect fail because we need to see past EOL to check for folding
    assert!(value_bytes(b"value\r\n").is_err());

    assert_eq!(
        value_bytes(b"\r\nnext"),
        Ok((b("next"), (b(""), (b("\r\n"), None))))
    );
    assert_eq!(
        value_bytes(b"value\r\nname2"),
        Ok((b("name2"), (b("value"), (b("\r\n"), None))))
    );
    assert_eq!(
        value_bytes(b"value\n more"),
        Ok((b("more"), (b("value"), (b("\n"), Some(b(" "))))))
    );
    assert_eq!(
        value_bytes(b"value\r\n\t more"),
        Ok((b("more"), (b("value"), (b("\r\n"), Some(b("\t "))))))
    );
    assert_eq!(
        value_bytes(b"value\n\rname2"),
        Ok((b("\rname2"), (b("value"), (b("\n"), None))))
    );
}

#[test]
fn test_value() {
    assert!(value(b"value\r\n more\r\n").is_err());
    assert!(value(b"value\r\n ").is_err());
    assert!(value(b"value\r\n more").is_err());
    assert!(value(b"value\r\n more\n").is_err());
    assert!(value(b"value\n more\r\n").is_err());

    assert_eq!(
        value(b"value\r\nnext:"),
        Ok((
            b("next:"),
            Value {
                value: b"value".to_vec(),
                flags: 0
            }
        ))
    );
    assert_eq!(
        value(b"value\r\n more\r\n\r\n"),
        Ok((
            b("\r\n"),
            Value {
                value: b"value more".to_vec(),
                flags: 0
            }
        ))
    );
    assert_eq!(
        value(b"value\r\n more\r\n\tand more\r\nnext:"),
        Ok((
            b("next:"),
            Value {
                value: b"value more and more".to_vec(),
                flags: 0
            }
        ))
    );
    assert_eq!(
        value(b"value\n more\n\r\r\n\tand more\r\n\r\n"),
        Ok((
            b("\r\n"),
            Value {
                value: b"value more and more".to_vec(),
                flags: 0
            }
        ))
    );
    assert_eq!(
        value(b"value\n\t\tmore\r\n  and\r\n more\r\nnext:"),
        Ok((
            b("next:"),
            Value {
                value: b"value more and more".to_vec(),
                flags: 0
            }
        ))
    );
}
