use header_parser::headers::{complete_eol, header, headers};
use header_parser::{Header, ParseError};

const ALPHABET: [u8; 6] = [b'a', b':', b' ', b'\t', b'\r', b'\n'];

/// Every string over the alphabet of at most `max` bytes.
fn strings(max: usize) -> Vec<Vec<u8>> {
    let mut all: Vec<Vec<u8>> = vec![Vec::new()];
    let mut from = 0;
    for _ in 0..max {
        let until = all.len();
        for i in from..until {
            for c in ALPHABET {
                let mut longer = all[i].clone();
                longer.push(c);
                all.push(longer);
            }
        }
        from = until;
    }
    all
}

fn concat(a: &[u8], b: &[u8]) -> Vec<u8> {
    let mut both = a.to_vec();
    both.extend_from_slice(b);
    both
}

/// The headers and the closing terminator of `section`, if it is a whole
/// section and nothing more.
fn whole_section(section: &[u8]) -> Option<(Vec<Header>, Vec<u8>)> {
    match headers(section) {
        Ok((rest, (found, true))) if rest.is_empty() => {
            let mut i = section;
            for _ in 0..found.len() {
                i = header(i).unwrap().0;
            }
            let (behind, end) = complete_eol(i).unwrap();
            assert!(behind.is_empty());
            Some((found, end.to_vec()))
        }
        _ => None,
    }
}

#[test]
fn a_decision_on_a_header_is_not_changed_by_more_bytes() {
    for s in strings(6) {
        let whole = header(&s);
        for k in 0..s.len() {
            match header(&s[..k]) {
                Ok((rest, found)) => {
                    let left = concat(rest, &s[k..]);
                    assert_eq!(whole, Ok((&left[..], found)));
                }
                Err(ParseError::Failure) => assert_eq!(whole, Err(ParseError::Failure)),
                Err(ParseError::Incomplete) => {}
            }
        }
    }
}

#[test]
fn a_section_in_two_feeds_is_the_section_in_one() {
    let mut sections = 0;
    for s in strings(7) {
        let (found, end) = match whole_section(&s) {
            Some(section) => section,
            None => continue,
        };
        sections += 1;
        for k in 0..=s.len() - end.len() {
            let first = &s[..k];
            let (mut all, left) = match headers(first) {
                Ok((rest, (some, closed))) => {
                    assert!(!closed);
                    (some, rest.to_vec())
                }
                Err(e) => {
                    assert_eq!(e, ParseError::Incomplete);
                    (Vec::new(), first.to_vec())
                }
            };
            let second = concat(&left, &s[k..]);
            let (rest, (later, closed)) = headers(&second).unwrap();
            all.extend(later);
            assert!(closed);
            assert!(rest.is_empty());
            assert_eq!(all, found);
        }
    }
    assert!(sections > 1000);
}

#[test]
fn bytes_behind_a_section_are_left_as_they_are() {
    let tails = strings(3);
    let mut sections = 0;
    for s in strings(5) {
        let (found, end) = match whole_section(&s) {
            Some(section) => section,
            None => continue,
        };
        sections += 1;
        for t in &tails {
            let closing = concat(&end, t);
            let both = concat(&s, t);
            let (rest, (again, closed)) = headers(&both).unwrap();
            assert_eq!(again, found);
            if complete_eol(&closing) == Ok((&t[..], &end[..])) {
                assert!(closed);
                assert_eq!(rest, &t[..]);
            }
        }
    }
    assert!(sections > 50);
}

#[test]
fn only_leading_whitespace_makes_a_parse_fail() {
    for s in strings(6) {
        let begins_with_space = !s.is_empty() && (s[0] == b' ' || s[0] == b'\t');
        assert_eq!(headers(&s) == Err(ParseError::Failure), begins_with_space);
        assert_eq!(header(&s) == Err(ParseError::Failure), begins_with_space);
        if let Ok((rest, (found, closed))) = headers(&s) {
            assert!(!found.is_empty());
            assert!(rest.len() < s.len());
            assert_eq!(rest, &s[s.len() - rest.len()..]);
            for h in &found {
                assert!(!h.name.name.contains(&b':'));
                assert!(!h.value.value.contains(&b'\r'));
                assert!(!h.value.value.contains(&b'\n'));
                assert_eq!(h.name.flags, 0);
                assert_eq!(h.value.flags, 0);
            }
            if !closed {
                assert_eq!(header(rest), Err(ParseError::Incomplete));
            }
        }
    }
}

#[test]
fn a_parse_that_stopped_can_be_resumed() {
    let mut resumed = 0;
    for s in strings(6) {
        for k in 0..s.len() {
            let (left, mut found) = match headers(&s[..k]) {
                Ok((rest, (found, false))) => (concat(rest, &s[k..]), found),
                _ => continue,
            };
            resumed += 1;
            match headers(&left) {
                Ok((rest, (later, closed))) => {
                    found.extend(later);
                    assert_eq!(headers(&s), Ok((rest, (found, closed))));
                }
                Err(e) => {
                    assert_eq!(e, ParseError::Incomplete);
                    assert_eq!(headers(&s), Ok((&left[..], (found, false))));
                }
            }
        }
    }
    assert!(resumed > 1000);
}
