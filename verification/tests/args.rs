use fastbrackets::{args_accepted, parse_usize, Args, IntErrorKind, ParseArgsError};

#[test]
#[should_panic]
fn parse_invalid_args() {
    let args = "a,b";
    let _parsed_args = Args::from_raw(args).unwrap();
}

#[test]
fn args_fields() {
    let a = Args::from_raw("3,5,zle-line-init,echo (a, b)").unwrap();
    assert_eq!(a.bracket_color_size, 3);
    assert_eq!(a.cursor, 5);
    assert_eq!(a.widget, "zle-line-init");
    assert_eq!(a.buf, "echo (a, b)");
}

#[test]
fn args_empty_buffer() {
    let a = Args::from_raw("0,0,,").unwrap();
    assert_eq!(a.widget, "");
    assert_eq!(a.buf, "");
}

#[test]
fn args_errors() {
    assert_eq!(Args::from_raw("a,b").err(), Some(ParseArgsError::BracketColorSize(IntErrorKind::InvalidDigit)));
    assert_eq!(Args::from_raw(",1,w,b").err(), Some(ParseArgsError::BracketColorSize(IntErrorKind::Empty)));
    assert_eq!(Args::from_raw("3,x,w,b").err(), Some(ParseArgsError::Cursor(IntErrorKind::InvalidDigit)));
}

#[test]
fn args_acceptance() {
    assert!(args_accepted("a,b"));
    assert!(args_accepted("1,b"));
    assert!(!args_accepted("1"));
    assert!(!args_accepted("1,2"));
    assert!(!args_accepted("1,2,w"));
    assert!(args_accepted("1,2,w,"));
    assert!(args_accepted("x"));
}

#[test]
fn parse_usize_cases() {
    assert_eq!(parse_usize("42"), Ok(42));
    assert_eq!(parse_usize("+7"), Ok(7));
    assert_eq!(parse_usize("007"), Ok(7));
    assert_eq!(parse_usize(""), Err(IntErrorKind::Empty));
    assert_eq!(parse_usize("+"), Err(IntErrorKind::InvalidDigit));
    assert_eq!(parse_usize("-"), Err(IntErrorKind::InvalidDigit));
    assert_eq!(parse_usize("-1"), Err(IntErrorKind::InvalidDigit));
    assert_eq!(parse_usize("1x"), Err(IntErrorKind::InvalidDigit));
    assert_eq!(parse_usize("٣"), Err(IntErrorKind::InvalidDigit));
    assert_eq!(parse_usize(&usize::MAX.to_string()), Ok(usize::MAX));
    assert_eq!(parse_usize("99999999999999999999999x"), Err(IntErrorKind::PosOverflow));
    for s in ["0", "12", "+3", "-3", "", "+", "1 ", " 1", "999999999999999999999"] {
        let ours = parse_usize(s);
        let std_kind = s.parse::<usize>().map_err(|e| e.kind().clone());
        match (ours, std_kind) {
            (Ok(a), Ok(b)) => assert_eq!(a, b),
            (Err(a), Err(b)) => assert_eq!(format!("{:?}", a), format!("{:?}", b)),
            (a, b) => panic!("{:?} vs {:?} on {:?}", a, b, s),
        }
    }
}
