use hb_high::deck::{parse_f32, parse_f64, parse_i32, DeckError, ListReader};

fn real4(literal: String) -> f32 {
    literal.parse::<f32>().unwrap()
}

fn real8(literal: String) -> f64 {
    literal.parse::<f64>().unwrap()
}

#[test]
fn blank_leading_record_is_skipped() {
    // A deck's first line is blank and the first read still lands on its first field.
    let mut r = ListReader::new("\n50.0\nnext\n");
    assert_eq!(real4(r.real4().unwrap()), 50.0);
    assert_eq!(r.read_char().unwrap(), "next");
}

#[test]
fn a_read_spans_records_until_full() {
    // A bare 0, then "-1 -1 -1". One read of three items takes the 0 and then two from the
    // next record.
    let mut r = ListReader::new("0\n-1 -1 -1\n0\n");
    let v = r.read_values(3).unwrap();
    assert_eq!(
        v.iter()
            .map(|x| x.as_deref().unwrap())
            .collect::<Vec<_>>(),
        ["0", "-1", "-1"]
    );
    // The third -1 is discarded: the next read starts at a fresh record.
    assert_eq!(r.i32().unwrap(), 0);
}

#[test]
fn leftovers_on_a_record_are_discarded() {
    let mut r = ListReader::new("1 2 3\n4\n");
    assert_eq!(r.i32().unwrap(), 1);
    assert_eq!(r.i32().unwrap(), 4, "2 and 3 must be discarded");
}

#[test]
fn slash_terminates_the_read() {
    let mut r = ListReader::new("1 2 / 3 4\n9\n");
    let v = r.read_values(4).unwrap();
    assert_eq!(v.len(), 2, "slash ends the read, leaving items unset");
    assert_eq!(r.i32().unwrap(), 9);
}

#[test]
fn repeat_counts_expand() {
    let mut r = ListReader::new("3*1.5 2.5\n");
    let v = r.read_values(4).unwrap();
    let got: Vec<&str> = v.iter().map(|x| x.as_deref().unwrap()).collect();
    assert_eq!(got, ["1.5", "1.5", "1.5", "2.5"]);
}

#[test]
fn null_values_are_reported_as_none() {
    let mut r = ListReader::new("1,,3\n");
    let v = r.read_values(3).unwrap();
    assert_eq!(v[0].as_deref(), Some("1"));
    assert_eq!(v[1], None, "a doubled comma leaves the item unchanged");
    assert_eq!(v[2].as_deref(), Some("3"));
}

#[test]
fn commas_and_blanks_both_separate() {
    let mut r = ListReader::new("1, 2 ,3   4\n");
    let v = r.read_values(4).unwrap();
    let got: Vec<&str> = v.iter().map(|x| x.as_deref().unwrap()).collect();
    assert_eq!(got, ["1", "2", "3", "4"]);
}

#[test]
fn fortran_exponent_markers() {
    assert_eq!(real8(parse_f64("1.0d+00").unwrap()), 1.0);
    assert_eq!(real8(parse_f64("2.5D-2").unwrap()), 0.025);
    assert_eq!(real4(parse_f32("1.0E5").unwrap()), 1.0e5);
    // Marker omitted entirely.
    assert_eq!(real4(parse_f32("1.5+3").unwrap()), 1500.0);
    assert_eq!(real4(parse_f32("-1.5").unwrap()), -1.5);
    assert_eq!(real4(parse_f32("+2").unwrap()), 2.0);
}

#[test]
fn filename_is_cut_at_the_first_blank() {
    // Not a trim: an embedded space truncates the path.
    let mut r = ListReader::new("/tmp/out.bin   \n/tmp/has space/x\n");
    assert_eq!(r.read_filename().unwrap(), "/tmp/out.bin");
    assert_eq!(r.read_filename().unwrap(), "/tmp/has");
}

#[test]
fn count_and_list_is_one_read() {
    // The whole list on one record. Reading the count separately would discard the rest of the
    // line.
    let mut r = ListReader::new("2 1 3\nnext\n");
    let (n, items) = r.read_count_and_list().unwrap();
    assert_eq!(n, 2);
    assert_eq!(
        items
            .iter()
            .map(|x| x.as_deref().unwrap())
            .collect::<Vec<_>>(),
        ["1", "3"]
    );
    assert_eq!(r.read_char().unwrap(), "next");
}

#[test]
fn count_and_list_spans_records() {
    let mut r = ListReader::new("3\n7 8\n9\nafter\n");
    let (n, items) = r.read_count_and_list().unwrap();
    assert_eq!(n, 3);
    assert_eq!(
        items
            .iter()
            .map(|x| x.as_deref().unwrap())
            .collect::<Vec<_>>(),
        ["7", "8", "9"]
    );
    assert_eq!(r.read_char().unwrap(), "after");
}

#[test]
fn eof_during_a_read_is_an_error() {
    let mut r = ListReader::new("1 2\n");
    assert!(matches!(
        r.read_values(5),
        Err(DeckError::UnexpectedEof { .. })
    ));
}

#[test]
fn the_end_says_how_much_was_read() {
    let mut r = ListReader::new("1 2\n");
    assert!(matches!(
        r.read_values(5),
        Err(DeckError::UnexpectedEof { wanted: 5, got: 2 })
    ));
    // A read that fails does not move on.
    assert_eq!(r.i32().unwrap(), 1);
    assert!(matches!(
        r.read_char(),
        Err(DeckError::UnexpectedEof { wanted: 1, got: 0 })
    ));
    assert!(matches!(
        r.read_filename(),
        Err(DeckError::UnexpectedEof { wanted: 1, got: 0 })
    ));
}

#[test]
fn a_token_that_is_no_number_is_named() {
    let refused = ListReader::new("abc\n").i32();
    assert!(
        matches!(&refused, Err(DeckError::BadNumber { token, kind }) if token == "abc" && *kind == "integer")
    );
    let refused = parse_f32("1.2.3");
    assert!(
        matches!(&refused, Err(DeckError::BadNumber { token, kind }) if token == "1.2.3" && *kind == "real*4")
    );
    let refused = parse_f64("");
    assert!(
        matches!(&refused, Err(DeckError::BadNumber { token, kind }) if token.is_empty() && *kind == "real*8")
    );
    // A null is no number either.
    assert!(matches!(
        ListReader::new(",\n").i32(),
        Err(DeckError::BadNumber { .. })
    ));
}

#[test]
fn integers_are_cut_and_held() {
    for (token, want) in [
        ("7", 7),
        ("+7", 7),
        ("-7", -7),
        ("1.0", 1),
        ("-1.9", -1),
        ("1e3", 1000),
        ("1d2", 100),
        ("25e-1", 2),
        (".5", 0),
        ("5.", 5),
        // The double nearest to this is one.
        ("0.99999999999999999999", 1),
        // This one is not.
        ("0.9999999999999999", 0),
        ("2147483647", i32::MAX),
        ("2147483648", i32::MAX),
        ("-2147483649", i32::MIN),
        ("3e10", i32::MAX),
        ("-1e999999999999", i32::MIN),
        ("1e-999999999999", 0),
        ("inf", i32::MAX),
        ("-Infinity", i32::MIN),
        ("nan", 0),
    ] {
        assert_eq!(parse_i32(token).unwrap(), want, "{token}");
    }
    for token in ["", "+", "-", ".", "e5", "1e", "1e+", "0x10", "1 2", "--1"] {
        assert!(parse_i32(token).is_err(), "{token}");
    }
}

#[test]
fn whole_tokens_agree_with_the_standard_parser() {
    for token in [
        "0", "12.75", "-0.0", "1e10", "123456.789", "4294967296", "-99999.5e-3", "6.02e23",
        "2147483646.9999998", "1.9999999999999998", "1.99999999999999999",
    ] {
        let want = token
            .parse::<i32>()
            .unwrap_or_else(|_| token.parse::<f64>().unwrap() as i32);
        assert_eq!(parse_i32(token).unwrap(), want, "{token}");
    }
}

#[test]
fn nothing_after_a_slash_counts() {
    let mut a = ListReader::new("1 2 / 3 4\n9\n");
    let mut b = ListReader::new("1 2 / junk , , 7*\n9\n");
    assert_eq!(a.read_values(4).unwrap(), b.read_values(4).unwrap());
    assert_eq!(a.i32().unwrap(), b.i32().unwrap());
}

#[test]
fn blank_records_change_nothing() {
    let mut a = ListReader::new("1\n2\n3\n");
    let mut b = ListReader::new("\n1\n   \n2\n\t\n3\n");
    assert_eq!(a.read_values(3).unwrap(), b.read_values(3).unwrap());
}

#[test]
fn a_repeat_without_a_value_is_a_token() {
    let v = ListReader::new("2*,5 x*1\n").read_values(3).unwrap();
    let got: Vec<&str> = v.iter().map(|x| x.as_deref().unwrap()).collect();
    assert_eq!(got, ["2*", "5", "x*1"]);
}

#[test]
fn a_comma_with_nothing_before_it_is_a_null() {
    let v = ListReader::new(",5,,7,\n").read_values(4).unwrap();
    assert_eq!(
        v,
        [None, Some("5".to_string()), None, Some("7".to_string())]
    );
}

#[test]
fn a_negative_count_has_no_list() {
    let (n, items) = ListReader::new("-3 1 2\n").read_count_and_list().unwrap();
    assert_eq!((n, items.len()), (-3, 0));
}

#[test]
fn a_slash_leaves_places_of_the_list_empty() {
    let mut r = ListReader::new("3 7 /\nnext\n");
    let (n, items) = r.read_count_and_list().unwrap();
    assert_eq!(n, 3);
    assert_eq!(items, [Some("7".to_string()), None, None]);
    assert_eq!(r.read_char().unwrap(), "next");
    let (n, items) = ListReader::new("2 /\n").read_count_and_list().unwrap();
    assert_eq!((n, items), (2, vec![None, None]));
}
