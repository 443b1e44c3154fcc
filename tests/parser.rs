use readcon_core::error::ParseError;
use readcon_core::number::Real;
use readcon_core::parser::{parse_frame_header, parse_line_of_n, parse_single_frame, LineCursor};

fn r(x: f64) -> Real {
    Real { micros: (x * 1e6).round() as i64 }
}

#[test]
fn test_parse_line_of_n_success() {
    let line = "1.0 2.5 -3.0";
    let values = parse_line_of_n::<Real>(line, 3).unwrap();
    assert_eq!(values, vec![r(1.0), r(2.5), r(-3.0)]);
}

#[test]
fn test_parse_line_of_n_too_short() {
    let line = "1.0 2.5";
    let result = parse_line_of_n::<Real>(line, 3);
    assert!(result.is_err());
    assert!(matches!(
        result.unwrap_err(),
        ParseError::InvalidVectorLength {
            expected: 3,
            found: 2
        }
    ));
}

#[test]
fn test_parse_line_of_n_too_long() {
    let line = "1.0 2.5 -3.0 4.0";
    let result = parse_line_of_n::<Real>(line, 3);
    assert!(result.is_err());
    assert!(matches!(
        result.unwrap_err(),
        ParseError::InvalidVectorLength {
            expected: 3,
            found: 4
        }
    ));
}

#[test]
fn test_parse_line_of_n_invalid_float() {
    let line = "1.0 abc -3.0";
    let result = parse_line_of_n::<Real>(line, 3);
    assert!(result.is_err());
    assert!(matches!(
        result.unwrap_err(),
        ParseError::InvalidNumberFormat(_)
    ));
}

#[test]
fn parse_line_of_n_reports_first_bad_token() {
    match parse_line_of_n::<Real>("1.0 x2 y3", 3) {
        Err(ParseError::InvalidNumberFormat(s)) => assert_eq!(s, "x2"),
        other => panic!("unexpected {:?}", other),
    }
}

#[test]
fn parse_line_of_n_format_error_before_count_error() {
    assert!(matches!(
        parse_line_of_n::<Real>("1.0 abc", 3),
        Err(ParseError::InvalidNumberFormat(_))
    ));
}

#[test]
fn parse_line_of_n_integers() {
    assert_eq!(parse_line_of_n::<usize>("  3\t+4 05 ", 3).unwrap(), vec![3, 4, 5]);
    assert!(matches!(
        parse_line_of_n::<usize>("1.5", 1),
        Err(ParseError::InvalidNumberFormat(_))
    ));
    assert!(matches!(
        parse_line_of_n::<usize>("-1", 1),
        Err(ParseError::InvalidNumberFormat(_))
    ));
    assert!(matches!(
        parse_line_of_n::<usize>("99999999999999999999999", 1),
        Err(ParseError::InvalidNumberFormat(_))
    ));
    assert_eq!(parse_line_of_n::<usize>("", 0).unwrap(), Vec::<usize>::new());
}

#[test]
fn parse_real_forms_and_rounding() {
    let v = parse_line_of_n::<Real>(".5 5. +2 -0.25 0.1234565 0.63939999999999997 -0.00009999999999977", 7)
        .unwrap();
    assert_eq!(
        v,
        vec![
            Real { micros: 500000 },
            Real { micros: 5000000 },
            Real { micros: 2000000 },
            Real { micros: -250000 },
            Real { micros: 123457 },
            Real { micros: 639400 },
            Real { micros: -100 },
        ]
    );
    for bad in [".", "-", "1.2.3", "1e5", "nan", "9223372036855"] {
        assert!(
            matches!(parse_line_of_n::<Real>(bad, 1), Err(ParseError::InvalidNumberFormat(_))),
            "{}",
            bad
        );
    }
    assert_eq!(
        parse_line_of_n::<Real>("9223372036854.775807", 1).unwrap(),
        vec![Real { micros: i64::MAX }]
    );
}

#[test]
fn test_parse_frame_header_success() {
    let lines = vec![
        "PREBOX1",
        "PREBOX2",
        "10.0 20.0 30.0",
        "90.0 90.0 90.0",
        "POSTBOX1",
        "POSTBOX2",
        "2",
        "1 1",
        "12.011 1.008",
    ];
    let mut line_it = LineCursor::from_lines(&lines);
    match parse_frame_header(&mut line_it) {
        Ok(header) => {
            assert_eq!(header.prebox_header, ["PREBOX1", "PREBOX2"]);
            assert_eq!(header.boxl, [r(10.0), r(20.0), r(30.0)]);
            assert_eq!(header.angles, [r(90.0), r(90.0), r(90.0)]);
            assert_eq!(header.postbox_header, ["POSTBOX1", "POSTBOX2"]);
            assert_eq!(header.natm_types, 2);
            assert_eq!(header.natms_per_type, vec![1, 1]);
            assert_eq!(header.masses_per_type, vec![r(12.011), r(1.008)]);
        }
        Err(e) => {
            panic!(
                "Parsing failed when it should have succeeded. Error: {:?}",
                e
            );
        }
    }
}

#[test]
fn test_parse_frame_header_missing_line() {
    let lines = vec![
        "PREBOX1",
        "PREBOX2",
        "10.0 20.0 30.0",
        "90.0 90.0 90.0",
        "POSTBOX1",
        "POSTBOX2",
        "2",
        "1 1",
    ];
    let mut line_it = LineCursor::from_lines(&lines);
    let result = parse_frame_header(&mut line_it);
    assert!(result.is_err());
    assert!(matches!(result.unwrap_err(), ParseError::IncompleteHeader));
}

#[test]
fn test_parse_frame_header_invalid_natms_per_type() {
    let lines = vec![
        "PREBOX1",
        "PREBOX2",
        "10.0 20.0 30.0",
        "90.0 90.0 90.0",
        "POSTBOX1",
        "POSTBOX2",
        "2",
        "1 1 1",
        "12.011 1.008",
    ];
    let mut line_it = LineCursor::from_lines(&lines);
    let result = parse_frame_header(&mut line_it);
    assert!(result.is_err());
    assert!(matches!(
        result.unwrap_err(),
        ParseError::InvalidVectorLength {
            expected: 2,
            found: 3
        }
    ));
}

#[test]
fn header_missing_type_count_line_is_incomplete() {
    let lines = vec!["A", "B", "10 10 10", "90 90 90", "C", "D"];
    let mut cursor = LineCursor::from_lines(&lines);
    assert!(matches!(
        parse_frame_header(&mut cursor),
        Err(ParseError::IncompleteHeader)
    ));
    assert!(cursor.is_empty());
}

#[test]
fn header_failure_leaves_cursor_after_failing_line() {
    let lines = vec!["A", "B", "10 10", "90 90 90", "C", "D", "1", "2", "1.0"];
    let mut cursor = LineCursor::from_lines(&lines);
    assert!(matches!(
        parse_frame_header(&mut cursor),
        Err(ParseError::InvalidVectorLength { expected: 3, found: 2 })
    ));
    assert_eq!(cursor.remaining(), 6);
}

#[test]
fn test_parse_single_frame_success() {
    let lines = vec![
        "PREBOX1",
        "PREBOX2",
        "10.0 20.0 30.0",
        "90.0 90.0 90.0",
        "POSTBOX1",
        "POSTBOX2",
        "2",
        "3 3",
        "12.011 1.008",
        "1",
        "Coordinates of Component 1",
        "0.0 0.0 0.0 0.0 1",
        "1.0940 0.0 0.0 0.0 2",
        "-0.5470 0.9499 0.0 0.0 3",
        "2",
        "Coordinates of Component 2",
        "5.0 5.0 5.0 0.0 4",
        "6.0940 5.0 5.0 0.0 5",
        "5.5470 5.9499 5.0 0.0 6",
    ];
    let mut line_it = LineCursor::from_lines(&lines);
    let frame = parse_single_frame(&mut line_it).unwrap();

    assert_eq!(frame.header.natm_types, 2);
    assert_eq!(frame.header.natms_per_type, vec![3, 3]);
    assert_eq!(frame.header.masses_per_type, vec![r(12.011), r(1.008)]);
    assert_eq!(frame.atom_data.len(), 6);
    assert_eq!(*frame.atom_data[0].symbol, "1");
    assert_eq!(frame.atom_data[0].atom_id, 1);
    assert_eq!(*frame.atom_data[5].symbol, "2");
    assert_eq!(frame.atom_data[5].atom_id, 6);
}

#[test]
fn test_parse_single_frame_missing_line() {
    let lines = vec![
        "PREBOX1",
        "PREBOX2",
        "10.0 20.0 30.0",
        "90.0 90.0 90.0",
        "POSTBOX1",
        "POSTBOX2",
        "2",
        "3 3",
        "12.011 1.008",
        "1",
        "Coordinates of Component 1",
        "0.0 0.0 0.0 0.0 1",
        "1.0940 0.0 0.0 0.0 2",
        "-0.5470 0.9499 0.0 0.0 3",
    ];
    let mut line_it = LineCursor::from_lines(&lines);
    let result = parse_single_frame(&mut line_it);
    assert!(result.is_err());
    assert!(matches!(result.unwrap_err(), ParseError::IncompleteFrame));
}

#[test]
fn test_parse_single_frame_invalid_atom_coords() {
    let lines = vec![
        "PREBOX1",
        "PREBOX2",
        "10.0 20.0 30.0",
        "90.0 90.0 90.0",
        "POSTBOX1",
        "POSTBOX2",
        "2",
        "3 3",
        "12.011 1.008",
        "1",
        "Coordinates of Component 1",
        "0.0 0.0 0.0 0.0 1",
        "1.0940 0.0 0.0 0.0 2",
        "-0.5470 0.9499 0.0 0.0 3",
        "2",
        "Coordinates of Component 2",
        "5.0 5.0 5.0 0.0",
        "6.0940 5.0 5.0 0.0 5",
        "5.5470 5.9499 5.0 0.0 6",
    ];
    let mut line_it = LineCursor::from_lines(&lines);
    let result = parse_single_frame(&mut line_it);
    assert!(result.is_err());
    assert!(matches!(
        result.unwrap_err(),
        ParseError::InvalidVectorLength {
            expected: 5,
            found: 4
        }
    ));
    assert_eq!(line_it.remaining(), 2);
}

#[test]
fn single_type_frame_example() {
    let lines = vec![
        "A", "B", "10 10 10", "90 90 90", "C", "D", "1", "2", "1.0", "X",
        "Coordinates of Component 1", "0 0 0 0 1", "1 0 0 1 2",
    ];
    let mut cursor = LineCursor::from_lines(&lines);
    let frame = parse_single_frame(&mut cursor).unwrap();
    assert_eq!(frame.atom_data.len(), 2);
    assert_eq!(
        frame.atom_data.iter().map(|a| a.is_fixed).collect::<Vec<_>>(),
        vec![false, true]
    );
    assert_eq!(
        frame.atom_data.iter().map(|a| a.atom_id).collect::<Vec<_>>(),
        vec![1, 2]
    );
    assert_eq!(*frame.atom_data[0].symbol, "X");
    assert!(cursor.is_empty());
}

#[test]
fn labels_are_trimmed_and_ids_truncated() {
    let lines = vec![
        "A", "B", "1 1 1", "90 90 90", "C", "D", "1", "2", "4.0", "  Cu \r",
        "Coordinates of Component 1", "0 0 0 0.5 7.9", "0 0 0 0 -3",
    ];
    let mut cursor = LineCursor::from_lines(&lines);
    let frame = parse_single_frame(&mut cursor).unwrap();
    assert_eq!(*frame.atom_data[0].symbol, "Cu");
    assert!(frame.atom_data[0].is_fixed);
    assert_eq!(frame.atom_data[0].atom_id, 7);
    assert_eq!(frame.atom_data[1].atom_id, 0);
}

#[test]
fn decoded_atoms_are_grouped_by_type() {
    let lines = vec![
        "A", "B", "1 1 1", "90 90 90", "C", "D", "3", "2 0 1", "1 2 3", "X",
        "Coordinates of Component 1", "0 0 0 0 1", "0 0 0 0 2", "Y",
        "Coordinates of Component 2", "Z", "Coordinates of Component 3", "0 0 0 0 3",
    ];
    let mut cursor = LineCursor::from_lines(&lines);
    let frame = parse_single_frame(&mut cursor).unwrap();
    let total: usize = frame.header.natms_per_type.iter().sum();
    assert_eq!(total, frame.atom_data.len());
    let labels: Vec<String> = frame.atom_data.iter().map(|a| (*a.symbol).clone()).collect();
    assert_eq!(labels, vec!["X", "X", "Z"]);
}

#[test]
fn unicode_whitespace_separates_tokens() {
    assert_eq!(
        parse_line_of_n::<usize>("1\u{3000}2\u{a0}3\u{2009}4", 4).unwrap(),
        vec![1, 2, 3, 4]
    );
}

#[test]
fn cursor_splits_text_into_lines() {
    let mut cursor = LineCursor::new("a\r\nb\n\nc\r");
    assert_eq!(cursor.remaining(), 4);
    assert!(cursor.skip(4));
    assert!(cursor.is_empty());
    let mut cursor = LineCursor::new("a\nb\n");
    assert_eq!(cursor.remaining(), 2);
    assert!(!cursor.skip(3));
    assert!(cursor.is_empty());
}
