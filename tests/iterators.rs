use readcon_core::error::ParseError;
use readcon_core::iterators::ConFrameIterator;
use readcon_core::number::Real;
use readcon_core::types::ConFrame;
use readcon_core::writer::ConFrameWriter;

fn r(x: f64) -> Real {
    Real { micros: (x * 1e6).round() as i64 }
}

const TINY_MULTI: &str = "Random Number Seed
Time
7.6590 9.9490 100.0
90.0 90.0 90.0
0 0
0 0 0
2
2 2
63.546 1.00793
Cu
Coordinates of Component 1
0.6394 0.9045 6.9753 1 0
3.1969 0.9045 6.9752 1 1
H
Coordinates of Component 2
7.0 9.0 11.0 0 2
7.9421 9.947 11.733 0 3
Random Number Seed
Time
7.6590 9.9490 100.0
90.0 90.0 90.0
0 0
0 0 0
2
2 2
63.546 1.00793
Cu
Coordinates of Component 1
0.6394 0.9045 6.9753 1 0
3.1969 0.9045 6.9752 1 1
H
Coordinates of Component 2
7.1 9.1 11.1 0 2
7.9422 9.948 11.734 0 3
";

fn collect(text: &str) -> Vec<Result<ConFrame, ParseError>> {
    let mut it = ConFrameIterator::new(text);
    let mut out = Vec::new();
    while let Some(x) = it.next() {
        out.push(x);
    }
    out
}

fn same_frame(a: &ConFrame, b: &ConFrame) -> bool {
    a.header.prebox_header == b.header.prebox_header
        && a.header.boxl == b.header.boxl
        && a.header.angles == b.header.angles
        && a.header.postbox_header == b.header.postbox_header
        && a.header.natm_types == b.header.natm_types
        && a.header.natms_per_type == b.header.natms_per_type
        && a.header.masses_per_type == b.header.masses_per_type
        && a.atom_data.len() == b.atom_data.len()
        && a.atom_data.iter().zip(b.atom_data.iter()).all(|(x, y)| {
            *x.symbol == *y.symbol
                && x.x == y.x
                && x.y == y.y
                && x.z == y.z
                && x.is_fixed == y.is_fixed
                && x.atom_id == y.atom_id
        })
}

#[test]
fn test_multi_parsing() {
    let frames: Vec<ConFrame> = collect(TINY_MULTI)
        .into_iter()
        .map(|result| result.expect("Failed to parse a frame"))
        .collect();
    assert_eq!(frames.len(), 2, "Expected to parse 2 frames, but found {}", frames.len());

    let first_frame = &frames[0];
    assert_eq!(first_frame.header.natm_types, 2);
    assert_eq!(first_frame.header.natms_per_type, vec![2, 2]);
    assert_eq!(first_frame.header.masses_per_type, vec![r(63.546), r(1.00793)]);
    assert_eq!(first_frame.atom_data.len(), 4);

    let first_atom = &first_frame.atom_data[0];
    assert_eq!(*first_atom.symbol, "Cu");
    assert_eq!(first_atom.x, r(0.6394));
    assert_eq!(first_atom.y, r(0.9045));
    assert_eq!(first_atom.z, r(6.9753));
    assert_eq!(first_atom.is_fixed, true);
    assert_eq!(first_atom.atom_id, 0);

    let last_atom = first_frame.atom_data.last().unwrap();
    assert_eq!(*last_atom.symbol, "H");
    assert_eq!(last_atom.x, r(7.9421));
    assert_eq!(last_atom.y, r(9.947));
    assert_eq!(last_atom.z, r(11.733));
    assert_eq!(last_atom.is_fixed, false);
    assert_eq!(last_atom.atom_id, 3);

    let second_frame = &frames[1];
    assert_eq!(second_frame.header.natm_types, 2);
    assert_eq!(second_frame.header.natms_per_type, vec![2, 2]);
    assert_eq!(second_frame.header.masses_per_type, vec![r(63.546), r(1.00793)]);
    assert_eq!(second_frame.atom_data.len(), 4);

    let second_atom = &second_frame.atom_data[1];
    assert_eq!(*second_atom.symbol, "Cu");
    assert_eq!(second_atom.x, r(3.1969));
    assert_eq!(second_atom.y, r(0.9045));
    assert_eq!(second_atom.z, r(6.9752));
    assert_eq!(second_atom.is_fixed, true);
    assert_eq!(second_atom.atom_id, 1);
}

#[test]
fn test_iterator_forward() {
    let mut parser = ConFrameIterator::new(TINY_MULTI);
    let forward_result = parser.forward();
    assert!(forward_result.is_some(), "Forward should succeed on the first frame");
    assert!(forward_result.unwrap().is_ok(), "Forward result should be Ok");
    let second_frame_result = parser.next();
    assert!(second_frame_result.is_some(), "Should be able to get the second frame after forwarding");
    let second_frame = second_frame_result.unwrap().expect("Parsing second frame should succeed");
    assert_eq!(second_frame.atom_data.len(), 4);
    let second_atom = &second_frame.atom_data[1];
    assert_eq!(*second_atom.symbol, "Cu");
    assert_eq!(second_atom.x, r(3.1969));
    assert_eq!(second_atom.y, r(0.9045));
    assert_eq!(second_atom.z, r(6.9752));
    assert_eq!(second_atom.is_fixed, true);
    assert_eq!(second_atom.atom_id, 1);
    assert_eq!(second_frame.atom_data[3].x, r(7.9422));
    assert!(parser.next().is_none(), "There should be no more frames after the second one");

    let mut parser2 = ConFrameIterator::new(TINY_MULTI);
    let first_frame_result = parser2.next();
    assert!(first_frame_result.is_some(), "Should be able to get the first frame");
    first_frame_result.unwrap().expect("Parsing first frame should succeed");
    let forward_result_2 = parser2.forward();
    assert!(forward_result_2.is_some(), "Forward should succeed on the second frame");
    assert!(forward_result_2.unwrap().is_ok(), "Forward result should be Ok");
    assert!(parser2.next().is_none(), "There should be no more frames after forwarding past the last one");
}

#[test]
fn skipping_every_frame_reaches_the_end() {
    let mut it = ConFrameIterator::new(TINY_MULTI);
    assert!(matches!(it.forward(), Some(Ok(()))));
    assert!(matches!(it.forward(), Some(Ok(()))));
    assert!(it.forward().is_none());
    assert!(it.next().is_none());
}

#[test]
fn forward_then_next_matches_full_decode() {
    let all = collect(TINY_MULTI);
    let mut it = ConFrameIterator::new(TINY_MULTI);
    it.forward().unwrap().unwrap();
    let second = it.next().unwrap().unwrap();
    assert!(same_frame(&second, all[1].as_ref().unwrap()));
}

#[test]
fn trailing_incomplete_frame_gives_one_error() {
    let text = format!("{}A\nB\n1 1 1\n", TINY_MULTI);
    let items = collect(&text);
    assert_eq!(items.len(), 3);
    assert!(items[0].is_ok() && items[1].is_ok());
    assert!(matches!(items[2], Err(ParseError::IncompleteHeader)));
}

#[test]
fn forward_on_short_frame_is_incomplete_frame() {
    let text = "A\nB\n1 1 1\n90 90 90\nC\nD\n1\n3\n1.0\nX\nCoordinates of Component 1\n0 0 0 0 1\n";
    let mut it = ConFrameIterator::new(text);
    assert!(matches!(it.forward(), Some(Err(ParseError::IncompleteFrame))));
    assert!(it.forward().is_none());
    let mut it2 = ConFrameIterator::new(text);
    assert!(matches!(it2.next(), Some(Err(ParseError::IncompleteFrame))));
    assert!(it2.next().is_none());
}

#[test]
fn forward_fails_like_next_on_bad_header() {
    let text = "A\nB\n1 1\n90 90 90\nC\nD\n1\n1\n1.0\nX\nCoordinates of Component 1\n0 0 0 0 1\n";
    let mut a = ConFrameIterator::new(text);
    let mut b = ConFrameIterator::new(text);
    assert!(matches!(
        a.forward(),
        Some(Err(ParseError::InvalidVectorLength { expected: 3, found: 2 }))
    ));
    assert!(matches!(
        b.next(),
        Some(Err(ParseError::InvalidVectorLength { expected: 3, found: 2 }))
    ));
}

#[test]
fn empty_text_has_no_frames() {
    let mut it = ConFrameIterator::new("");
    assert!(it.next().is_none());
    assert!(it.forward().is_none());
}

#[test]
fn test_writer_roundtrip() {
    let frames_first: Vec<ConFrame> =
        collect(TINY_MULTI).into_iter().map(|r| r.unwrap()).collect();
    assert!(!frames_first.is_empty());

    let mut writer = ConFrameWriter::new();
    writer.extend(&frames_first);
    let fdat_roundtrip = writer.into_string();
    let frames_roundtrip: Vec<ConFrame> =
        collect(&fdat_roundtrip).into_iter().map(|r| r.unwrap()).collect();

    assert_eq!(
        frames_first.len(),
        frames_roundtrip.len(),
        "Number of frames should be the same after roundtrip."
    );
    assert_eq!(
        frames_first, frames_roundtrip,
        "Frame data should be identical after a read-write-read roundtrip."
    );
    for (a, b) in frames_first.iter().zip(frames_roundtrip.iter()) {
        assert!(same_frame(a, b));
    }
}

#[test]
fn writer_output_layout() {
    let text = "A\nB\n10 10.5 -1\n90 90 90\nC\nD\n2\n1 0\n1.5 2\nX\nCoordinates of Component 1\n-0.0000004 1.25 3 1 7\nY\nCoordinates of Component 2\n";
    let frames: Vec<ConFrame> = collect(text).into_iter().map(|r| r.unwrap()).collect();
    let mut w = ConFrameWriter::new();
    w.write_frame(&frames[0]);
    assert_eq!(
        w.as_str(),
        "A\nB\n10.000000 10.500000 -1.000000\n90.000000 90.000000 90.000000\nC\nD\n2\n1 0\n1.500000 2.000000\nX\nCoordinates of Component 1\n0.000000 1.250000 3.000000 1 7\n\nCoordinates of Component 2\n"
    );
}

#[test]
fn frame_equality_compares_label_text() {
    let frames: Vec<ConFrame> = collect(TINY_MULTI).into_iter().map(|r| r.unwrap()).collect();
    assert_eq!(frames[0].header, frames[1].header);
    assert_ne!(frames[0], frames[1]);
    assert_eq!(frames[0].atom_data[0], frames[1].atom_data[0]);
    assert_ne!(frames[0].atom_data[0], frames[0].atom_data[1]);
}
