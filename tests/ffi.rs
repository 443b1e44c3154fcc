use readcon_core::ffi::{
    con_frame_iterator_next, create_writer, group_by_label, read_con_file_iterator,
    rkr_frame_get_header_line, rkr_frame_get_header_line_cpp, rkr_frame_to_c_frame,
    rkr_writer_extend, writer_contents, MAX_TYPES,
};
use readcon_core::number::Real;
use readcon_core::types::AtomDatum;
use std::rc::Rc;

const TWO_TYPES: &str = "PRE1\nPRE2\n1 2 3\n90 90 90\nPOST1\nPOST2\n2\n1 2\n12.011 1.008\nC\nCoordinates of Component 1\n0 0 0 1 5\nH\nCoordinates of Component 2\n1 1 1 0 6\n2 2 2 0 7\n";

fn many_types(n: usize) -> String {
    let mut s = String::from("P\nQ\n1 1 1\n90 90 90\nR\nS\n");
    s.push_str(&format!("{}\n", n));
    s.push_str(&vec!["1"; n].join(" "));
    s.push('\n');
    s.push_str(&vec!["1.0"; n].join(" "));
    s.push('\n');
    for i in 0..n {
        s.push_str(&format!("T{}\nCoordinates of Component {}\n0 0 0 0 {}\n", i, i + 1, i));
    }
    s
}

#[test]
fn plain_frame_copies_atoms_and_masses() {
    let mut it = read_con_file_iterator(TWO_TYPES);
    let h = con_frame_iterator_next(&mut it).unwrap();
    let c = rkr_frame_to_c_frame(&h).unwrap();
    assert_eq!(c.num_atoms, 3);
    assert_eq!(c.natm_types, 2);
    assert_eq!(c.natms_per_type[0], 1);
    assert_eq!(c.natms_per_type[1], 2);
    assert_eq!(c.natms_per_type[2], 0);
    assert_eq!(c.cell, [Real { micros: 1000000 }, Real { micros: 2000000 }, Real { micros: 3000000 }]);
    assert_eq!(c.atoms[0].type_index, 0);
    assert_eq!(c.atoms[0].mass, Real { micros: 12011000 });
    assert!(c.atoms[0].is_fixed);
    assert_eq!(c.atoms[2].type_index, 1);
    assert_eq!(c.atoms[2].mass, Real { micros: 1008000 });
    assert_eq!(c.atoms[2].atom_id, 7);
    assert!(con_frame_iterator_next(&mut it).is_none());
}

#[test]
fn plain_frame_fails_past_capacity() {
    let text = many_types(MAX_TYPES + 1);
    let mut it = read_con_file_iterator(&text);
    let h = con_frame_iterator_next(&mut it).unwrap();
    assert!(rkr_frame_to_c_frame(&h).is_none());

    let text = many_types(MAX_TYPES);
    let mut it = read_con_file_iterator(&text);
    let h = con_frame_iterator_next(&mut it).unwrap();
    let c = rkr_frame_to_c_frame(&h).unwrap();
    assert_eq!(c.natm_types, MAX_TYPES);
    assert_eq!(c.atoms[MAX_TYPES - 1].type_index as usize, MAX_TYPES - 1);
}

#[test]
fn failed_frame_gives_no_handle() {
    let mut it = read_con_file_iterator("A\nB\n1 1\n");
    assert!(con_frame_iterator_next(&mut it).is_none());
}

#[test]
fn header_line_into_buffer_truncates_and_terminates() {
    let mut it = read_con_file_iterator(TWO_TYPES);
    let h = con_frame_iterator_next(&mut it).unwrap();
    let mut buf = vec![9u8; 4];
    assert_eq!(rkr_frame_get_header_line(&h, true, 0, &mut buf), 3);
    assert_eq!(buf, vec![b'P', b'R', b'E', 0]);
    let mut big = vec![9u8; 8];
    assert_eq!(rkr_frame_get_header_line(&h, false, 1, &mut big), 5);
    assert_eq!(big, vec![b'P', b'O', b'S', b'T', b'2', 0, 9, 9]);
    assert_eq!(rkr_frame_get_header_line(&h, true, 2, &mut big), -1);
    let mut empty: Vec<u8> = Vec::new();
    assert_eq!(rkr_frame_get_header_line(&h, true, 0, &mut empty), -1);
}

#[test]
fn header_line_as_string() {
    let mut it = read_con_file_iterator(TWO_TYPES);
    let h = con_frame_iterator_next(&mut it).unwrap();
    assert_eq!(rkr_frame_get_header_line_cpp(&h, false, 0).unwrap(), "POST1");
    assert!(rkr_frame_get_header_line_cpp(&h, false, 2).is_none());
    let mut it = read_con_file_iterator("A\0B\nB\n1 1 1\n1 1 1\nC\nD\n0\n\n\n");
    let h = con_frame_iterator_next(&mut it).unwrap();
    assert!(rkr_frame_get_header_line_cpp(&h, true, 0).is_none());
    assert_eq!(rkr_frame_get_header_line_cpp(&h, true, 1).unwrap(), "B");
}

#[test]
fn batch_write_is_all_or_nothing() {
    let mut it = read_con_file_iterator(TWO_TYPES);
    let h = con_frame_iterator_next(&mut it).unwrap();
    let mut w = create_writer();
    assert_eq!(rkr_writer_extend(&mut w, &vec![Some(&h), None]), -1);
    assert_eq!(writer_contents(&w), "");
    assert_eq!(rkr_writer_extend(&mut w, &vec![Some(&h), Some(&h)]), 0);
    let text = writer_contents(&w).to_string();
    let mut back = read_con_file_iterator(&text);
    assert!(con_frame_iterator_next(&mut back).is_some());
    assert!(con_frame_iterator_next(&mut back).is_some());
    assert!(con_frame_iterator_next(&mut back).is_none());
}

fn atom(label: &Rc<String>, id: u64) -> AtomDatum {
    AtomDatum {
        symbol: label.clone(),
        x: Real { micros: 0 },
        y: Real { micros: 0 },
        z: Real { micros: 0 },
        is_fixed: false,
        atom_id: id,
    }
}

#[test]
fn regrouping_by_first_seen_label() {
    let h = Rc::new(String::from("H"));
    let c = Rc::new(String::from("C"));
    let atoms = vec![atom(&h, 1), atom(&c, 2), atom(&h, 3), atom(&c, 4), atom(&h, 5)];
    let (out, counts) = group_by_label(&atoms);
    assert_eq!(counts, vec![3, 2]);
    assert_eq!(out.iter().map(|a| a.atom_id).collect::<Vec<_>>(), vec![1, 3, 5, 2, 4]);
    assert_eq!(*out[3].symbol, "C");
    let (none, no_counts) = group_by_label(&Vec::new());
    assert!(none.is_empty() && no_counts.is_empty());
}

#[test]
fn frame_from_unordered_atoms_writes_grouped_blocks() {
    let h = Rc::new(String::from("H"));
    let c = Rc::new(String::from("C"));
    let atoms = vec![atom(&h, 1), atom(&c, 2), atom(&h, 3)];
    let one = Real { micros: 1000000 };
    let frame = readcon_core::ffi::rkr_frame_from_atoms(
        [String::from("a"), String::from("b")],
        [one, one, one],
        [one, one, one],
        [String::from("c"), String::from("d")],
        &atoms,
        vec![Real { micros: 1008000 }, Real { micros: 12011000 }],
    )
    .unwrap();
    assert!(readcon_core::ffi::rkr_frame_from_atoms(
        [String::from("a"), String::from("b")],
        [one, one, one],
        [one, one, one],
        [String::from("c"), String::from("d")],
        &atoms,
        vec![one],
    )
    .is_none());
    let f = frame.frame();
    assert_eq!(f.header.natms_per_type, vec![2, 1]);
    assert_eq!(f.header.natm_types, 2);
    let mut w = create_writer();
    assert_eq!(rkr_writer_extend(&mut w, &vec![Some(&frame)]), 0);
    assert_eq!(
        writer_contents(&w),
        "a\nb\n1.000000 1.000000 1.000000\n1.000000 1.000000 1.000000\nc\nd\n2\n2 1\n1.008000 12.011000\nH\nCoordinates of Component 1\n0.000000 0.000000 0.000000 0 1\n0.000000 0.000000 0.000000 0 3\nC\nCoordinates of Component 2\n0.000000 0.000000 0.000000 0 2\n"
    );
}
