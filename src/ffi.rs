//! The boundary layer: owned values behind handles, and plain fixed-layout
//! records with bounded arrays that a caller without ownership information can
//! read directly.

use vstd::prelude::*;
use crate::iterators::{next_step, ConFrameIterator};
use crate::number::Real;
use crate::parser::atoms_view;
use crate::types::{grouped, sum_counts, AtomDatum, AtomView, ConFrame, FrameView};
use crate::writer::{encode_frames, ConFrameWriter};

verus! {

/// The number of types the per-type arrays of a plain frame hold.
pub const MAX_TYPES: usize = 16;

/// A frame behind a handle; its atoms always come in one run per type.
pub struct RKRConFrame {
    frame: ConFrame,
}

/// A writer behind a handle.
pub struct RKRConFrameWriter {
    writer: ConFrameWriter,
}

/// An iterator behind a handle; it owns the text it reads, which goes away
/// with it.
pub struct CConFrameIterator {
    iterator: ConFrameIterator,
}

/// One atom of a plain frame.
#[derive(Clone, Copy, Debug, PartialEq, Eq, Structural)]
pub struct CAtom {
    /// The index of the atom's type, counted from zero.
    pub type_index: u64,
    pub x: Real,
    pub y: Real,
    pub z: Real,
    pub atom_id: u64,
    /// The mass of the atom's type.
    pub mass: Real,
    pub is_fixed: bool,
}

/// A plain copy of a frame: its atoms, box, and per-type arrays of a fixed
/// capacity, of which the first `natm_types` entries are used.
pub struct CFrame {
    pub atoms: Vec<CAtom>,
    pub num_atoms: usize,
    pub cell: [Real; 3],
    pub angles: [Real; 3],
    pub natm_types: usize,
    pub natms_per_type: [usize; MAX_TYPES],
    pub masses_per_type: [Real; MAX_TYPES],
}

impl View for RKRConFrame {
    type V = FrameView;

    closed spec fn view(&self) -> FrameView {
        self.frame@
    }
}

impl RKRConFrame {
    #[verifier::type_invariant]
    closed spec fn inv(self) -> bool {
        self.frame.wf()
    }

    /// The frame behind the handle.
    pub fn frame(&self) -> (r: &ConFrame)
        ensures
            r@ == self@,
            r.wf(),
    {
        proof {
            use_type_invariant(self);
        }
        &self.frame
    }
}

impl View for CConFrameIterator {
    type V = Seq<Seq<char>>;

    closed spec fn view(&self) -> Seq<Seq<char>> {
        self.iterator@
    }
}

impl View for RKRConFrameWriter {
    type V = Seq<char>;

    closed spec fn view(&self) -> Seq<char> {
        self.writer@
    }
}

/// An iterator handle over the frames of a text, which it keeps.
pub fn read_con_file_iterator(contents: &str) -> (r: CConFrameIterator)
    ensures
        r@ == crate::text::lines_of(contents@),
{
    CConFrameIterator { iterator: ConFrameIterator::new(contents) }
}

/// Reads the next frame; a frame that fails to read gives nothing, as the end
/// of the text does.
pub fn con_frame_iterator_next(iterator: &mut CConFrameIterator) -> (r: Option<RKRConFrame>)
    ensures
        final(iterator)@ == old(iterator)@.skip(next_step(old(iterator)@).1 as int),
        match next_step(old(iterator)@).0 {
            Some(Ok(f)) => r matches Some(h) && h@ == f,
            _ => r is None,
        },
{
    match iterator.iterator.next() {
        Some(Ok(frame)) => Some(RKRConFrame { frame }),
        _ => None,
    }
}

/// A writer handle that has written nothing.
pub fn create_writer() -> (r: RKRConFrameWriter)
    ensures
        r@ == Seq::<char>::empty(),
{
    RKRConFrameWriter { writer: ConFrameWriter::new() }
}

/// The text a writer handle has gathered.
pub fn writer_contents(writer: &RKRConFrameWriter) -> (r: &str)
    ensures
        r@ == writer@,
{
    writer.writer.as_str()
}

/// The type of each atom, counted from zero, when atoms come in one run per
/// type with the given counts.
pub open spec fn type_of(counts: Seq<usize>, j: int) -> int
    decreases counts.len(),
{
    if counts.len() == 0 || j < counts[0] {
        0
    } else {
        1 + type_of(counts.drop_first(), j - counts[0])
    }
}

/// The plain copy of a frame with at most `MAX_TYPES` types.
pub open spec fn plain_atom(f: FrameView, j: int) -> CAtom {
    let t = type_of(f.header.natms_per_type, j);
    CAtom {
        type_index: t as u64,
        x: f.atoms[j].x,
        y: f.atoms[j].y,
        z: f.atoms[j].z,
        atom_id: f.atoms[j].atom_id,
        mass: f.header.masses_per_type[t],
        is_fixed: f.atoms[j].is_fixed,
    }
}

proof fn lemma_type_of_step(counts: Seq<usize>, t: int, off: int, i: int)
    requires
        0 <= t < counts.len(),
        off == sum_counts(counts.take(t)),
        0 <= i < counts[t],
    ensures
        type_of(counts, off + i) == t,
    decreases t,
{
    if t > 0 {
        assert(counts.take(t)[0] == counts[0]);
        assert(counts.take(t).drop_first() =~= counts.drop_first().take(t - 1));
        crate::iterators::lemma_sum_counts_nonneg(counts.drop_first().take(t - 1));
        assert(off == counts[0] + sum_counts(counts.drop_first().take(t - 1)));
        lemma_type_of_step(counts.drop_first(), t - 1, off - counts[0], i);
        assert(type_of(counts, off + i) == 1 + type_of(counts.drop_first(), off + i - counts[0]));
    } else {
        assert(counts.take(0) =~= Seq::<usize>::empty());
    }
}

proof fn lemma_sum_take_step(counts: Seq<usize>, t: int)
    requires
        0 <= t < counts.len(),
    ensures
        sum_counts(counts.take(t + 1)) == sum_counts(counts.take(t)) + counts[t],
    decreases t,
{
    if t > 0 {
        assert(counts.take(t + 1).drop_first() =~= counts.drop_first().take(t));
        assert(counts.take(t).drop_first() =~= counts.drop_first().take(t - 1));
        lemma_sum_take_step(counts.drop_first(), t - 1);
    } else {
        assert(counts.take(1).drop_first() =~= Seq::<usize>::empty());
        assert(counts.take(0) =~= Seq::<usize>::empty());
    }
}

proof fn lemma_sum_take_all(counts: Seq<usize>)
    ensures
        sum_counts(counts.take(counts.len() as int)) == sum_counts(counts),
{
    assert(counts.take(counts.len() as int) =~= counts);
}

/// Copies a frame into a plain record. Fails, writing nothing, when the frame
/// has more types than the per-type arrays hold.
pub fn rkr_frame_to_c_frame(frame_handle: &RKRConFrame) -> (r: Option<CFrame>)
    ensures
        r is None <==> frame_handle@.header.natm_types > MAX_TYPES,
        r matches Some(c) ==> {
            let f = frame_handle@;
            &&& c.natm_types == f.header.natm_types
            &&& c.num_atoms == f.atoms.len()
            &&& c.cell@ == f.header.boxl
            &&& c.angles@ == f.header.angles
            &&& c.atoms@.len() == f.atoms.len()
            &&& forall|j: int| 0 <= j < f.atoms.len() ==> #[trigger] c.atoms@[j] == plain_atom(f, j)
            &&& forall|t: int|
                0 <= t < c.natm_types ==> #[trigger] c.natms_per_type@[t]
                    == f.header.natms_per_type[t] && c.masses_per_type@[t]
                    == f.header.masses_per_type[t]
            &&& forall|t: int| c.natm_types <= t < MAX_TYPES ==> #[trigger] c.natms_per_type@[t] == 0
        },
{
    let frame = frame_handle.frame();
    let h = &frame.header;
    if h.natm_types > MAX_TYPES {
        return None;
    }
    let ghost f = frame@;
    let ghost counts = f.header.natms_per_type;
    let mut natms: [usize; MAX_TYPES] = [0usize; MAX_TYPES];
    let mut masses: [Real; MAX_TYPES] = [Real { micros: 0 }; MAX_TYPES];
    let mut atoms: Vec<CAtom> = Vec::new();
    let mut off: usize = 0;
    let mut t: usize = 0;
    assert(counts.take(0) =~= Seq::<usize>::empty());
    while t < h.natm_types
        invariant
            f == frame@,
            frame.wf(),
            counts == f.header.natms_per_type,
            h == &frame.header,
            h.natm_types <= MAX_TYPES,
            t <= h.natm_types,
            off == sum_counts(counts.take(t as int)),
            f.atoms.len() == frame.atom_data.len(),
            atoms@.len() == off,
            forall|j: int| 0 <= j < off ==> #[trigger] atoms@[j] == plain_atom(f, j),
            forall|u: int|
                0 <= u < t ==> #[trigger] natms@[u] == counts[u] && masses@[u]
                    == f.header.masses_per_type[u],
            forall|u: int| t <= u < MAX_TYPES ==> #[trigger] natms@[u] == 0,
        decreases h.natm_types - t,
    {
        let c = h.natms_per_type[t];
        let mass = h.masses_per_type[t];
        proof {
            lemma_sum_take_step(counts, t as int);
            assert(counts.skip(t as int).drop_first() =~= counts.skip(t + 1));
            assert(counts.skip(t as int)[0] == c);
            assert(sum_counts(counts.skip(t as int)) == c + sum_counts(counts.skip(t + 1)));
            crate::iterators::lemma_sum_counts_nonneg(counts.skip(t + 1));
            lemma_sum_split(counts, t as int);
            assert(f.atoms.len() == frame.atom_data.len());
        }
        let mut i: usize = 0;
        while i < c
            invariant
                f == frame@,
                frame.wf(),
                counts == f.header.natms_per_type,
                h == &frame.header,
                h.natm_types <= MAX_TYPES,
                t < h.natm_types,
                c == counts[t as int],
                mass == f.header.masses_per_type[t as int],
                off == sum_counts(counts.take(t as int)),
                off + c <= f.atoms.len(),
                f.atoms.len() == frame.atom_data.len(),
                i <= c,
                atoms@.len() == off + i,
                forall|j: int| 0 <= j < off + i ==> #[trigger] atoms@[j] == plain_atom(f, j),
            decreases c - i,
        {
            assert(off + i < frame.atom_data.len());
            let a = &frame.atom_data[off + i];
            proof {
                lemma_type_of_step(counts, t as int, off as int, i as int);
            }
            atoms.push(
                CAtom {
                    type_index: t as u64,
                    x: a.x,
                    y: a.y,
                    z: a.z,
                    atom_id: a.atom_id,
                    mass,
                    is_fixed: a.is_fixed,
                },
            );
            i += 1;
        }
        let ghost old_n = natms@;
        let ghost old_m = masses@;
        natms[t] = c;
        masses[t] = mass;
        assert(natms@ == old_n.update(t as int, c));
        assert(masses@ == old_m.update(t as int, mass));
        assert forall|u: int| 0 <= u < t + 1 implies #[trigger] natms@[u] == counts[u] && masses@[u]
            == f.header.masses_per_type[u] by {
            if u < t {
                assert(natms@[u] == old_n[u]);
                assert(masses@[u] == old_m[u]);
            }
        }
        off = off + c;
        t += 1;
    }
    proof {
        lemma_sum_take_all(counts);
    }
    let num_atoms = atoms.len();
    Some(
        CFrame {
            atoms,
            num_atoms,
            cell: h.boxl,
            angles: h.angles,
            natm_types: h.natm_types,
            natms_per_type: natms,
            masses_per_type: masses,
        },
    )
}

proof fn lemma_sum_split(counts: Seq<usize>, t: int)
    requires
        0 <= t <= counts.len(),
    ensures
        sum_counts(counts) == sum_counts(counts.take(t)) + sum_counts(counts.skip(t)),
    decreases t,
{
    if t > 0 {
        lemma_sum_split(counts.drop_first(), t - 1);
        assert(counts.take(t).drop_first() =~= counts.drop_first().take(t - 1));
        assert(counts.drop_first().skip(t - 1) =~= counts.skip(t));
    } else {
        assert(counts.take(0) =~= Seq::<usize>::empty());
        assert(counts.skip(0) =~= counts);
    }
}

/// One of the four free-text header lines: `index` 0 or 1 of the lines before
/// the box (`is_prebox`) or after it.
pub open spec fn header_line(f: FrameView, is_prebox: bool, index: int) -> Seq<char> {
    if is_prebox {
        f.header.prebox[index]
    } else {
        f.header.postbox[index]
    }
}

pub open spec fn min(a: int, b: int) -> int {
    if a < b {
        a
    } else {
        b
    }
}

/// Copies a free-text header line, as UTF-8 bytes, into `buffer`, whose
/// length is its capacity: as many bytes as fit before a closing zero byte,
/// then that zero. Gives the number of bytes copied, or -1, leaving the buffer
/// as it was, for an index other than 0 or 1, an empty buffer, or a count that
/// does not fit the result.
pub fn rkr_frame_get_header_line(
    frame_handle: &RKRConFrame,
    is_prebox: bool,
    line_index: usize,
    buffer: &mut Vec<u8>,
) -> (r: i32)
    ensures
        final(buffer)@.len() == old(buffer)@.len(),
        ({
            let bytes = vstd::utf8::encode_utf8(header_line(frame_handle@, is_prebox, line_index as int));
            let n = min(bytes.len() as int, old(buffer)@.len() - 1);
            if line_index >= 2 || old(buffer)@.len() == 0 || n > i32::MAX {
                r == -1 && final(buffer)@ == old(buffer)@
            } else {
                &&& r == n
                &&& final(buffer)@.take(n) == bytes.take(n)
                &&& final(buffer)@[n] == 0
                &&& final(buffer)@.skip(n + 1) == old(buffer)@.skip(n + 1)
            }
        }),
{
    let frame = frame_handle.frame();
    if line_index >= 2 || buffer.len() == 0 {
        return -1;
    }
    let line = if is_prebox {
        &frame.header.prebox_header[line_index]
    } else {
        &frame.header.postbox_header[line_index]
    };
    assert(line@ == header_line(frame_handle@, is_prebox, line_index as int));
    let bytes = line.as_str().as_bytes();
    let n = if bytes.len() < buffer.len() - 1 {
        bytes.len()
    } else {
        buffer.len() - 1
    };
    if n > i32::MAX as usize {
        return -1;
    }
    let ghost old_buf = buffer@;
    let mut i: usize = 0;
    while i < n
        invariant
            i <= n,
            n < buffer@.len(),
            n <= bytes@.len(),
            buffer@.len() == old_buf.len(),
            forall|j: int| 0 <= j < i ==> buffer@[j] == bytes@[j],
            forall|j: int| i <= j < buffer@.len() ==> buffer@[j] == old_buf[j],
        decreases n - i,
    {
        buffer[i] = bytes[i];
        i += 1;
    }
    buffer[n] = 0;
    assert(buffer@.take(n as int) =~= bytes@.take(n as int));
    assert(buffer@.skip(n + 1) =~= old_buf.skip(n + 1));
    n as i32
}

/// A free-text header line as a new string; nothing for an index other than 0
/// or 1, or for a line holding a zero character, which a zero-terminated copy
/// cannot carry.
pub fn rkr_frame_get_header_line_cpp(frame_handle: &RKRConFrame, is_prebox: bool, line_index: usize) -> (r: Option<String>)
    ensures
        ({
            let l = header_line(frame_handle@, is_prebox, line_index as int);
            if line_index >= 2 || l.contains('\0') {
                r is None
            } else {
                r matches Some(s) && s@ == l
            }
        }),
{
    let frame = frame_handle.frame();
    if line_index >= 2 {
        return None;
    }
    let line = if is_prebox {
        &frame.header.prebox_header[line_index]
    } else {
        &frame.header.postbox_header[line_index]
    };
    assert(line@ == header_line(frame_handle@, is_prebox, line_index as int));
    let chars = crate::text::chars_of(line.as_str());
    let mut i: usize = 0;
    while i < chars.len()
        invariant
            i <= chars.len(),
            chars@ == line@,
            line@ == header_line(frame_handle@, is_prebox, line_index as int),
            forall|j: int| 0 <= j < i ==> chars@[j] != '\0',
        decreases chars.len() - i,
    {
        if chars[i] == '\0' {
            assert(line@.contains('\0')) by {
                assert(line@[i as int] == '\0');
            }
            return None;
        }
        i += 1;
    }
    Some(line.clone())
}

/// Writes a batch of frames, all or none: when any handle is missing nothing
/// is written and the result is -1; otherwise every frame is written, in
/// order, and the result is 0.
pub fn rkr_writer_extend(writer_handle: &mut RKRConFrameWriter, frame_handles: &Vec<Option<&RKRConFrame>>) -> (r: i32)
    ensures
        (exists|i: int| 0 <= i < frame_handles.len() && (#[trigger] frame_handles@[i]) is None) ==> r == -1
            && final(writer_handle)@ == old(writer_handle)@,
        (forall|i: int| 0 <= i < frame_handles.len() ==> (#[trigger] frame_handles@[i]) is Some) ==> r == 0
            && final(writer_handle)@ == old(writer_handle)@ + encode_frames(
                frame_handles@.map_values(|h: Option<&RKRConFrame>| h->Some_0@),
            ),
{
    let mut k: usize = 0;
    while k < frame_handles.len()
        invariant
            k <= frame_handles.len(),
            forall|j: int| 0 <= j < k ==> (#[trigger] frame_handles@[j]) is Some,
        decreases frame_handles.len() - k,
    {
        if frame_handles[k].is_none() {
            return -1;
        }
        k += 1;
    }
    let ghost s0 = writer_handle@;
    let ghost fs = frame_handles@.map_values(|h: Option<&RKRConFrame>| h->Some_0@);
    let mut i: usize = 0;
    assert(fs.skip(0) =~= fs);
    assert(s0 + encode_frames(fs) =~= writer_handle@ + encode_frames(fs.skip(0)));
    while i < frame_handles.len()
        invariant
            i <= frame_handles.len(),
            fs == frame_handles@.map_values(|h: Option<&RKRConFrame>| h->Some_0@),
            forall|j: int| 0 <= j < frame_handles.len() ==> (#[trigger] frame_handles@[j]) is Some,
            s0 + encode_frames(fs) == writer_handle@ + encode_frames(fs.skip(i as int)),
        decreases frame_handles.len() - i,
    {
        assert(fs.skip(i as int).drop_first() =~= fs.skip(i + 1));
        assert(frame_handles@[i as int] is Some);
        let h = frame_handles[i].unwrap();
        assert(fs.skip(i as int)[0] == h@);
        let ghost before = writer_handle@;
        writer_handle.writer.write_frame(h.frame());
        assert(before + encode_frames(fs.skip(i as int)) =~= writer_handle@ + encode_frames(fs.skip(i + 1)));
        i += 1;
    }
    assert(fs.skip(i as int) =~= Seq::<FrameView>::empty());
    assert(writer_handle@ + Seq::<char>::empty() =~= writer_handle@);
    0
}

/// The distinct labels of the atoms, in the order each first appears.
pub open spec fn first_seen(s: Seq<AtomView>) -> Seq<Seq<char>>
    decreases s.len(),
{
    if s.len() == 0 {
        seq![]
    } else {
        let p = first_seen(s.drop_last());
        if p.contains(s.last().symbol) {
            p
        } else {
            p.push(s.last().symbol)
        }
    }
}

/// The atoms with label `l`, in their order.
pub open spec fn with_label(s: Seq<AtomView>, l: Seq<char>) -> Seq<AtomView> {
    s.filter(|a: AtomView| a.symbol == l)
}

/// The atoms of each label in turn, for the labels `ls` in their order.
pub open spec fn groups(ls: Seq<Seq<char>>, s: Seq<AtomView>) -> Seq<AtomView>
    decreases ls.len(),
{
    if ls.len() == 0 {
        seq![]
    } else {
        groups(ls.drop_last(), s) + with_label(s, ls.last())
    }
}

pub open spec fn labels_view(v: Seq<std::rc::Rc<String>>) -> Seq<Seq<char>> {
    v.map_values(|l: std::rc::Rc<String>| l@)
}

/// Puts atoms back in one run per label, the labels in the order each first
/// appears and the atoms of a label in their order; gives the atoms and the
/// number of each label.
pub fn group_by_label(atoms: &Vec<AtomDatum>) -> (r: (Vec<AtomDatum>, Vec<usize>))
    ensures
        atoms_view(r.0@) == groups(first_seen(atoms_view(atoms@)), atoms_view(atoms@)),
        r.1@ == label_counts(first_seen(atoms_view(atoms@)), atoms_view(atoms@)),
        grouped(atoms_view(r.0@), r.1@),
        sum_counts(r.1@) == r.0@.len(),
{
    let ghost s = atoms_view(atoms@);
    let mut labels: Vec<std::rc::Rc<String>> = Vec::new();
    let mut i: usize = 0;
    assert(s.take(0) =~= Seq::<AtomView>::empty());
    assert(labels_view(labels@) =~= Seq::<Seq<char>>::empty());
    while i < atoms.len()
        invariant
            i <= atoms.len(),
            s == atoms_view(atoms@),
            labels_view(labels@) == first_seen(s.take(i as int)),
        decreases atoms.len() - i,
    {
        let sym = &atoms[i].symbol;
        let ghost lv = labels_view(labels@);
        let mut k: usize = 0;
        let mut found = false;
        while k < labels.len()
            invariant
                k <= labels.len(),
                lv == labels_view(labels@),
                found ==> lv.contains(sym@),
                !found ==> forall|j: int| 0 <= j < k ==> lv[j] != sym@,
            decreases labels.len() - k,
        {
            if **sym == *labels[k] {
                found = true;
                assert(lv[k as int] == sym@);
            }
            k += 1;
        }
        assert(s.take(i + 1).drop_last() =~= s.take(i as int));
        assert(s.take(i + 1).last() == s[i as int]);
        assert(s[i as int].symbol == sym@);
        if !found {
            labels.push(sym.clone());
            assert(labels_view(labels@) =~= lv.push(sym@));
        }
        i += 1;
    }
    assert(s.take(i as int) =~= s);
    let ghost ls = labels_view(labels@);
    let mut out: Vec<AtomDatum> = Vec::new();
    let mut counts: Vec<usize> = Vec::new();
    let mut k: usize = 0;
    assert(ls.take(0) =~= Seq::<Seq<char>>::empty());
    assert(atoms_view(out@) =~= Seq::<AtomView>::empty());
    while k < labels.len()
        invariant
            k <= labels.len(),
            s == atoms_view(atoms@),
            ls == labels_view(labels@),
            ls == first_seen(s),
            atoms_view(out@) == groups(ls.take(k as int), s),
            counts@ == ls.take(k as int).map_values(|l: Seq<char>| with_label(s, l).len() as usize),
        decreases labels.len() - k,
    {
        let label = &labels[k];
        let ghost before = atoms_view(out@);
        let mut n: usize = 0;
        let mut i: usize = 0;
        assert(s.take(0) =~= Seq::<AtomView>::empty());
        assert(before + with_label(s.take(0), label@) =~= before);
        while i < atoms.len()
            invariant
                i <= atoms.len(),
                s == atoms_view(atoms@),
                n <= i,
                n == with_label(s.take(i as int), label@).len(),
                atoms_view(out@) == before + with_label(s.take(i as int), label@),
            decreases atoms.len() - i,
        {
            let a = &atoms[i];
            assert(s.take(i + 1).drop_last() =~= s.take(i as int));
            assert(s.take(i + 1).last() == a@);
            proof {
                reveal(Seq::filter);
                s.take(i as int).lemma_filter_len(|x: AtomView| x.symbol == label@);
            }
            if *a.symbol == **label {
                let ghost o = atoms_view(out@);
                out.push(
                    AtomDatum {
                        symbol: a.symbol.clone(),
                        x: a.x,
                        y: a.y,
                        z: a.z,
                        is_fixed: a.is_fixed,
                        atom_id: a.atom_id,
                    },
                );
                assert(atoms_view(out@) =~= o.push(a@));
                n += 1;
            }
            i += 1;
        }
        assert(s.take(i as int) =~= s);
        counts.push(n);
        assert(ls.take(k + 1).drop_last() =~= ls.take(k as int));
        assert(ls.take(k + 1).last() == label@);
        assert(counts@ =~= ls.take(k + 1).map_values(
            |l: Seq<char>| with_label(s, l).len() as usize,
        ));
        k += 1;
    }
    assert(ls.take(k as int) =~= ls);
    proof {
        lemma_groups_grouped(ls, s);
        assert(counts@ =~= label_counts(ls, s));
    }
    (out, counts)
}

pub proof fn lemma_grouped_push(a: Seq<AtomView>, c: Seq<usize>, b: Seq<AtomView>, n: usize)
    requires
        grouped(a, c),
        b.len() == n,
        forall|j: int| 0 <= j < b.len() ==> (#[trigger] b[j]).symbol == b[0].symbol,
    ensures
        grouped(a + b, c.push(n)),
    decreases c.len(),
{
    if c.len() == 0 {
        assert(a =~= Seq::<AtomView>::empty());
        assert(a + b =~= b);
        assert(c.push(n).drop_first() =~= Seq::<usize>::empty());
        assert(c.push(n)[0] == n);
        assert(b.skip(n as int) =~= Seq::<AtomView>::empty());
        assert(grouped(b.skip(n as int), Seq::<usize>::empty()));
    } else {
        let c0 = c[0] as int;
        lemma_grouped_push(a.skip(c0), c.drop_first(), b, n);
        assert((a + b).skip(c0) =~= a.skip(c0) + b);
        assert(c.push(n)[0] == c[0]);
        assert(c.push(n).drop_first() =~= c.drop_first().push(n));
        assert forall|j: int| 0 <= j < c0 implies (#[trigger] (a + b)[j]).symbol == (a + b)[0].symbol by {
            assert((a + b)[j] == a[j]);
            assert(a[j].symbol == a[0].symbol);
        }
    }
}

pub proof fn lemma_sum_push(c: Seq<usize>, n: usize)
    ensures
        sum_counts(c.push(n)) == sum_counts(c) + n,
    decreases c.len(),
{
    if c.len() > 0 {
        assert(c.push(n).drop_first() =~= c.drop_first().push(n));
        assert(c.push(n)[0] == c[0]);
        lemma_sum_push(c.drop_first(), n);
    } else {
        assert(c.push(n).drop_first() =~= Seq::<usize>::empty());
        assert(c.push(n)[0] == n);
        assert(sum_counts(Seq::<usize>::empty()) == 0);
    }
}

pub open spec fn label_counts(ls: Seq<Seq<char>>, s: Seq<AtomView>) -> Seq<usize> {
    ls.map_values(|l: Seq<char>| with_label(s, l).len() as usize)
}

/// Atoms put in one run per label, with the count of each label, are grouped
/// as a frame's atoms must be, and the counts add up to the number of atoms.
pub proof fn lemma_groups_grouped(ls: Seq<Seq<char>>, s: Seq<AtomView>)
    requires
        s.len() <= usize::MAX,
    ensures
        grouped(groups(ls, s), label_counts(ls, s)),
        sum_counts(label_counts(ls, s)) == groups(ls, s).len(),
    decreases ls.len(),
{
    if ls.len() == 0 {
        assert(label_counts(ls, s) =~= Seq::<usize>::empty());
    } else {
        let init = ls.drop_last();
        let l = ls.last();
        let b = with_label(s, l);
        lemma_groups_grouped(init, s);
        s.lemma_filter_len(|a: AtomView| a.symbol == l);
        assert(label_counts(ls, s) =~= label_counts(init, s).push(b.len() as usize));
        assert forall|j: int| 0 <= j < b.len() implies (#[trigger] b[j]).symbol == b[0].symbol by {
            s.lemma_filter_pred(|a: AtomView| a.symbol == l, j);
            s.lemma_filter_pred(|a: AtomView| a.symbol == l, 0);
        }
        lemma_grouped_push(groups(init, s), label_counts(init, s), b, b.len() as usize);
        lemma_sum_push(label_counts(init, s), b.len() as usize);
    }
}

/// Builds a frame handle for output from header values and atoms in any
/// order: the atoms are put in one run per label, the labels in the order each
/// first appears, and `label_masses` gives the mass of each label in that
/// order. Nothing when `label_masses` does not have one mass per label.
pub fn rkr_frame_from_atoms(
    prebox_header: [String; 2],
    boxl: [Real; 3],
    angles: [Real; 3],
    postbox_header: [String; 2],
    atoms: &Vec<AtomDatum>,
    label_masses: Vec<Real>,
) -> (r: Option<RKRConFrame>)
    ensures
        ({
            let s = atoms_view(atoms@);
            let ls = first_seen(s);
            if label_masses@.len() != ls.len() {
                r is None
            } else {
                r matches Some(h) && {
                    &&& h@.header.prebox == seq![prebox_header@[0]@, prebox_header@[1]@]
                    &&& h@.header.postbox == seq![postbox_header@[0]@, postbox_header@[1]@]
                    &&& h@.header.boxl == boxl@
                    &&& h@.header.angles == angles@
                    &&& h@.header.natm_types == ls.len()
                    &&& h@.header.natms_per_type == label_counts(ls, s)
                    &&& h@.header.masses_per_type == label_masses@
                    &&& h@.atoms == groups(ls, s)
                }
            }
        }),
{
    let (grouped_atoms, counts) = group_by_label(atoms);
    if label_masses.len() != counts.len() {
        return None;
    }
    let frame = ConFrame {
        header: crate::types::FrameHeader {
            prebox_header,
            boxl,
            angles,
            postbox_header,
            natm_types: counts.len(),
            natms_per_type: counts,
            masses_per_type: label_masses,
        },
        atom_data: grouped_atoms,
    };
    assert(frame.wf());
    Some(RKRConFrame { frame })
}

} // verus!
