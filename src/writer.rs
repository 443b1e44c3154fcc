//! Writing frames back to text, in the layout they are read from.

use vstd::prelude::*;
use vstd::string::StringExecFns;
use crate::number::{decimal, push_decimal, push_real, real_text, Real};
use crate::text::push_char;
use crate::types::{sum_counts, AtomDatum, AtomView, ConFrame, FrameHeader, FrameView, HeaderView};
use crate::parser::atoms_view;

verus! {

/// Words joined by single spaces.
pub open spec fn join_words(ws: Seq<Seq<char>>) -> Seq<char>
    decreases ws.len(),
{
    if ws.len() == 0 {
        seq![]
    } else if ws.len() == 1 {
        ws[0]
    } else {
        ws[0] + seq![' '] + join_words(ws.drop_first())
    }
}

/// Lines, each ended by `'\n'`.
pub open spec fn text_of_lines(ls: Seq<Seq<char>>) -> Seq<char>
    decreases ls.len(),
{
    if ls.len() == 0 {
        seq![]
    } else {
        ls[0] + seq!['\n'] + text_of_lines(ls.drop_first())
    }
}

pub open spec fn reals_line(v: Seq<Real>) -> Seq<char> {
    join_words(v.map_values(|r: Real| real_text(r)))
}

pub open spec fn counts_line(v: Seq<usize>) -> Seq<char> {
    join_words(v.map_values(|n: usize| decimal(n as nat)))
}

pub open spec fn header_lines(h: HeaderView) -> Seq<Seq<char>> {
    seq![
        h.prebox[0],
        h.prebox[1],
        reals_line(h.boxl),
        reals_line(h.angles),
        h.postbox[0],
        h.postbox[1],
        decimal(h.natm_types as nat),
        counts_line(h.natms_per_type),
        reals_line(h.masses_per_type),
    ]
}

/// The line marking the block of type `i` (counted from one).
pub open spec fn marker_line(i: nat) -> Seq<char> {
    "Coordinates of Component "@ + decimal(i)
}

/// `x y z flag id`, the flag `1` for a fixed atom and `0` for a free one.
pub open spec fn atom_line(a: AtomView) -> Seq<char> {
    join_words(
        seq![
            real_text(a.x),
            real_text(a.y),
            real_text(a.z),
            if a.is_fixed {
                seq!['1']
            } else {
                seq!['0']
            },
            decimal(a.atom_id as nat),
        ],
    )
}

/// The label of a block: that of its first atom, empty for a block without
/// atoms.
pub open spec fn label_line(atoms: Seq<AtomView>, count: nat) -> Seq<char> {
    if count > 0 && atoms.len() > 0 {
        atoms[0].symbol
    } else {
        seq![]
    }
}

/// The blocks from type `i` (counted from one) on: label, marker, then one
/// line per atom.
pub open spec fn block_lines(atoms: Seq<AtomView>, counts: Seq<usize>, i: nat) -> Seq<Seq<char>>
    decreases counts.len(),
{
    if counts.len() == 0 {
        seq![]
    } else {
        seq![label_line(atoms, counts[0] as nat), marker_line(i)] + atoms.take(
            counts[0] as int,
        ).map_values(|a: AtomView| atom_line(a)) + block_lines(
            atoms.skip(counts[0] as int),
            counts.drop_first(),
            i + 1,
        )
    }
}

/// The lines of a frame.
pub open spec fn frame_lines(f: FrameView) -> Seq<Seq<char>> {
    header_lines(f.header) + block_lines(f.atoms, f.header.natms_per_type, 1)
}

/// The text of a frame.
pub open spec fn encode_frame(f: FrameView) -> Seq<char> {
    text_of_lines(frame_lines(f))
}

/// The text of several frames, one after the other.
pub open spec fn encode_frames(fs: Seq<FrameView>) -> Seq<char>
    decreases fs.len(),
{
    if fs.len() == 0 {
        seq![]
    } else {
        encode_frame(fs[0]) + encode_frames(fs.drop_first())
    }
}

pub proof fn lemma_join_push(ws: Seq<Seq<char>>, w: Seq<char>)
    requires
        ws.len() > 0,
    ensures
        join_words(ws.push(w)) == join_words(ws) + seq![' '] + w,
    decreases ws.len(),
{
    if ws.len() == 1 {
        assert(ws.push(w).drop_first() =~= seq![w]);
        assert(join_words(seq![w]) == w);
        assert(ws.push(w)[0] == ws[0]);
    } else {
        lemma_join_push(ws.drop_first(), w);
        assert(ws.push(w).drop_first() =~= ws.drop_first().push(w));
        assert(ws[0] + seq![' '] + (join_words(ws.drop_first()) + seq![' '] + w) =~= ws[0] + seq![
            ' ',
        ] + join_words(ws.drop_first()) + seq![' '] + w);
    }
}

pub proof fn lemma_text_concat(a: Seq<Seq<char>>, b: Seq<Seq<char>>)
    ensures
        text_of_lines(a + b) == text_of_lines(a) + text_of_lines(b),
    decreases a.len(),
{
    if a.len() == 0 {
        assert(a + b =~= b);
        assert(seq![] + text_of_lines(b) =~= text_of_lines(b));
    } else {
        lemma_text_concat(a.drop_first(), b);
        assert((a + b).drop_first() =~= a.drop_first() + b);
        assert((a + b)[0] == a[0]);
        assert(a[0] + seq!['\n'] + (text_of_lines(a.drop_first()) + text_of_lines(b)) =~= a[0]
            + seq!['\n'] + text_of_lines(a.drop_first()) + text_of_lines(b));
    }
}

pub proof fn lemma_text_push(ls: Seq<Seq<char>>, l: Seq<char>)
    ensures
        text_of_lines(ls.push(l)) == text_of_lines(ls) + l + seq!['\n'],
{
    lemma_text_concat(ls, seq![l]);
    lemma_text_one(l);
    assert(ls.push(l) =~= ls + seq![l]);
    assert(text_of_lines(ls) + (l + seq!['\n']) =~= text_of_lines(ls) + l + seq!['\n']);
}

pub proof fn lemma_text_one(l: Seq<char>)
    ensures
        text_of_lines(seq![l]) == l + seq!['\n'],
{
    assert(seq![l].drop_first() =~= Seq::<Seq<char>>::empty());
    assert(text_of_lines(Seq::<Seq<char>>::empty()) == Seq::<char>::empty());
    assert(l + seq!['\n'] + Seq::<char>::empty() =~= l + seq!['\n']);
}

/// Appends words joined by single spaces, each word a real.
fn push_reals(s: &mut String, v: &[Real])
    ensures
        final(s)@ == old(s)@ + reals_line(v@),
{
    let ghost s0 = s@;
    let ghost ws = v@.map_values(|r: Real| real_text(r));
    let mut i: usize = 0;
    assert(ws.take(0) =~= Seq::<Seq<char>>::empty());
    while i < v.len()
        invariant
            i <= v.len(),
            ws == v@.map_values(|r: Real| real_text(r)),
            s@ == s0 + join_words(ws.take(i as int)),
        decreases v.len() - i,
    {
        assert(ws.take(i + 1) =~= ws.take(i as int).push(real_text(v@[i as int])));
        if i > 0 {
            push_char(s, ' ');
            push_real(s, v[i]);
            proof {
                lemma_join_push(ws.take(i as int), real_text(v@[i as int]));
            }
            assert(s@ =~= s0 + join_words(ws.take(i + 1)));
        } else {
            push_real(s, v[i]);
            assert(ws.take(1) =~= seq![real_text(v@[0])]);
            assert(s@ =~= s0 + join_words(ws.take(i + 1)));
        }
        i += 1;
    }
    assert(ws.take(i as int) =~= ws);
}

/// Appends words joined by single spaces, each word a count.
fn push_counts(s: &mut String, v: &Vec<usize>)
    ensures
        final(s)@ == old(s)@ + counts_line(v@),
{
    let ghost s0 = s@;
    let ghost ws = v@.map_values(|n: usize| decimal(n as nat));
    let mut i: usize = 0;
    assert(ws.take(0) =~= Seq::<Seq<char>>::empty());
    while i < v.len()
        invariant
            i <= v.len(),
            ws == v@.map_values(|n: usize| decimal(n as nat)),
            s@ == s0 + join_words(ws.take(i as int)),
        decreases v.len() - i,
    {
        assert(ws.take(i + 1) =~= ws.take(i as int).push(decimal(v@[i as int] as nat)));
        if i > 0 {
            push_char(s, ' ');
            push_decimal(s, v[i] as u64);
            proof {
                lemma_join_push(ws.take(i as int), decimal(v@[i as int] as nat));
            }
            assert(s@ =~= s0 + join_words(ws.take(i + 1)));
        } else {
            push_decimal(s, v[i] as u64);
            assert(ws.take(1) =~= seq![decimal(v@[0] as nat)]);
            assert(s@ =~= s0 + join_words(ws.take(i + 1)));
        }
        i += 1;
    }
    assert(ws.take(i as int) =~= ws);
}

/// Appends one coordinate line, without its line end.
fn push_atom(s: &mut String, a: &AtomDatum)
    ensures
        final(s)@ == old(s)@ + atom_line(a@),
{
    let ghost s0 = s@;
    push_real(s, a.x);
    push_char(s, ' ');
    push_real(s, a.y);
    push_char(s, ' ');
    push_real(s, a.z);
    push_char(s, ' ');
    if a.is_fixed {
        push_char(s, '1');
    } else {
        push_char(s, '0');
    }
    push_char(s, ' ');
    push_decimal(s, a.atom_id);
    let ghost ws = seq![
        real_text(a.x),
        real_text(a.y),
        real_text(a.z),
        if a.is_fixed {
            seq!['1']
        } else {
            seq!['0']
        },
        decimal(a.atom_id as nat),
    ];
    proof {
        reveal_with_fuel(join_words, 6);
        assert(ws.drop_first() =~= seq![ws[1], ws[2], ws[3], ws[4]]);
        assert(ws.drop_first().drop_first() =~= seq![ws[2], ws[3], ws[4]]);
        assert(ws.drop_first().drop_first().drop_first() =~= seq![ws[3], ws[4]]);
        assert(ws.drop_first().drop_first().drop_first().drop_first() =~= seq![ws[4]]);
    }
    assert(s@ =~= s0 + atom_line(a@));
}

/// Gathers the text of frames written one after another.
pub struct ConFrameWriter {
    buffer: String,
}

impl View for ConFrameWriter {
    type V = Seq<char>;

    /// The text written so far.
    closed spec fn view(&self) -> Seq<char> {
        self.buffer@
    }
}

impl ConFrameWriter {
    /// A writer that has written nothing.
    pub fn new() -> (r: ConFrameWriter)
        ensures
            r@ == Seq::<char>::empty(),
    {
        ConFrameWriter { buffer: String::new() }
    }

    /// The text written so far.
    pub fn as_str(&self) -> (r: &str)
        ensures
            r@ == self@,
    {
        self.buffer.as_str()
    }

    /// The text written, giving up the writer.
    pub fn into_string(self) -> (r: String)
        ensures
            r@ == self@,
    {
        self.buffer
    }

    /// Writes a line and its line end.
    fn push_line_str(&mut self, l: &str)
        ensures
            final(self)@ == old(self)@ + l@ + seq!['\n'],
    {
        self.buffer.append(l);
        push_char(&mut self.buffer, '\n');
    }

    /// Writes the nine header lines.
    fn write_header(&mut self, h: &FrameHeader)
        ensures
            final(self)@ == old(self)@ + text_of_lines(header_lines(h@)),
    {
        let ghost s0 = self@;
        let ghost hl = header_lines(h@);
        assert(hl.take(0) =~= Seq::<Seq<char>>::empty());
        assert(self@ =~= s0 + text_of_lines(hl.take(0)));
        self.push_line_str(h.prebox_header[0].as_str());
        proof {
            lemma_text_push(hl.take(0), hl[0]);
            assert(hl.take(1) =~= hl.take(0).push(hl[0]));
        }
        assert(self@ =~= s0 + text_of_lines(hl.take(1)));
        self.push_line_str(h.prebox_header[1].as_str());
        proof {
            lemma_text_push(hl.take(1), hl[1]);
            assert(hl.take(2) =~= hl.take(1).push(hl[1]));
        }
        assert(self@ =~= s0 + text_of_lines(hl.take(2)));
        push_reals(&mut self.buffer, h.boxl.as_slice());
        push_char(&mut self.buffer, '\n');
        proof {
            lemma_text_push(hl.take(2), hl[2]);
            assert(hl.take(3) =~= hl.take(2).push(hl[2]));
        }
        assert(self@ =~= s0 + text_of_lines(hl.take(3)));
        push_reals(&mut self.buffer, h.angles.as_slice());
        push_char(&mut self.buffer, '\n');
        proof {
            lemma_text_push(hl.take(3), hl[3]);
            assert(hl.take(4) =~= hl.take(3).push(hl[3]));
        }
        assert(self@ =~= s0 + text_of_lines(hl.take(4)));
        self.push_line_str(h.postbox_header[0].as_str());
        proof {
            lemma_text_push(hl.take(4), hl[4]);
            assert(hl.take(5) =~= hl.take(4).push(hl[4]));
        }
        assert(self@ =~= s0 + text_of_lines(hl.take(5)));
        self.push_line_str(h.postbox_header[1].as_str());
        proof {
            lemma_text_push(hl.take(5), hl[5]);
            assert(hl.take(6) =~= hl.take(5).push(hl[5]));
        }
        assert(self@ =~= s0 + text_of_lines(hl.take(6)));
        push_decimal(&mut self.buffer, h.natm_types as u64);
        push_char(&mut self.buffer, '\n');
        proof {
            lemma_text_push(hl.take(6), hl[6]);
            assert(hl.take(7) =~= hl.take(6).push(hl[6]));
        }
        assert(self@ =~= s0 + text_of_lines(hl.take(7)));
        push_counts(&mut self.buffer, &h.natms_per_type);
        push_char(&mut self.buffer, '\n');
        proof {
            lemma_text_push(hl.take(7), hl[7]);
            assert(hl.take(8) =~= hl.take(7).push(hl[7]));
        }
        assert(self@ =~= s0 + text_of_lines(hl.take(8)));
        push_reals(&mut self.buffer, h.masses_per_type.as_slice());
        push_char(&mut self.buffer, '\n');
        proof {
            lemma_text_push(hl.take(8), hl[8]);
            assert(hl.take(9) =~= hl.take(8).push(hl[8]));
        }
        assert(self@ =~= s0 + text_of_lines(hl.take(9)));
        assert(hl.take(9) =~= hl);
    }

    /// Writes the block of type `t` (counted from zero): the atoms
    /// `atoms[off..off + c]`.
    fn write_block(&mut self, atoms: &Vec<AtomDatum>, off: usize, c: usize, t: usize)
        requires
            off + c <= atoms.len(),
            t < usize::MAX,
        ensures
            final(self)@ == old(self)@ + text_of_lines(
                seq![
                    label_line(atoms_view(atoms@).skip(off as int), c as nat),
                    marker_line((t + 1) as nat),
                ] + atoms_view(atoms@).skip(off as int).take(c as int).map_values(
                    |a: AtomView| atom_line(a),
                ),
            ),
    {
        let ghost s0 = self@;
        let ghost a1 = atoms_view(atoms@).skip(off as int);
        let ghost head = seq![label_line(a1, c as nat), marker_line((t + 1) as nat)];
        let ghost al = a1.take(c as int).map_values(|a: AtomView| atom_line(a));
        proof {
            lemma_text_concat(head, al);
            reveal_with_fuel(text_of_lines, 3);
            assert(head.drop_first() =~= seq![marker_line((t + 1) as nat)]);
            assert(head.drop_first().drop_first() =~= Seq::<Seq<char>>::empty());
        }
        if c > 0 {
            assert(a1[0] == atoms@[off as int]@);
            self.push_line_str(atoms[off].symbol.as_str());
        } else {
            push_char(&mut self.buffer, '\n');
        }
        self.buffer.append("Coordinates of Component ");
        push_decimal(&mut self.buffer, (t + 1) as u64);
        push_char(&mut self.buffer, '\n');
        assert(self@ =~= s0 + text_of_lines(head));
        let mut i: usize = 0;
        assert(al.take(0) =~= Seq::<Seq<char>>::empty());
        while i < c
            invariant
                i <= c,
                off + c <= atoms.len(),
                a1 == atoms_view(atoms@).skip(off as int),
                al == a1.take(c as int).map_values(|a: AtomView| atom_line(a)),
                self@ == s0 + text_of_lines(head) + text_of_lines(al.take(i as int)),
            decreases c - i,
        {
            assert(al[i as int] == atom_line(atoms@[off + i]@));
            push_atom(&mut self.buffer, &atoms[off + i]);
            push_char(&mut self.buffer, '\n');
            proof {
                assert(al.take(i + 1) =~= al.take(i as int) + seq![al[i as int]]);
                lemma_text_concat(al.take(i as int), seq![al[i as int]]);
                lemma_text_one(al[i as int]);
            }
            assert(self@ =~= s0 + text_of_lines(head) + text_of_lines(al.take(i + 1)));
            i += 1;
        }
        assert(al.take(c as int) =~= al);
    }

    /// Writes one frame. Its atoms must already come in one run per type, as
    /// many as its counts add up to.
    pub fn write_frame(&mut self, frame: &ConFrame)
        requires
            frame.wf(),
        ensures
            final(self)@ == old(self)@ + encode_frame(frame@),
    {
        let ghost s0 = self@;
        let ghost f = frame@;
        proof {
            lemma_text_concat(header_lines(f.header), block_lines(f.atoms, f.header.natms_per_type, 1));
        }
        self.write_header(&frame.header);
        let ghost atoms = f.atoms;
        let ghost counts = f.header.natms_per_type;
        let mut off: usize = 0;
        let mut t: usize = 0;
        assert(atoms.skip(0) =~= atoms);
        assert(counts.skip(0) =~= counts);
        while t < frame.header.natms_per_type.len()
            invariant
                t <= counts.len(),
                atoms == atoms_view(frame.atom_data@),
                counts == frame.header.natms_per_type@,
                off <= atoms.len(),
                off + sum_counts(counts.skip(t as int)) == atoms.len(),
                s0 + encode_frame(f) == self@ + text_of_lines(
                    block_lines(atoms.skip(off as int), counts.skip(t as int), (t + 1) as nat),
                ),
            decreases counts.len() - t,
        {
            let c = frame.header.natms_per_type[t];
            let ghost a1 = atoms.skip(off as int);
            let ghost c1 = counts.skip(t as int);
            let ghost head = seq![label_line(a1, c as nat), marker_line((t + 1) as nat)]
                + a1.take(c as int).map_values(|a: AtomView| atom_line(a));
            let ghost rest = block_lines(a1.skip(c as int), c1.drop_first(), (t + 2) as nat);
            proof {
                assert(c1[0] == c);
                assert(c1.drop_first() =~= counts.skip(t + 1));
                crate::iterators::lemma_sum_counts_nonneg(c1.drop_first());
                assert(block_lines(a1, c1, (t + 1) as nat) == head + rest);
                lemma_text_concat(head, rest);
            }
            assert(sum_counts(c1) == c + sum_counts(c1.drop_first()));
            assert(atoms.len() == frame.atom_data@.len());
            assert(off + c <= frame.atom_data.len());
            self.write_block(&frame.atom_data, off, c, t);
            assert(a1.skip(c as int) =~= atoms.skip(off + c));
            assert(s0 + encode_frame(f) =~= self@ + text_of_lines(rest));
            off = off + c;
            t += 1;
        }
        assert(counts.skip(t as int) =~= Seq::<usize>::empty());
        assert(self@ + Seq::<char>::empty() =~= self@);
    }

    /// Writes frames one after another, each with its atoms already in one run
    /// per type.
    pub fn extend(&mut self, frames: &Vec<ConFrame>)
        requires
            forall|i: int| 0 <= i < frames.len() ==> (#[trigger] frames@[i]).wf(),
        ensures
            final(self)@ == old(self)@ + encode_frames(frames@.map_values(|f: ConFrame| f@)),
    {
        let ghost s0 = self@;
        let ghost fs = frames@.map_values(|f: ConFrame| f@);
        let mut i: usize = 0;
        assert(fs.skip(0) =~= fs);
        assert(s0 + encode_frames(fs) =~= self@ + encode_frames(fs.skip(0)));
        while i < frames.len()
            invariant
                i <= frames.len(),
                fs == frames@.map_values(|f: ConFrame| f@),
                forall|j: int| 0 <= j < frames.len() ==> (#[trigger] frames@[j]).wf(),
                s0 + encode_frames(fs) == self@ + encode_frames(fs.skip(i as int)),
            decreases frames.len() - i,
        {
            assert(fs.skip(i as int).drop_first() =~= fs.skip(i + 1));
            assert(fs.skip(i as int)[0] == frames@[i as int]@);
            let ghost before = self@;
            self.write_frame(&frames[i]);
            assert(before + encode_frames(fs.skip(i as int)) =~= self@ + encode_frames(fs.skip(i + 1)));
            i += 1;
        }
        assert(fs.skip(i as int) =~= Seq::<FrameView>::empty());
        assert(self@ + Seq::<char>::empty() =~= self@);
    }
}

} // verus!
