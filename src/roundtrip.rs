//! Writing frames and reading them back gives the same frames.

use vstd::prelude::*;
use crate::error::Fault;
use crate::iterators::all_frames;
use crate::number::{
    decimal, lemma_decimal, lemma_real_text, lemma_usize_text, lemma_whole_real_text, real_text,
    LineValue, Real, MAX_WHOLE,
};
use crate::parser::{
    atom_of, decode_block, decode_blocks, decode_frame, decode_header, decode_line, id_of,
    parse_tokens, lemma_frame_grouped,
};
use crate::text::{
    is_ws, lines_from, lines_of, no_newline, no_ws, strip_cr, tokens_from, tokens_of, trim,
    trim_end, trim_start,
};
use crate::types::{grouped, frame_shape, AtomView, FrameView, HeaderView};
use crate::writer::{
    atom_line, block_lines, counts_line, encode_frames, frame_lines, header_lines,
    join_words, label_line, reals_line, text_of_lines,
};

verus! {

pub proof fn lemma_lines_word(w: Seq<char>, r: Seq<char>, cur: Seq<char>)
    requires
        no_newline(w),
    ensures
        lines_from(w + r, cur) == lines_from(r, cur + w),
    decreases w.len(),
{
    if w.len() == 0 {
        assert(w + r =~= r);
        assert(cur + w =~= cur);
    } else {
        assert((w + r)[0] == w[0]);
        assert((w + r).drop_first() =~= w.drop_first() + r);
        lemma_lines_word(w.drop_first(), r, cur.push(w[0]));
        assert(cur.push(w[0]) + w.drop_first() =~= cur + w);
    }
}

/// A line that does not end with a carriage return.
pub open spec fn plain_line(l: Seq<char>) -> bool {
    no_newline(l) && !(l.len() > 0 && l.last() == '\r')
}

/// Lines written one after another read back as the same lines.
pub proof fn lemma_lines_text(ls: Seq<Seq<char>>, z: Seq<char>)
    requires
        forall|i: int| 0 <= i < ls.len() ==> plain_line(#[trigger] ls[i]),
    ensures
        lines_from(text_of_lines(ls) + z, seq![]) == ls + lines_from(z, seq![]),
    decreases ls.len(),
{
    if ls.len() == 0 {
        assert(text_of_lines(ls) + z =~= z);
        assert(ls + lines_from(z, seq![]) =~= lines_from(z, seq![]));
    } else {
        let l = ls[0];
        let y = text_of_lines(ls.drop_first()) + z;
        assert(plain_line(l));
        assert(text_of_lines(ls) + z =~= l + (seq!['\n'] + y));
        lemma_lines_word(l, seq!['\n'] + y, seq![]);
        assert(Seq::<char>::empty() + l =~= l);
        assert((seq!['\n'] + y).drop_first() =~= y);
        assert(strip_cr(l) == l);
        assert forall|i: int| 0 <= i < ls.drop_first().len() implies plain_line(
            #[trigger] ls.drop_first()[i],
        ) by {
            assert(ls.drop_first()[i] == ls[i + 1]);
        }
        lemma_lines_text(ls.drop_first(), z);
        assert(seq![l] + (ls.drop_first() + lines_from(z, seq![])) =~= ls + lines_from(z, seq![]));
    }
}

pub proof fn lemma_tokens_word(w: Seq<char>, r: Seq<char>, cur: Seq<char>)
    requires
        no_ws(w),
    ensures
        tokens_from(w + r, cur) == tokens_from(r, cur + w),
    decreases w.len(),
{
    if w.len() == 0 {
        assert(w + r =~= r);
        assert(cur + w =~= cur);
    } else {
        assert((w + r)[0] == w[0]);
        assert((w + r).drop_first() =~= w.drop_first() + r);
        lemma_tokens_word(w.drop_first(), r, cur.push(w[0]));
        assert(cur.push(w[0]) + w.drop_first() =~= cur + w);
    }
}

/// A word: not empty, without whitespace.
pub open spec fn word(w: Seq<char>) -> bool {
    w.len() > 0 && no_ws(w)
}

/// Words joined by spaces split back into the same words.
pub proof fn lemma_tokens_join(ws: Seq<Seq<char>>)
    requires
        forall|i: int| 0 <= i < ws.len() ==> word(#[trigger] ws[i]),
    ensures
        tokens_of(join_words(ws)) == ws,
    decreases ws.len(),
{
    if ws.len() == 1 {
        let w = ws[0];
        assert(word(w));
        lemma_tokens_word(w, seq![], seq![]);
        assert(w + Seq::<char>::empty() =~= w);
        assert(Seq::<char>::empty() + w =~= w);
        assert(ws =~= seq![w]);
    } else if ws.len() > 1 {
        let w = ws[0];
        assert(word(w));
        let j = join_words(ws.drop_first());
        assert(join_words(ws) =~= w + (seq![' '] + j));
        lemma_tokens_word(w, seq![' '] + j, seq![]);
        assert(Seq::<char>::empty() + w =~= w);
        assert((seq![' '] + j)[0] == ' ');
        assert((seq![' '] + j).drop_first() =~= j);
        assert forall|i: int| 0 <= i < ws.drop_first().len() implies word(
            #[trigger] ws.drop_first()[i],
        ) by {
            assert(ws.drop_first()[i] == ws[i + 1]);
        }
        lemma_tokens_join(ws.drop_first());
        assert(seq![w] + ws.drop_first() =~= ws);
    } else {
        assert(ws =~= Seq::<Seq<char>>::empty());
    }
}

pub proof fn lemma_decimal_word(n: nat)
    ensures
        word(decimal(n)),
{
    lemma_decimal(n);
    assert forall|i: int| 0 <= i < decimal(n).len() implies !is_ws(#[trigger] decimal(n)[i]) by {
        assert(crate::number::is_digit(decimal(n)[i]));
    }
}

pub proof fn lemma_real_word(r: Real)
    ensures
        word(real_text(r)),
{
    let m = crate::number::abs_micros(r);
    lemma_decimal_word(m / 1000000);
    crate::number::lemma_padded(m, 6);
    let t = real_text(r);
    let d = decimal(m / 1000000);
    let p = crate::number::padded(m, 6);
    let sg = if r.micros < 0 {
        seq!['-']
    } else {
        seq![]
    };
    assert(t == sg + d + seq!['.'] + p);
    assert forall|i: int| 0 <= i < t.len() implies !is_ws(#[trigger] t[i]) by {
        if i < sg.len() {
        } else if i < sg.len() + d.len() {
            assert(t[i] == d[i - sg.len()]);
        } else if i == sg.len() + d.len() {
        } else {
            assert(t[i] == p[i - sg.len() - d.len() - 1]);
            assert(crate::number::is_digit(p[i - sg.len() - d.len() - 1]));
        }
    }
}

/// The tokens of a line of reals written back read as those reals.
pub proof fn lemma_reals_line(v: Seq<Real>)
    requires
        forall|i: int| 0 <= i < v.len() ==> (#[trigger] v[i]).micros != i64::MIN,
    ensures
        decode_line::<Real>(reals_line(v), v.len()) == Ok::<Seq<Real>, Fault>(v),
    decreases v.len(),
{
    let ws = v.map_values(|r: Real| real_text(r));
    assert forall|i: int| 0 <= i < ws.len() implies word(#[trigger] ws[i]) by {
        lemma_real_word(v[i]);
    }
    lemma_tokens_join(ws);
    lemma_parse_reals(v);
}

proof fn lemma_parse_reals(v: Seq<Real>)
    requires
        forall|i: int| 0 <= i < v.len() ==> (#[trigger] v[i]).micros != i64::MIN,
    ensures
        parse_tokens::<Real>(v.map_values(|r: Real| real_text(r))) == Ok::<Seq<Real>, Seq<char>>(v),
    decreases v.len(),
{
    let ws = v.map_values(|r: Real| real_text(r));
    if v.len() > 0 {
        lemma_real_text(v[0]);
        assert(ws.drop_first() =~= v.drop_first().map_values(|r: Real| real_text(r)));
        lemma_parse_reals(v.drop_first());
        assert(seq![v[0]] + v.drop_first() =~= v);
    } else {
        assert(v =~= Seq::<Real>::empty());
    }
}

proof fn lemma_parse_counts(v: Seq<usize>)
    ensures
        parse_tokens::<usize>(v.map_values(|n: usize| decimal(n as nat))) == Ok::<
            Seq<usize>,
            Seq<char>,
        >(v),
    decreases v.len(),
{
    let ws = v.map_values(|n: usize| decimal(n as nat));
    if v.len() > 0 {
        lemma_usize_text(v[0]);
        assert(ws.drop_first() =~= v.drop_first().map_values(|n: usize| decimal(n as nat)));
        lemma_parse_counts(v.drop_first());
        assert(seq![v[0]] + v.drop_first() =~= v);
    } else {
        assert(v =~= Seq::<usize>::empty());
    }
}

pub proof fn lemma_counts_line(v: Seq<usize>)
    ensures
        decode_line::<usize>(counts_line(v), v.len()) == Ok::<Seq<usize>, Fault>(v),
{
    let ws = v.map_values(|n: usize| decimal(n as nat));
    assert forall|i: int| 0 <= i < ws.len() implies word(#[trigger] ws[i]) by {
        lemma_decimal_word(v[i] as nat);
    }
    lemma_tokens_join(ws);
    lemma_parse_counts(v);
}

pub proof fn lemma_parse_tokens_each<T: LineValue>(ws: Seq<Seq<char>>, vs: Seq<T>)
    requires
        ws.len() == vs.len(),
        forall|i: int| 0 <= i < ws.len() ==> T::from_token(#[trigger] ws[i]) == Some(vs[i]),
    ensures
        parse_tokens::<T>(ws) == Ok::<Seq<T>, Seq<char>>(vs),
    decreases ws.len(),
{
    if ws.len() > 0 {
        assert(T::from_token(ws[0]) == Some(vs[0]));
        assert forall|i: int| 0 <= i < ws.drop_first().len() implies T::from_token(
            #[trigger] ws.drop_first()[i],
        ) == Some(vs.drop_first()[i]) by {
            assert(ws.drop_first()[i] == ws[i + 1]);
        }
        lemma_parse_tokens_each::<T>(ws.drop_first(), vs.drop_first());
        assert(seq![vs[0]] + vs.drop_first() =~= vs);
    } else {
        assert(vs =~= Seq::<T>::empty());
    }
}

/// A line made of words and single spaces holds no other whitespace.
pub proof fn lemma_join_plain(ws: Seq<Seq<char>>)
    requires
        forall|i: int| 0 <= i < ws.len() ==> word(#[trigger] ws[i]),
    ensures
        forall|i: int| 0 <= i < join_words(ws).len() ==> (#[trigger] join_words(ws)[i] == ' '
            || !is_ws(join_words(ws)[i])),
        plain_line(join_words(ws)),
    decreases ws.len(),
{
    let j = join_words(ws);
    if ws.len() == 1 {
        assert(word(ws[0]));
    } else if ws.len() > 1 {
        assert forall|i: int| 0 <= i < ws.drop_first().len() implies word(
            #[trigger] ws.drop_first()[i],
        ) by {
            assert(ws.drop_first()[i] == ws[i + 1]);
        }
        lemma_join_plain(ws.drop_first());
        let r = join_words(ws.drop_first());
        let w = ws[0];
        assert(word(w));
        assert forall|i: int| 0 <= i < j.len() implies (#[trigger] j[i] == ' ' || !is_ws(j[i])) by {
            if i < w.len() {
                assert(j[i] == w[i]);
            } else if i > w.len() {
                assert(j[i] == r[i - w.len() - 1]);
            }
        }
    }
    assert forall|i: int| 0 <= i < j.len() implies #[trigger] j[i] != '\n' by {
        assert(j[i] == ' ' || !is_ws(j[i]));
    }
    if j.len() > 0 {
        assert(j[j.len() - 1] == ' ' || !is_ws(j[j.len() - 1]));
    }
}

pub open spec fn real_ok(r: Real) -> bool {
    r.micros != i64::MIN
}

/// An atom that writes and reads back unchanged: reals in range, an
/// identifier a real can hold, a label without surrounding whitespace or line
/// ends.
pub open spec fn atom_ok(a: AtomView) -> bool {
    &&& real_ok(a.x)
    &&& real_ok(a.y)
    &&& real_ok(a.z)
    &&& a.atom_id <= MAX_WHOLE
    &&& trim(a.symbol) == a.symbol
    &&& no_newline(a.symbol)
}

pub open spec fn header_ok(h: HeaderView) -> bool {
    &&& h.prebox.len() == 2
    &&& h.postbox.len() == 2
    &&& plain_line(h.prebox[0])
    &&& plain_line(h.prebox[1])
    &&& plain_line(h.postbox[0])
    &&& plain_line(h.postbox[1])
    &&& h.boxl.len() == 3
    &&& h.angles.len() == 3
    &&& forall|i: int| 0 <= i < 3 ==> real_ok(#[trigger] h.boxl[i])
    &&& forall|i: int| 0 <= i < 3 ==> real_ok(#[trigger] h.angles[i])
    &&& h.natms_per_type.len() == h.natm_types
    &&& h.masses_per_type.len() == h.natm_types
    &&& forall|i: int| 0 <= i < h.masses_per_type.len() ==> real_ok(
        #[trigger] h.masses_per_type[i],
    )
}

/// A frame that writes and reads back unchanged.
pub open spec fn encodable(f: FrameView) -> bool {
    &&& header_ok(f.header)
    &&& frame_shape(f)
    &&& grouped(f.atoms, f.header.natms_per_type)
    &&& forall|j: int| 0 <= j < f.atoms.len() ==> atom_ok(#[trigger] f.atoms[j])
}

/// The header lines written back read as the same header.
pub proof fn lemma_header_round_trip(h: HeaderView, z: Seq<Seq<char>>)
    requires
        header_ok(h),
    ensures
        decode_header(header_lines(h) + z) == (Ok::<HeaderView, Fault>(h), 9nat),
{
    let hl = header_lines(h);
    let ls = hl + z;
    assert(ls[2] == reals_line(h.boxl));
    assert(ls[3] == reals_line(h.angles));
    assert(ls[6] == decimal(h.natm_types as nat));
    assert(ls[7] == counts_line(h.natms_per_type));
    assert(ls[8] == reals_line(h.masses_per_type));
    lemma_reals_line(h.boxl);
    lemma_reals_line(h.angles);
    lemma_reals_line(h.masses_per_type);
    lemma_counts_line(h.natms_per_type);
    lemma_counts_line(seq![h.natm_types]);
    assert(seq![h.natm_types].map_values(|n: usize| decimal(n as nat)) =~= seq![decimal(
        h.natm_types as nat,
    )]);
    assert(counts_line(seq![h.natm_types]) == decimal(h.natm_types as nat));
    assert(seq![ls[0], ls[1]] =~= h.prebox);
    assert(seq![ls[4], ls[5]] =~= h.postbox);
}

/// A coordinate line written back reads as the same atom.
pub proof fn lemma_atom_round_trip(a: AtomView)
    requires
        atom_ok(a),
    ensures
        atom_of(atom_line(a), a.symbol) == Ok::<AtomView, Fault>(a),
{
    let flag: nat = if a.is_fixed {
        1
    } else {
        0
    };
    assert(decimal(flag) == (if a.is_fixed {
        seq!['1']
    } else {
        seq!['0']
    }));
    let ws = seq![
        real_text(a.x),
        real_text(a.y),
        real_text(a.z),
        decimal(flag),
        decimal(a.atom_id as nat),
    ];
    let vs = seq![
        a.x,
        a.y,
        a.z,
        Real { micros: (flag * 1000000) as i64 },
        Real { micros: (a.atom_id * 1000000) as i64 },
    ];
    lemma_real_word(a.x);
    lemma_real_word(a.y);
    lemma_real_word(a.z);
    lemma_decimal_word(flag);
    lemma_decimal_word(a.atom_id as nat);
    assert forall|i: int| 0 <= i < ws.len() implies word(#[trigger] ws[i]) by {}
    lemma_tokens_join(ws);
    lemma_real_text(a.x);
    lemma_real_text(a.y);
    lemma_real_text(a.z);
    lemma_whole_real_text(flag);
    lemma_whole_real_text(a.atom_id as nat);
    assert forall|i: int| 0 <= i < ws.len() implies Real::from_token(#[trigger] ws[i]) == Some(
        vs[i],
    ) by {}
    lemma_parse_tokens_each::<Real>(ws, vs);
    assert(atom_line(a) == join_words(ws));
    assert(id_of(vs[4]) == a.atom_id);
}

pub proof fn lemma_block_round_trip(a: Seq<AtomView>, sym: Seq<char>, z: Seq<Seq<char>>)
    requires
        forall|j: int| 0 <= j < a.len() ==> atom_ok(#[trigger] a[j]) && a[j].symbol == sym,
    ensures
        decode_block(a.map_values(|x: AtomView| atom_line(x)) + z, sym, a.len()) == (Ok::<
            Seq<AtomView>,
            Fault,
        >(a), a.len()),
    decreases a.len(),
{
    let ls = a.map_values(|x: AtomView| atom_line(x)) + z;
    if a.len() > 0 {
        assert(atom_ok(a[0]) && a[0].symbol == sym);
        assert(ls[0] == atom_line(a[0]));
        lemma_atom_round_trip(a[0]);
        assert(ls.drop_first() =~= a.drop_first().map_values(|x: AtomView| atom_line(x)) + z);
        assert forall|j: int| 0 <= j < a.drop_first().len() implies atom_ok(
            #[trigger] a.drop_first()[j],
        ) && a.drop_first()[j].symbol == sym by {
            assert(a.drop_first()[j] == a[j + 1]);
        }
        lemma_block_round_trip(a.drop_first(), sym, z);
        assert(seq![a[0]] + a.drop_first() =~= a);
    } else {
        assert(a =~= Seq::<AtomView>::empty());
    }
}

pub proof fn lemma_blocks_round_trip(
    atoms: Seq<AtomView>,
    counts: Seq<usize>,
    i: nat,
    z: Seq<Seq<char>>,
)
    requires
        grouped(atoms, counts),
        forall|j: int| 0 <= j < atoms.len() ==> atom_ok(#[trigger] atoms[j]),
    ensures
        decode_blocks(block_lines(atoms, counts, i) + z, counts) == (Ok::<Seq<AtomView>, Fault>(
            atoms,
        ), block_lines(atoms, counts, i).len()),
    decreases counts.len(),
{
    let bl = block_lines(atoms, counts, i);
    if counts.len() == 0 {
        assert(atoms =~= Seq::<AtomView>::empty());
        assert(bl + z =~= z);
    } else {
        let c = counts[0];
        let a = atoms.take(c as int);
        let r = atoms.skip(c as int);
        let sym = label_line(atoms, c as nat);
        let al = a.map_values(|x: AtomView| atom_line(x));
        let rl = block_lines(r, counts.drop_first(), i + 1);
        let ls = bl + z;
        assert(bl == seq![sym, crate::writer::marker_line(i)] + al + rl);
        assert(ls[0] == sym);
        if c > 0 {
            assert(atom_ok(atoms[0]));
        }
        assert(trim(sym) == sym);
        assert forall|j: int| 0 <= j < a.len() implies atom_ok(#[trigger] a[j]) && a[j].symbol
            == sym by {
            assert(a[j] == atoms[j]);
            assert(atoms[j].symbol == atoms[0].symbol);
        }
        assert(ls.skip(2) =~= al + (rl + z));
        lemma_block_round_trip(a, sym, rl + z);
        assert(ls.skip(2 + c) =~= rl + z);
        assert forall|j: int| 0 <= j < r.len() implies atom_ok(#[trigger] r[j]) by {
            assert(r[j] == atoms[j + c]);
        }
        lemma_blocks_round_trip(r, counts.drop_first(), i + 1, z);
        assert(a + r =~= atoms);
    }
}

/// A frame written back reads as the same frame, consuming exactly its lines.
pub proof fn lemma_frame_round_trip(f: FrameView, z: Seq<Seq<char>>)
    requires
        encodable(f),
    ensures
        decode_frame(frame_lines(f) + z) == (Ok::<FrameView, Fault>(f), frame_lines(f).len()),
{
    let hl = header_lines(f.header);
    let bl = block_lines(f.atoms, f.header.natms_per_type, 1);
    let ls = frame_lines(f) + z;
    assert(ls =~= hl + (bl + z));
    lemma_header_round_trip(f.header, bl + z);
    assert(ls.skip(9) =~= bl + z);
    lemma_blocks_round_trip(f.atoms, f.header.natms_per_type, 1, z);
    assert(FrameView { header: f.header, atoms: f.atoms } == f);
}

pub proof fn lemma_trim_end_prefix(x: Seq<char>)
    ensures
        trim_end(x).len() <= x.len(),
        trim_end(x) == x.take(trim_end(x).len() as int),
        trim_end(x).len() > 0 ==> !is_ws(trim_end(x).last()),
    decreases x.len(),
{
    if x.len() > 0 && is_ws(x.last()) {
        lemma_trim_end_prefix(x.drop_last());
        assert(x.drop_last().take(trim_end(x).len() as int) =~= x.take(trim_end(x).len() as int));
    } else {
        assert(x.take(x.len() as int) =~= x);
    }
}

pub proof fn lemma_trim_start_suffix(x: Seq<char>)
    ensures
        trim_start(x).len() <= x.len(),
        trim_start(x) == x.skip(x.len() - trim_start(x).len()),
        trim_start(x).len() > 0 ==> !is_ws(trim_start(x)[0]),
    decreases x.len(),
{
    if x.len() > 0 && is_ws(x[0]) {
        lemma_trim_start_suffix(x.drop_first());
        assert(x.drop_first().skip(x.drop_first().len() - trim_start(x).len()) =~= x.skip(
            x.len() - trim_start(x).len(),
        ));
    } else {
        assert(x.skip(0) =~= x);
    }
}

/// Trimming twice is trimming once; trimming adds no line end.
pub proof fn lemma_trim(s: Seq<char>)
    ensures
        trim(trim(s)) == trim(s),
        no_newline(s) ==> no_newline(trim(s)),
        plain_line(trim(s)) || !no_newline(s),
{
    let a = trim_start(s);
    let t = trim(s);
    lemma_trim_start_suffix(s);
    lemma_trim_end_prefix(a);
    if t.len() > 0 {
        assert(t[0] == a[0]);
    }
    assert(trim_start(t) == t);
    lemma_trim_end_prefix(t);
    assert(trim_end(t) == t);
    if no_newline(s) {
        assert forall|i: int| 0 <= i < t.len() implies #[trigger] t[i] != '\n' by {
            assert(t[i] == a[i]);
            assert(a[i] == s[i + s.len() - a.len()]);
        }
        if t.len() > 0 {
            assert(is_ws('\r'));
        }
    }
}

/// Every line of a text is free of line ends.
pub proof fn lemma_lines_no_newline(s: Seq<char>, cur: Seq<char>)
    requires
        no_newline(cur),
    ensures
        forall|i: int| 0 <= i < lines_from(s, cur).len() ==> no_newline(
            #[trigger] lines_from(s, cur)[i],
        ),
    decreases s.len(),
{
    if s.len() > 0 {
        if s[0] == '\n' {
            lemma_lines_no_newline(s.drop_first(), seq![]);
            let l = strip_cr(cur);
            assert(no_newline(l)) by {
                if cur.len() > 0 && cur.last() == '\r' {
                    assert forall|i: int| 0 <= i < l.len() implies #[trigger] l[i] != '\n' by {
                        assert(l[i] == cur[i]);
                    }
                }
            }
            let ls = lines_from(s, cur);
            assert forall|i: int| 0 <= i < ls.len() implies no_newline(#[trigger] ls[i]) by {
                if i > 0 {
                    assert(ls[i] == lines_from(s.drop_first(), seq![])[i - 1]);
                } else {
                    assert(ls[0] == l);
                }
            }
        } else {
            assert(no_newline(cur.push(s[0]))) by {
                assert forall|i: int| 0 <= i < cur.push(s[0]).len() implies #[trigger] cur.push(
                    s[0],
                )[i] != '\n' by {
                    if i < cur.len() {
                        assert(cur.push(s[0])[i] == cur[i]);
                    }
                }
            }
            lemma_lines_no_newline(s.drop_first(), cur.push(s[0]));
            assert(lines_from(s, cur) == lines_from(s.drop_first(), cur.push(s[0])));
        }
    } else {
        let ls = lines_from(s, cur);
        assert forall|i: int| 0 <= i < ls.len() implies no_newline(#[trigger] ls[i]) by {
            assert(ls[i] == cur);
        }
    }
}

pub proof fn lemma_word_plain(w: Seq<char>)
    requires
        word(w),
    ensures
        plain_line(w),
{
    assert forall|i: int| 0 <= i < w.len() implies #[trigger] w[i] != '\n' by {
        assert(!is_ws(w[i]));
    }
    assert(!is_ws(w[w.len() - 1]));
}

pub proof fn lemma_marker_plain(i: nat)
    ensures
        plain_line(crate::writer::marker_line(i)),
{
    reveal_strlit("Coordinates of Component ");
    let p = "Coordinates of Component "@;
    let m = crate::writer::marker_line(i);
    lemma_decimal_word(i);
    let d = decimal(i);
    assert forall|j: int| 0 <= j < m.len() implies #[trigger] m[j] != '\n' by {
        if j < p.len() {
            assert(m[j] == p[j]);
        } else {
            assert(m[j] == d[j - p.len()]);
            assert(!is_ws(d[j - p.len()]));
        }
    }
    assert(m.last() == d.last());
    assert(!is_ws(d[d.len() - 1]));
}

pub proof fn lemma_atom_line_plain(a: AtomView)
    ensures
        plain_line(atom_line(a)),
{
    let flag: nat = if a.is_fixed {
        1
    } else {
        0
    };
    assert(decimal(flag) == (if a.is_fixed {
        seq!['1']
    } else {
        seq!['0']
    }));
    let ws = seq![
        real_text(a.x),
        real_text(a.y),
        real_text(a.z),
        decimal(flag),
        decimal(a.atom_id as nat),
    ];
    lemma_real_word(a.x);
    lemma_real_word(a.y);
    lemma_real_word(a.z);
    lemma_decimal_word(flag);
    lemma_decimal_word(a.atom_id as nat);
    assert forall|i: int| 0 <= i < ws.len() implies word(#[trigger] ws[i]) by {}
    lemma_join_plain(ws);
    assert(atom_line(a) == join_words(ws));
}

pub proof fn lemma_reals_line_plain(v: Seq<Real>)
    ensures
        plain_line(reals_line(v)),
{
    let ws = v.map_values(|r: Real| real_text(r));
    assert forall|i: int| 0 <= i < ws.len() implies word(#[trigger] ws[i]) by {
        lemma_real_word(v[i]);
    }
    lemma_join_plain(ws);
}

pub proof fn lemma_counts_line_plain(v: Seq<usize>)
    ensures
        plain_line(counts_line(v)),
{
    let ws = v.map_values(|n: usize| decimal(n as nat));
    assert forall|i: int| 0 <= i < ws.len() implies word(#[trigger] ws[i]) by {
        lemma_decimal_word(v[i] as nat);
    }
    lemma_join_plain(ws);
}

pub proof fn lemma_block_lines_plain(atoms: Seq<AtomView>, counts: Seq<usize>, i: nat)
    requires
        grouped(atoms, counts),
        forall|j: int| 0 <= j < atoms.len() ==> atom_ok(#[trigger] atoms[j]),
    ensures
        forall|j: int| 0 <= j < block_lines(atoms, counts, i).len() ==> plain_line(
            #[trigger] block_lines(atoms, counts, i)[j],
        ),
    decreases counts.len(),
{
    if counts.len() > 0 {
        let c = counts[0];
        let a = atoms.take(c as int);
        let r = atoms.skip(c as int);
        let sym = label_line(atoms, c as nat);
        let al = a.map_values(|x: AtomView| atom_line(x));
        let rl = block_lines(r, counts.drop_first(), i + 1);
        let bl = block_lines(atoms, counts, i);
        assert(bl == seq![sym, crate::writer::marker_line(i)] + al + rl);
        if c > 0 {
            assert(atom_ok(atoms[0]));
            lemma_trim(sym);
        }
        lemma_marker_plain(i);
        assert forall|j: int| 0 <= j < r.len() implies atom_ok(#[trigger] r[j]) by {
            assert(r[j] == atoms[j + c]);
        }
        lemma_block_lines_plain(r, counts.drop_first(), i + 1);
        assert forall|j: int| 0 <= j < bl.len() implies plain_line(#[trigger] bl[j]) by {
            if j >= 2 && j < 2 + al.len() {
                assert(bl[j] == al[j - 2]);
                lemma_atom_line_plain(a[j - 2]);
            } else if j >= 2 + al.len() {
                assert(bl[j] == rl[j - 2 - al.len()]);
            }
        }
    }
}

pub proof fn lemma_frame_lines_plain(f: FrameView)
    requires
        encodable(f),
    ensures
        forall|j: int| 0 <= j < frame_lines(f).len() ==> plain_line(#[trigger] frame_lines(f)[j]),
{
    let hl = header_lines(f.header);
    let bl = block_lines(f.atoms, f.header.natms_per_type, 1);
    lemma_reals_line_plain(f.header.boxl);
    lemma_reals_line_plain(f.header.angles);
    lemma_reals_line_plain(f.header.masses_per_type);
    lemma_counts_line_plain(f.header.natms_per_type);
    lemma_decimal_word(f.header.natm_types as nat);
    lemma_word_plain(decimal(f.header.natm_types as nat));
    lemma_block_lines_plain(f.atoms, f.header.natms_per_type, 1);
    assert forall|j: int| 0 <= j < frame_lines(f).len() implies plain_line(
        #[trigger] frame_lines(f)[j],
    ) by {
        if j >= 9 {
            assert(frame_lines(f)[j] == bl[j - 9]);
        }
    }
}

/// Frames written one after another read back, in order, as the same frames.
pub proof fn lemma_frames_round_trip(fs: Seq<FrameView>)
    requires
        forall|i: int| 0 <= i < fs.len() ==> encodable(#[trigger] fs[i]),
    ensures
        all_frames(lines_of(encode_frames(fs))) == fs.map_values(
            |f: FrameView| Ok::<FrameView, Fault>(f),
        ),
    decreases fs.len(),
{
    if fs.len() == 0 {
        assert(lines_of(encode_frames(fs)) =~= Seq::<Seq<char>>::empty());
        assert(fs.map_values(|f: FrameView| Ok::<FrameView, Fault>(f)) =~= Seq::<
            Result<FrameView, Fault>,
        >::empty());
    } else {
        let f0 = fs[0];
        let rest = fs.drop_first();
        let fl = frame_lines(f0);
        let e = encode_frames(rest);
        assert(encodable(f0));
        lemma_frame_lines_plain(f0);
        lemma_lines_text(fl, e);
        let l = fl + lines_of(e);
        assert(lines_of(encode_frames(fs)) == l);
        lemma_frame_round_trip(f0, lines_of(e));
        assert(l.skip(fl.len() as int) =~= lines_of(e));
        assert forall|i: int| 0 <= i < rest.len() implies encodable(#[trigger] rest[i]) by {
            assert(rest[i] == fs[i + 1]);
        }
        lemma_frames_round_trip(rest);
        assert(fs.map_values(|f: FrameView| Ok::<FrameView, Fault>(f)) =~= seq![
            Ok::<FrameView, Fault>(f0),
        ] + rest.map_values(|f: FrameView| Ok::<FrameView, Fault>(f)));
    }
}

pub proof fn lemma_tokens_values<T: LineValue>(toks: Seq<Seq<char>>)
    ensures
        parse_tokens::<T>(toks) matches Ok(vs) ==> vs.len() == toks.len() && forall|i: int|
            0 <= i < toks.len() ==> T::from_token(#[trigger] toks[i]) == Some(vs[i]),
    decreases toks.len(),
{
    if toks.len() > 0 {
        lemma_tokens_values::<T>(toks.drop_first());
        if let Ok(vs) = parse_tokens::<T>(toks) {
            let rest = parse_tokens::<T>(toks.drop_first())->Ok_0;
            assert(vs == seq![T::from_token(toks[0])->Some_0] + rest);
            assert forall|i: int| 0 <= i < toks.len() implies T::from_token(#[trigger] toks[i])
                == Some(vs[i]) by {
                if i > 0 {
                    assert(toks[i] == toks.drop_first()[i - 1]);
                }
            }
        }
    }
}

pub proof fn lemma_line_reals_ok(line: Seq<char>, n: nat)
    ensures
        decode_line::<Real>(line, n) matches Ok(v) ==> v.len() == n && forall|i: int|
            0 <= i < v.len() ==> real_ok(#[trigger] v[i]),
{
    let toks = tokens_of(line);
    lemma_tokens_values::<Real>(toks);
    if let Ok(v) = decode_line::<Real>(line, n) {
        assert forall|i: int| 0 <= i < v.len() implies real_ok(#[trigger] v[i]) by {
            assert(Real::from_token(toks[i]) == Some(v[i]));
            crate::number::lemma_real_of_ok(toks[i]);
        }
    }
}

pub proof fn lemma_block_decoded_ok(ls: Seq<Seq<char>>, sym: Seq<char>, count: nat)
    requires
        trim(sym) == sym,
        no_newline(sym),
    ensures
        decode_block(ls, sym, count).0 matches Ok(a) ==> forall|j: int|
            0 <= j < a.len() ==> atom_ok(#[trigger] a[j]),
    decreases count,
{
    if count > 0 && ls.len() > 0 {
        lemma_block_decoded_ok(ls.drop_first(), sym, (count - 1) as nat);
        lemma_line_reals_ok(ls[0], 5);
        if let Ok(av) = atom_of(ls[0], sym) {
            if let Ok(rest) = decode_block(ls.drop_first(), sym, (count - 1) as nat).0 {
                let v = decode_line::<Real>(ls[0], 5)->Ok_0;
                assert(real_ok(v[0]) && real_ok(v[1]) && real_ok(v[2]));
                assert(atom_ok(av));
                let a = seq![av] + rest;
                assert forall|j: int| 0 <= j < a.len() implies atom_ok(#[trigger] a[j]) by {
                    if j > 0 {
                        assert(a[j] == rest[j - 1]);
                    }
                }
            }
        }
    }
}

pub proof fn lemma_blocks_decoded_ok(ls: Seq<Seq<char>>, counts: Seq<usize>)
    requires
        forall|i: int| 0 <= i < ls.len() ==> no_newline(#[trigger] ls[i]),
    ensures
        decode_blocks(ls, counts).0 matches Ok(a) ==> forall|j: int|
            0 <= j < a.len() ==> atom_ok(#[trigger] a[j]),
    decreases counts.len(),
{
    if counts.len() > 0 && ls.len() >= 2 {
        let sym = trim(ls[0]);
        lemma_trim(ls[0]);
        lemma_block_decoded_ok(ls.skip(2), sym, counts[0] as nat);
        let (r, k) = decode_block(ls.skip(2), sym, counts[0] as nat);
        if let Ok(b) = r {
            let rest_ls = ls.skip((2 + k) as int);
            crate::parser::lemma_block_ok(ls.skip(2), sym, counts[0] as nat);
            assert forall|i: int| 0 <= i < rest_ls.len() implies no_newline(#[trigger] rest_ls[i]) by {
                assert(rest_ls[i] == ls[i + 2 + k]);
            }
            lemma_blocks_decoded_ok(rest_ls, counts.drop_first());
            if let Ok(rest) = decode_blocks(rest_ls, counts.drop_first()).0 {
                let a = b + rest;
                assert forall|j: int| 0 <= j < a.len() implies atom_ok(#[trigger] a[j]) by {
                    if j < b.len() {
                        assert(a[j] == b[j]);
                    } else {
                        assert(a[j] == rest[j - b.len()]);
                    }
                }
            }
        }
    }
}

pub open spec fn ends_with_cr(l: Seq<char>) -> bool {
    l.len() > 0 && l.last() == '\r'
}

/// None of the four free-text header lines ends with a carriage return.
pub open spec fn header_text_plain(h: HeaderView) -> bool {
    forall|i: int| 0 <= i < 2 ==> !ends_with_cr(#[trigger] h.prebox[i]) && !ends_with_cr(
        h.postbox[i],
    )
}

pub proof fn lemma_decoded_encodable(ls: Seq<Seq<char>>)
    requires
        forall|i: int| 0 <= i < ls.len() ==> no_newline(#[trigger] ls[i]),
        decode_frame(ls).0 is Ok,
        header_text_plain(decode_frame(ls).0->Ok_0.header),
    ensures
        encodable(decode_frame(ls).0->Ok_0),
{
    let f = decode_frame(ls).0->Ok_0;
    let h = f.header;
    let k = decode_header(ls).1;
    lemma_frame_grouped(ls);
    lemma_line_reals_ok(ls[2], 3);
    lemma_line_reals_ok(ls[3], 3);
    lemma_line_reals_ok(ls[8], h.natm_types as nat);
    assert(h.prebox == seq![ls[0], ls[1]]);
    assert(h.postbox == seq![ls[4], ls[5]]);
    assert(!ends_with_cr(h.prebox[0]) && !ends_with_cr(h.postbox[0]));
    assert(!ends_with_cr(h.prebox[1]) && !ends_with_cr(h.postbox[1]));
    assert(no_newline(ls[0]) && no_newline(ls[1]) && no_newline(ls[4]) && no_newline(ls[5]));
    let rest = ls.skip(k as int);
    assert forall|i: int| 0 <= i < rest.len() implies no_newline(#[trigger] rest[i]) by {
        assert(rest[i] == ls[i + k]);
    }
    lemma_blocks_decoded_ok(rest, h.natms_per_type);
}

pub proof fn lemma_all_frames_encodable(ls: Seq<Seq<char>>)
    requires
        forall|i: int| 0 <= i < ls.len() ==> no_newline(#[trigger] ls[i]),
        forall|i: int|
            0 <= i < all_frames(ls).len() ==> (#[trigger] all_frames(ls)[i]) is Ok
                && header_text_plain(all_frames(ls)[i]->Ok_0.header),
    ensures
        forall|i: int|
            0 <= i < all_frames(ls).len() ==> encodable(#[trigger] all_frames(ls)[i]->Ok_0),
    decreases ls.len(),
{
    if ls.len() > 0 {
        crate::iterators::lemma_frame_consumes(ls);
        let k = decode_frame(ls).1;
        let rest = ls.skip(k as int);
        let fs = all_frames(ls);
        assert(fs == seq![decode_frame(ls).0] + all_frames(rest));
        assert(fs[0] is Ok && header_text_plain(fs[0]->Ok_0.header));
        lemma_decoded_encodable(ls);
        assert forall|i: int| 0 <= i < rest.len() implies no_newline(#[trigger] rest[i]) by {
            assert(rest[i] == ls[i + k]);
        }
        assert forall|i: int| 0 <= i < all_frames(rest).len() implies (
        #[trigger] all_frames(rest)[i]) is Ok && header_text_plain(
            all_frames(rest)[i]->Ok_0.header,
        ) by {
            assert(all_frames(rest)[i] == fs[i + 1]);
        }
        lemma_all_frames_encodable(rest);
        assert forall|i: int| 0 <= i < fs.len() implies encodable(#[trigger] fs[i]->Ok_0) by {
            if i > 0 {
                assert(fs[i] == all_frames(rest)[i - 1]);
            }
        }
    }
}

/// The frames read from a text, each taken out of its `Ok`.
pub open spec fn frames_read(text: Seq<char>) -> Seq<FrameView> {
    all_frames(lines_of(text)).map_values(|r: Result<FrameView, Fault>| r->Ok_0)
}

/// Reading a text whose frames all read, writing those frames back and reading
/// the written text again gives the same frames, field for field. The four
/// free-text header lines must not end with a carriage return, which reading
/// would take for part of a line end.
pub proof fn lemma_round_trip(text: Seq<char>)
    requires
        forall|i: int|
            0 <= i < all_frames(lines_of(text)).len() ==> (#[trigger] all_frames(
                lines_of(text),
            )[i]) is Ok && header_text_plain(all_frames(lines_of(text))[i]->Ok_0.header),
    ensures
        all_frames(lines_of(encode_frames(frames_read(text)))) == all_frames(lines_of(text)),
{
    let ls = lines_of(text);
    lemma_lines_no_newline(text, seq![]);
    lemma_all_frames_encodable(ls);
    let fs = frames_read(text);
    assert forall|i: int| 0 <= i < fs.len() implies encodable(#[trigger] fs[i]) by {
        assert(fs[i] == all_frames(ls)[i]->Ok_0);
    }
    lemma_frames_round_trip(fs);
    assert(fs.map_values(|f: FrameView| Ok::<FrameView, Fault>(f)) =~= all_frames(ls));
}

} // verus!
