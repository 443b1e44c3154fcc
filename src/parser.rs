//! Reading numeric lines, frame headers and whole frames from a sequence of
//! lines.

use vstd::prelude::*;
use crate::error::{Fault, ParseError};
use crate::number::{LineValue, Real};
use crate::types::{
    frame_shape, grouped, sum_counts, AtomDatum, AtomView, ConFrame, FrameHeader, FrameView,
    HeaderView,
};
use crate::text::trim;
use std::rc::Rc;
use crate::text::{chars_of, lines_of, string_of_range, token_spans, tokens_of, spans_view};

verus! {

/// `p` put before the values of an `Ok`.
pub open spec fn prefix_ok<A, E>(p: Seq<A>, r: Result<Seq<A>, E>) -> Result<Seq<A>, E> {
    match r {
        Ok(s) => Ok(p + s),
        Err(e) => Err(e),
    }
}

/// The values of the tokens, or the first token that is not one.
pub open spec fn parse_tokens<T: LineValue>(toks: Seq<Seq<char>>) -> Result<Seq<T>, Seq<char>>
    decreases toks.len(),
{
    if toks.len() == 0 {
        Ok(seq![])
    } else {
        match T::from_token(toks[0]) {
            None => Err(toks[0]),
            Some(v) => match parse_tokens::<T>(toks.drop_first()) {
                Ok(vs) => Ok(seq![v] + vs),
                Err(bad) => Err(bad),
            },
        }
    }
}

/// What reading a line as `n` values gives: every token is read first, then
/// the count is checked.
pub open spec fn decode_line<T: LineValue>(line: Seq<char>, n: nat) -> Result<Seq<T>, Fault> {
    match parse_tokens::<T>(tokens_of(line)) {
        Err(bad) => Err(Fault::InvalidNumberFormat(bad)),
        Ok(vals) => if vals.len() == n {
            Ok(vals)
        } else {
            Err(Fault::InvalidVectorLength { expected: n, found: vals.len() })
        },
    }
}

pub open spec fn values_result<T>(r: Result<Vec<T>, ParseError>) -> Result<Seq<T>, Fault> {
    match r {
        Ok(v) => Ok(v@),
        Err(e) => Err(e@),
    }
}

proof fn lemma_parse_tokens_len<T: LineValue>(toks: Seq<Seq<char>>)
    ensures
        parse_tokens::<T>(toks) matches Ok(vs) ==> vs.len() == toks.len(),
        parse_tokens::<T>(toks) is Ok <==> forall|i: int|
            0 <= i < toks.len() ==> (#[trigger] T::from_token(toks[i])) is Some,
    decreases toks.len(),
{
    if toks.len() > 0 {
        lemma_parse_tokens_len::<T>(toks.drop_first());
        if parse_tokens::<T>(toks) is Ok {
            assert forall|i: int| 0 <= i < toks.len() implies (#[trigger] T::from_token(
                toks[i],
            )) is Some by {
                if i > 0 {
                    assert(toks[i] == toks.drop_first()[i - 1]);
                }
            }
        }
        if forall|i: int| 0 <= i < toks.len() ==> (#[trigger] T::from_token(toks[i])) is Some {
            assert(T::from_token(toks[0]) is Some);
            assert forall|i: int| 0 <= i < toks.drop_first().len() implies (
            #[trigger] T::from_token(toks.drop_first()[i])) is Some by {
                assert(toks.drop_first()[i] == toks[i + 1]);
            }
        }
    }
}

/// A line holds `n` values exactly when it has `n` tokens and each is a value
/// of the type; otherwise reading it fails with a count or a format error, and
/// never yields part of the values.
pub proof fn lemma_arity<T: LineValue>(line: Seq<char>, n: nat)
    ensures
        decode_line::<T>(line, n) is Ok <==> (tokens_of(line).len() == n && forall|i: int|
            0 <= i < tokens_of(line).len() ==> (#[trigger] T::from_token(tokens_of(line)[i])) is Some),
        decode_line::<T>(line, n) matches Ok(v) ==> v.len() == n,
        decode_line::<T>(line, n) matches Err(e) ==> (e is InvalidVectorLength
            || e is InvalidNumberFormat),
{
    lemma_parse_tokens_len::<T>(tokens_of(line));
}

/// Reads a line, given as characters, as `n` values.
pub fn parse_chars_of_n<T: LineValue>(line: &Vec<char>, n: usize) -> (r: Result<Vec<T>, ParseError>)
    ensures
        values_result(r) == decode_line::<T>(line@, n as nat),
{
    let spans = token_spans(line);
    let ghost toks = tokens_of(line@);
    let mut vals: Vec<T> = Vec::new();
    let mut k: usize = 0;
    assert(toks.skip(0) =~= toks);
    assert(parse_tokens::<T>(toks) == prefix_ok(vals@, parse_tokens::<T>(toks.skip(0)))) by {
        assert(Seq::<T>::empty() + Seq::<T>::empty() =~= Seq::<T>::empty());
        match parse_tokens::<T>(toks) {
            Ok(s) => {
                assert(vals@ + s =~= s);
            },
            Err(_) => {},
        }
    }
    while k < spans.len()
        invariant
            k <= spans.len(),
            crate::text::spans_within(line@, spans@),
            toks == tokens_of(line@),
            spans_view(line@, spans@) == toks,
            vals@.len() == k,
            parse_tokens::<T>(toks) == prefix_ok(vals@, parse_tokens::<T>(toks.skip(k as int))),
        decreases spans.len() - k,
    {
        let (a, b) = spans[k];
        assert(spans@[k as int].0 <= spans@[k as int].1 <= line@.len());
        let ghost tk = toks.skip(k as int);
        assert(tk[0] == line@.subrange(a as int, b as int));
        assert(tk.drop_first() =~= toks.skip(k + 1));
        match T::parse_token(line, a, b) {
            None => {
                let bad = string_of_range(line, a, b);
                return Err(ParseError::InvalidNumberFormat(bad));
            },
            Some(v) => {
                let ghost before = vals@;
                vals.push(v);
                assert(parse_tokens::<T>(toks) == prefix_ok(
                    vals@,
                    parse_tokens::<T>(toks.skip(k + 1)),
                )) by {
                    match parse_tokens::<T>(toks.skip(k + 1)) {
                        Ok(s) => {
                            assert(before + (seq![v] + s) =~= vals@ + s);
                        },
                        Err(_) => {},
                    }
                }
            },
        }
        k += 1;
    }
    assert(toks.skip(k as int) =~= Seq::<Seq<char>>::empty());
    assert(vals@ + Seq::<T>::empty() =~= vals@);
    if vals.len() == n {
        Ok(vals)
    } else {
        let found = vals.len();
        Err(ParseError::InvalidVectorLength { expected: n, found })
    }
}

/// Reads a line of whitespace-separated tokens as exactly `n` values.
pub fn parse_line_of_n<T: LineValue>(line: &str, n: usize) -> (r: Result<Vec<T>, ParseError>)
    ensures
        values_result(r) == decode_line::<T>(line@, n as nat),
{
    let chars = chars_of(line);
    parse_chars_of_n(&chars, n)
}

/// A position in a sequence of lines; reading a line moves past it for good.
pub struct LineCursor {
    lines: Vec<Vec<char>>,
    pos: usize,
}

impl View for LineCursor {
    type V = Seq<Seq<char>>;

    /// The lines not read yet.
    closed spec fn view(&self) -> Seq<Seq<char>> {
        self.lines@.map_values(|l: Vec<char>| l@).skip(self.pos as int)
    }
}

impl LineCursor {
    #[verifier::type_invariant]
    closed spec fn inv(self) -> bool {
        self.pos <= self.lines.len()
    }

    /// A cursor at the first line of a text.
    pub fn new(text: &str) -> (r: LineCursor)
        ensures
            r@ == lines_of(text@),
    {
        let chars = chars_of(text);
        let lines = crate::text::split_lines(&chars);
        let r = LineCursor { lines, pos: 0 };
        assert(r@ =~= lines_of(text@));
        r
    }

    /// A cursor at the first of the given lines.
    pub fn from_lines(lines: &Vec<&str>) -> (r: LineCursor)
        ensures
            r@ == lines@.map_values(|l: &str| l@),
    {
        let mut out: Vec<Vec<char>> = Vec::new();
        let mut i: usize = 0;
        while i < lines.len()
            invariant
                i <= lines.len(),
                out@.map_values(|l: Vec<char>| l@) == lines@.map_values(|l: &str| l@).take(i as int),
            decreases lines.len() - i,
        {
            let ghost before = out@.map_values(|l: Vec<char>| l@);
            let cs = chars_of(lines[i]);
            out.push(cs);
            assert(out@.map_values(|l: Vec<char>| l@) =~= before.push(lines@[i as int]@));
            assert(out@.map_values(|l: Vec<char>| l@) =~= lines@.map_values(|l: &str| l@).take(i + 1));
            i += 1;
        }
        let r = LineCursor { lines: out, pos: 0 };
        assert(r@ =~= lines@.map_values(|l: &str| l@));
        r
    }

    /// Whether every line has been read.
    pub fn is_empty(&self) -> (r: bool)
        ensures
            r == (self@.len() == 0),
    {
        proof {
            use_type_invariant(self);
        }
        self.pos == self.lines.len()
    }

    /// The number of lines not read yet.
    pub fn remaining(&self) -> (r: usize)
        ensures
            r == self@.len(),
    {
        proof {
            use_type_invariant(self);
        }
        self.lines.len() - self.pos
    }

    /// Moves past the next line; gives its index in `lines`.
    fn take(&mut self) -> (r: Option<usize>)
        ensures
            final(self).lines == old(self).lines,
            old(self)@.len() == 0 ==> r is None && final(self)@ == old(self)@,
            old(self)@.len() > 0 ==> (r matches Some(i) && i < final(self).lines.len()
                && final(self).lines@[i as int]@ == old(self)@[0] && final(self)@ == old(
                self,
            )@.drop_first()),
    {
        proof {
            use_type_invariant(&*self);
        }
        if self.pos < self.lines.len() {
            let i = self.pos;
            self.pos = self.pos + 1;
            assert(self@ =~= old(self)@.drop_first());
            Some(i)
        } else {
            None
        }
    }

    /// Moves past the next `n` lines, if there are that many.
    pub fn skip(&mut self, n: usize) -> (r: bool)
        ensures
            r == (n <= old(self)@.len()),
            r ==> final(self)@ == old(self)@.skip(n as int),
            !r ==> final(self)@ == old(self)@.skip(old(self)@.len() as int),
    {
        proof {
            use_type_invariant(&*self);
        }
        if n <= self.lines.len() - self.pos {
            self.pos = self.pos + n;
            assert(self@ =~= old(self)@.skip(n as int));
            true
        } else {
            self.pos = self.lines.len();
            assert(self@ =~= old(self)@.skip(old(self)@.len() as int));
            false
        }
    }
}

/// Reading the header from the lines `ls`: what it gives, and how many lines
/// it consumed (up to and including the line where it failed).
pub open spec fn decode_header(ls: Seq<Seq<char>>) -> (Result<HeaderView, Fault>, nat) {
    if ls.len() < 3 {
        (Err(Fault::IncompleteHeader), ls.len())
    } else {
        match decode_line::<Real>(ls[2], 3) {
            Err(e) => (Err(e), 3),
            Ok(boxl) => if ls.len() < 4 {
                (Err(Fault::IncompleteHeader), ls.len())
            } else {
                match decode_line::<Real>(ls[3], 3) {
                    Err(e) => (Err(e), 4),
                    Ok(angles) => if ls.len() < 7 {
                        (Err(Fault::IncompleteHeader), ls.len())
                    } else {
                        match decode_line::<usize>(ls[6], 1) {
                            Err(e) => (Err(e), 7),
                            Ok(nt) => if ls.len() < 8 {
                                (Err(Fault::IncompleteHeader), ls.len())
                            } else {
                                match decode_line::<usize>(ls[7], nt[0] as nat) {
                                    Err(e) => (Err(e), 8),
                                    Ok(counts) => if ls.len() < 9 {
                                        (Err(Fault::IncompleteHeader), ls.len())
                                    } else {
                                        match decode_line::<Real>(ls[8], nt[0] as nat) {
                                            Err(e) => (Err(e), 9),
                                            Ok(masses) => (
                                                Ok(
                                                    HeaderView {
                                                        prebox: seq![ls[0], ls[1]],
                                                        boxl,
                                                        angles,
                                                        postbox: seq![ls[4], ls[5]],
                                                        natm_types: nt[0],
                                                        natms_per_type: counts,
                                                        masses_per_type: masses,
                                                    },
                                                ),
                                                9,
                                            ),
                                        }
                                    },
                                }
                            },
                        }
                    },
                }
            },
        }
    }
}

pub open spec fn header_result(r: Result<FrameHeader, ParseError>) -> Result<HeaderView, Fault> {
    match r {
        Ok(h) => Ok(h@),
        Err(e) => Err(e@),
    }
}

/// Reads the nine-line header of a frame.
pub fn parse_frame_header(lines: &mut LineCursor) -> (r: Result<FrameHeader, ParseError>)
    ensures
        header_result(r) == decode_header(old(lines)@).0,
        final(lines)@ == old(lines)@.skip(decode_header(old(lines)@).1 as int),
{
    let ghost ls = lines@;
    let i0 = match lines.take() {
        Some(i) => i,
        None => return Err(ParseError::IncompleteHeader),
    };
    let prebox1 = string_of_range(&lines.lines[i0], 0, lines.lines[i0].len());
    assert(prebox1@ =~= ls[0]);
    let i1 = match lines.take() {
        Some(i) => i,
        None => {
            assert(lines@ =~= ls.skip(ls.len() as int));
            return Err(ParseError::IncompleteHeader);
        },
    };
    let prebox2 = string_of_range(&lines.lines[i1], 0, lines.lines[i1].len());
    assert(prebox2@ =~= ls[1]);
    let i2 = match lines.take() {
        Some(i) => i,
        None => {
            assert(lines@ =~= ls.skip(ls.len() as int));
            return Err(ParseError::IncompleteHeader);
        },
    };
    assert(lines@ =~= ls.skip(3));
    let boxl = match parse_chars_of_n::<Real>(&lines.lines[i2], 3) {
        Ok(v) => v,
        Err(e) => return Err(e),
    };
    let i3 = match lines.take() {
        Some(i) => i,
        None => {
            assert(lines@ =~= ls.skip(ls.len() as int));
            return Err(ParseError::IncompleteHeader);
        },
    };
    assert(lines@ =~= ls.skip(4));
    let angles = match parse_chars_of_n::<Real>(&lines.lines[i3], 3) {
        Ok(v) => v,
        Err(e) => return Err(e),
    };
    let i4 = match lines.take() {
        Some(i) => i,
        None => {
            assert(lines@ =~= ls.skip(ls.len() as int));
            return Err(ParseError::IncompleteHeader);
        },
    };
    let postbox1 = string_of_range(&lines.lines[i4], 0, lines.lines[i4].len());
    assert(postbox1@ =~= ls[4]);
    let i5 = match lines.take() {
        Some(i) => i,
        None => {
            assert(lines@ =~= ls.skip(ls.len() as int));
            return Err(ParseError::IncompleteHeader);
        },
    };
    let postbox2 = string_of_range(&lines.lines[i5], 0, lines.lines[i5].len());
    assert(postbox2@ =~= ls[5]);
    let i6 = match lines.take() {
        Some(i) => i,
        None => {
            assert(lines@ =~= ls.skip(ls.len() as int));
            return Err(ParseError::IncompleteHeader);
        },
    };
    assert(lines@ =~= ls.skip(7));
    let nt = match parse_chars_of_n::<usize>(&lines.lines[i6], 1) {
        Ok(v) => v,
        Err(e) => return Err(e),
    };
    let natm_types = nt[0];
    let i7 = match lines.take() {
        Some(i) => i,
        None => {
            assert(lines@ =~= ls.skip(ls.len() as int));
            return Err(ParseError::IncompleteHeader);
        },
    };
    assert(lines@ =~= ls.skip(8));
    let natms_per_type = match parse_chars_of_n::<usize>(&lines.lines[i7], natm_types) {
        Ok(v) => v,
        Err(e) => return Err(e),
    };
    let i8 = match lines.take() {
        Some(i) => i,
        None => {
            assert(lines@ =~= ls.skip(ls.len() as int));
            return Err(ParseError::IncompleteHeader);
        },
    };
    assert(lines@ =~= ls.skip(9));
    let masses_per_type = match parse_chars_of_n::<Real>(&lines.lines[i8], natm_types) {
        Ok(v) => v,
        Err(e) => return Err(e),
    };
    let h = FrameHeader {
        prebox_header: [prebox1, prebox2],
        boxl: [boxl[0], boxl[1], boxl[2]],
        angles: [angles[0], angles[1], angles[2]],
        postbox_header: [postbox1, postbox2],
        natm_types,
        natms_per_type,
        masses_per_type,
    };
    assert(h@.boxl =~= boxl@);
    assert(h@.angles =~= angles@);
    assert(h@.prebox =~= seq![ls[0], ls[1]]);
    assert(h@.postbox =~= seq![ls[4], ls[5]]);
    Ok(h)
}

/// An atom's identifier read from a real: its whole part, or zero when it is
/// not positive.
pub open spec fn id_of(r: Real) -> u64 {
    if r.micros > 0 {
        (r.micros / 1000000) as u64
    } else {
        0
    }
}

/// A coordinate line `x y z fixed id` of an atom with label `sym`.
pub open spec fn atom_of(line: Seq<char>, sym: Seq<char>) -> Result<AtomView, Fault> {
    match decode_line::<Real>(line, 5) {
        Err(e) => Err(e),
        Ok(v) => Ok(
            AtomView {
                symbol: sym,
                x: v[0],
                y: v[1],
                z: v[2],
                is_fixed: v[3].micros != 0,
                atom_id: id_of(v[4]),
            },
        ),
    }
}

/// Reading `count` coordinate lines: the atoms, and the lines consumed.
pub open spec fn decode_block(ls: Seq<Seq<char>>, sym: Seq<char>, count: nat) -> (Result<
    Seq<AtomView>,
    Fault,
>, nat)
    decreases count,
{
    if count == 0 {
        (Ok(seq![]), 0)
    } else if ls.len() == 0 {
        (Err(Fault::IncompleteFrame), 0)
    } else {
        match atom_of(ls[0], sym) {
            Err(e) => (Err(e), 1),
            Ok(a) => {
                let (r, k) = decode_block(ls.drop_first(), sym, (count - 1) as nat);
                (prefix_ok(seq![a], r), k + 1)
            },
        }
    }
}

/// Reading one block per count: a label line, a marker line, then the
/// block's coordinate lines.
pub open spec fn decode_blocks(ls: Seq<Seq<char>>, counts: Seq<usize>) -> (Result<
    Seq<AtomView>,
    Fault,
>, nat)
    decreases counts.len(),
{
    if counts.len() == 0 {
        (Ok(seq![]), 0)
    } else if ls.len() < 2 {
        (Err(Fault::IncompleteFrame), ls.len())
    } else {
        let (r, k) = decode_block(ls.skip(2), trim(ls[0]), counts[0] as nat);
        match r {
            Err(e) => (Err(e), k + 2),
            Ok(atoms) => {
                let (r2, k2) = decode_blocks(ls.skip((2 + k) as int), counts.drop_first());
                (prefix_ok(atoms, r2), 2 + k + k2)
            },
        }
    }
}

/// Reading a whole frame from `ls`: what it gives, and the lines consumed.
pub open spec fn decode_frame(ls: Seq<Seq<char>>) -> (Result<FrameView, Fault>, nat) {
    let (h, k) = decode_header(ls);
    match h {
        Err(e) => (Err(e), k),
        Ok(hv) => {
            let (r, k2) = decode_blocks(ls.skip(k as int), hv.natms_per_type);
            match r {
                Err(e) => (Err(e), k + k2),
                Ok(atoms) => (Ok(FrameView { header: hv, atoms }), k + k2),
            }
        },
    }
}

pub open spec fn frame_result(r: Result<ConFrame, ParseError>) -> Result<FrameView, Fault> {
    match r {
        Ok(f) => Ok(f@),
        Err(e) => Err(e@),
    }
}

pub open spec fn shift<A, E>(p: Seq<A>, c: nat, rk: (Result<Seq<A>, E>, nat)) -> (Result<Seq<A>, E>, nat) {
    (prefix_ok(p, rk.0), c + rk.1)
}

proof fn lemma_shift_assoc<A, E>(p: Seq<A>, q: Seq<A>, c: nat, d: nat, rk: (Result<Seq<A>, E>, nat))
    ensures
        shift(p, c, shift(q, d, rk)) == shift(p + q, c + d, rk),
{
    match rk.0 {
        Ok(s) => {
            assert(p + (q + s) =~= (p + q) + s);
        },
        Err(_) => {},
    }
}

pub open spec fn atoms_view(v: Seq<AtomDatum>) -> Seq<AtomView> {
    v.map_values(|a: AtomDatum| a@)
}

/// Reads `count` coordinate lines of atoms labelled `sym`, appending them.
fn read_block(
    lines: &mut LineCursor,
    sym: &Rc<String>,
    count: usize,
    atoms: &mut Vec<AtomDatum>,
) -> (r: Result<(), ParseError>)
    ensures
        decode_block(old(lines)@, sym@, count as nat).1 <= old(lines)@.len(),
        final(lines)@ == old(lines)@.skip(decode_block(old(lines)@, sym@, count as nat).1 as int),
        match decode_block(old(lines)@, sym@, count as nat).0 {
            Ok(s) => r is Ok && atoms_view(final(atoms)@) == atoms_view(old(atoms)@) + s,
            Err(e) => r matches Err(x) && x@ == e,
        },
{
    let ghost blk = lines@;
    let ghost symv = sym@;
    let ghost before = atoms_view(atoms@);
    let ghost start = atoms@.len();
    let mut j: usize = 0;
    proof {
        assert(blk.skip(0) =~= blk);
        match decode_block(blk, symv, count as nat).0 {
            Ok(s) => {
                assert(Seq::<AtomView>::empty() + s =~= s);
            },
            Err(_) => {},
        }
        assert(atoms_view(atoms@).skip(start as int) =~= Seq::<AtomView>::empty());
    }
    while j < count
        invariant
            j <= count,
            blk == old(lines)@,
            sym@ == symv,
            start <= atoms@.len(),
            atoms_view(atoms@).take(start as int) == before,
            before.len() == start,
            lines@ == blk.skip(j as int),
            j <= blk.len(),
            decode_block(blk, symv, count as nat) == shift(
                atoms_view(atoms@).skip(start as int),
                j as nat,
                decode_block(lines@, symv, (count - j) as nat),
            ),
        decreases count - j,
    {
        let ghost lj = lines@;
        let ghost done = atoms_view(atoms@).skip(start as int);
        let il = match lines.take() {
            Some(i) => i,
            None => {
                assert(decode_block(lj, symv, (count - j) as nat) == (Err::<Seq<AtomView>, Fault>(
                    Fault::IncompleteFrame,
                ), 0nat));
                assert(lines@ =~= blk.skip(j as int));
                assert(decode_block(blk, symv, count as nat).1 == j);
                assert(decode_block(blk, symv, count as nat).0 == Err::<Seq<AtomView>, Fault>(
                    Fault::IncompleteFrame,
                ));
                return Err(ParseError::IncompleteFrame);
            },
        };
        let vals = match parse_chars_of_n::<Real>(&lines.lines[il], 5) {
            Ok(v) => v,
            Err(e) => {
                assert(atom_of(lj[0], symv) == Err::<AtomView, Fault>(e@));
                assert(decode_block(lj, symv, (count - j) as nat) == (Err::<Seq<AtomView>, Fault>(
                    e@,
                ), 1nat));
                assert(lines@ =~= blk.skip(j + 1));
                return Err(e);
            },
        };
        let atom = AtomDatum {
            symbol: sym.clone(),
            x: vals[0],
            y: vals[1],
            z: vals[2],
            is_fixed: vals[3].micros != 0,
            atom_id: if vals[4].micros > 0 {
                (vals[4].micros / 1000000) as u64
            } else {
                0
            },
        };
        let ghost av = atom@;
        assert(atom_of(lj[0], symv) == Ok::<AtomView, Fault>(av));
        atoms.push(atom);
        proof {
            assert(lj.drop_first() =~= blk.skip(j + 1));
            lemma_shift_assoc(
                done,
                seq![av],
                j as nat,
                1,
                decode_block(lines@, symv, (count - j - 1) as nat),
            );
            assert(atoms_view(atoms@).skip(start as int) =~= done + seq![av]);
            assert(atoms_view(atoms@).take(start as int) =~= before);
        }
        j += 1;
    }
    proof {
        let done = atoms_view(atoms@).skip(start as int);
        assert(done + Seq::<AtomView>::empty() =~= done);
        assert(atoms_view(atoms@) =~= before + done);
    }
    Ok(())
}

/// Reads one block per count, appending the atoms.
fn read_blocks(lines: &mut LineCursor, counts: &Vec<usize>, atoms: &mut Vec<AtomDatum>) -> (r:
    Result<(), ParseError>)
    ensures
        decode_blocks(old(lines)@, counts@).1 <= old(lines)@.len(),
        final(lines)@ == old(lines)@.skip(decode_blocks(old(lines)@, counts@).1 as int),
        match decode_blocks(old(lines)@, counts@).0 {
            Ok(s) => r is Ok && atoms_view(final(atoms)@) == atoms_view(old(atoms)@) + s,
            Err(e) => r matches Err(x) && x@ == e,
        },
{
    let ghost rest0 = lines@;
    let ghost before = atoms_view(atoms@);
    let ghost start = atoms@.len();
    let mut t: usize = 0;
    let ghost mut used: nat = 0;
    proof {
        assert(counts@.skip(0) =~= counts@);
        assert(rest0.skip(0) =~= rest0);
        match decode_blocks(rest0, counts@).0 {
            Ok(s) => {
                assert(Seq::<AtomView>::empty() + s =~= s);
            },
            Err(_) => {},
        }
        assert(atoms_view(atoms@).skip(start as int) =~= Seq::<AtomView>::empty());
    }
    while t < counts.len()
        invariant
            t <= counts.len(),
            rest0 == old(lines)@,
            start <= atoms@.len(),
            atoms_view(atoms@).take(start as int) == before,
            before.len() == start,
            lines@ == rest0.skip(used as int),
            used <= rest0.len(),
            decode_blocks(rest0, counts@) == shift(
                atoms_view(atoms@).skip(start as int),
                used,
                decode_blocks(lines@, counts@.skip(t as int)),
            ),
        decreases counts.len() - t,
    {
        let ghost ls_t = lines@;
        let ghost done = atoms_view(atoms@).skip(start as int);
        let ghost cs = counts@.skip(t as int);
        assert(cs.drop_first() =~= counts@.skip(t + 1));
        assert(cs[0] == counts@[t as int]);
        let il = match lines.take() {
            Some(i) => i,
            None => {
                assert(decode_blocks(ls_t, cs) == (Err::<Seq<AtomView>, Fault>(
                    Fault::IncompleteFrame,
                ), 0nat));
                assert(lines@ =~= rest0.skip(used as int));
                return Err(ParseError::IncompleteFrame);
            },
        };
        let (a, b) = crate::text::trim_bounds(&lines.lines[il]);
        let sym = Rc::new(string_of_range(&lines.lines[il], a, b));
        match lines.take() {
            Some(_) => {},
            None => {
                assert(decode_blocks(ls_t, cs) == (Err::<Seq<AtomView>, Fault>(
                    Fault::IncompleteFrame,
                ), 1nat));
                assert(lines@ =~= rest0.skip((used + 1) as int));
                return Err(ParseError::IncompleteFrame);
            },
        }
        assert(lines@ =~= ls_t.skip(2));
        let ghost blk = lines@;
        let ghost mid = atoms_view(atoms@);
        let res = read_block(lines, &sym, counts[t], atoms);
        let ghost k = decode_block(blk, sym@, counts@[t as int] as nat).1;
        match res {
            Ok(()) => {},
            Err(e) => {
                assert(lines@ =~= rest0.skip((used + 2 + k) as int));
                return Err(e);
            },
        }
        proof {
            let bdone = atoms_view(atoms@).skip(start as int);
            let s = decode_block(blk, sym@, counts@[t as int] as nat).0->Ok_0;
            assert(mid =~= before + done);
            assert(bdone =~= done + s);
            assert(atoms_view(atoms@).take(start as int) =~= before);
            assert(lines@ =~= ls_t.skip((2 + k) as int));
            lemma_shift_assoc(done, s, used, 2 + k, decode_blocks(lines@, counts@.skip(t + 1)));
            used = used + 2 + k;
            assert(lines@ =~= rest0.skip(used as int));
        }
        t += 1;
    }
    proof {
        let done = atoms_view(atoms@).skip(start as int);
        assert(counts@.skip(t as int) =~= Seq::<usize>::empty());
        assert(done + Seq::<AtomView>::empty() =~= done);
        assert(atoms_view(atoms@) =~= before + done);
    }
    Ok(())
}

/// Reads one frame: the header, then each type's label, marker and
/// coordinate lines.
pub fn parse_single_frame(lines: &mut LineCursor) -> (r: Result<ConFrame, ParseError>)
    ensures
        frame_result(r) == decode_frame(old(lines)@).0,
        final(lines)@ == old(lines)@.skip(decode_frame(old(lines)@).1 as int),
        r matches Ok(f) ==> f.wf() && grouped(f@.atoms, f@.header.natms_per_type),
{
    let ghost ls = lines@;
    proof {
        lemma_frame_grouped(ls);
    }
    let header = match parse_frame_header(lines) {
        Ok(h) => h,
        Err(e) => return Err(e),
    };
    let ghost k0 = decode_header(ls).1;
    let ghost rest0 = lines@;
    let mut atom_data: Vec<AtomDatum> = Vec::new();
    let res = read_blocks(lines, &header.natms_per_type, &mut atom_data);
    let ghost k1 = decode_blocks(rest0, header.natms_per_type@).1;
    assert(lines@ =~= ls.skip((k0 + k1) as int));
    match res {
        Ok(()) => {
            assert(atoms_view(atom_data@) =~= Seq::<AtomView>::empty() + decode_blocks(
                rest0,
                header.natms_per_type@,
            ).0->Ok_0);
            Ok(ConFrame { header, atom_data })
        },
        Err(e) => Err(e),
    }
}

pub proof fn lemma_block_ok(ls: Seq<Seq<char>>, sym: Seq<char>, count: nat)
    ensures
        decode_block(ls, sym, count).1 <= ls.len(),
        decode_block(ls, sym, count).0 matches Ok(a) ==> {
            &&& a.len() == count
            &&& decode_block(ls, sym, count).1 == count
            &&& forall|j: int| 0 <= j < a.len() ==> (#[trigger] a[j]).symbol == sym
        },
    decreases count,
{
    if count > 0 && ls.len() > 0 {
        lemma_block_ok(ls.drop_first(), sym, (count - 1) as nat);
        match atom_of(ls[0], sym) {
            Ok(av) => {
                match decode_block(ls.drop_first(), sym, (count - 1) as nat).0 {
                    Ok(rest) => {
                        let a = seq![av] + rest;
                        assert forall|j: int| 0 <= j < a.len() implies (#[trigger] a[j]).symbol
                            == sym by {
                            if j > 0 {
                                assert(a[j] == rest[j - 1]);
                            }
                        }
                    },
                    Err(_) => {},
                }
            },
            Err(_) => {},
        }
    }
}

pub proof fn lemma_blocks_ok(ls: Seq<Seq<char>>, counts: Seq<usize>)
    ensures
        decode_blocks(ls, counts).1 <= ls.len(),
        decode_blocks(ls, counts).0 matches Ok(a) ==> {
            &&& a.len() == sum_counts(counts)
            &&& decode_blocks(ls, counts).1 == sum_counts(counts) + 2 * counts.len()
            &&& grouped(a, counts)
        },
    decreases counts.len(),
{
    if counts.len() > 0 && ls.len() >= 2 {
        let sym = trim(ls[0]);
        lemma_block_ok(ls.skip(2), sym, counts[0] as nat);
        let (r, k) = decode_block(ls.skip(2), sym, counts[0] as nat);
        match r {
            Ok(b) => {
                lemma_blocks_ok(ls.skip((2 + k) as int), counts.drop_first());
                match decode_blocks(ls.skip((2 + k) as int), counts.drop_first()).0 {
                    Ok(rest) => {
                        let a = b + rest;
                        assert(a.skip(counts[0] as int) =~= rest);
                        assert forall|j: int| 0 <= j < counts[0] implies (
                        #[trigger] a[j]).symbol == a[0].symbol by {
                            assert(a[j] == b[j]);
                            assert(a[0] == b[0]);
                        }
                    },
                    Err(_) => {},
                }
            },
            Err(_) => {},
        }
    }
}

/// A frame read successfully has one count and one mass per type, as many
/// atoms as the counts add up to, and its atoms in one run per type, in the
/// header's type order, each run of one label.
pub proof fn lemma_frame_grouped(ls: Seq<Seq<char>>)
    ensures
        decode_frame(ls).1 <= ls.len(),
        decode_frame(ls).0 matches Ok(f) ==> frame_shape(f) && grouped(
            f.atoms,
            f.header.natms_per_type,
        ),
{
    let (h, k) = decode_header(ls);
    if let Ok(hv) = h {
        lemma_blocks_ok(ls.skip(k as int), hv.natms_per_type);
    }
}

} // verus!
