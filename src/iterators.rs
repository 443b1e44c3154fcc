//! Frame-by-frame reading of a multi-frame text, with a fast path that skips a
//! frame from its header alone.

use vstd::prelude::*;
use crate::error::{Fault, ParseError};
use crate::parser::{
    decode_frame, decode_header, frame_result, lemma_blocks_ok, lemma_frame_grouped,
    parse_frame_header, parse_single_frame, LineCursor,
};
use crate::text::lines_of;
use crate::types::{sum_counts, ConFrame, FrameView};

verus! {

/// Skipping a frame from `ls`: the header is read in full, then as many lines
/// as its counts promise are passed over.
pub open spec fn skip_frame(ls: Seq<Seq<char>>) -> (Result<(), Fault>, nat) {
    let (h, k) = decode_header(ls);
    match h {
        Err(e) => (Err(e), k),
        Ok(hv) => {
            let need = sum_counts(hv.natms_per_type) + 2 * hv.natm_types;
            if ls.len() - k < need {
                (Err(Fault::IncompleteFrame), ls.len())
            } else {
                (Ok(()), (k + need) as nat)
            }
        },
    }
}

/// What `next` gives on the lines `ls`, and the lines it consumes.
pub open spec fn next_step(ls: Seq<Seq<char>>) -> (Option<Result<FrameView, Fault>>, nat) {
    if ls.len() == 0 {
        (None, 0)
    } else {
        (Some(decode_frame(ls).0), decode_frame(ls).1)
    }
}

/// What `forward` gives on the lines `ls`, and the lines it consumes.
pub open spec fn forward_step(ls: Seq<Seq<char>>) -> (Option<Result<(), Fault>>, nat) {
    if ls.len() == 0 {
        (None, 0)
    } else {
        (Some(skip_frame(ls).0), skip_frame(ls).1)
    }
}

/// Reads frames from the lines of a text, one at a time.
pub struct ConFrameIterator {
    lines: LineCursor,
}

impl View for ConFrameIterator {
    type V = Seq<Seq<char>>;

    /// The lines not consumed yet.
    closed spec fn view(&self) -> Seq<Seq<char>> {
        self.lines@
    }
}

impl ConFrameIterator {
    /// An iterator over the frames of a whole text.
    pub fn new(file_contents: &str) -> (r: ConFrameIterator)
        ensures
            r@ == lines_of(file_contents@),
    {
        ConFrameIterator { lines: LineCursor::new(file_contents) }
    }

    /// Reads the next frame in full; `None` only once no line is left.
    pub fn next(&mut self) -> (r: Option<Result<ConFrame, ParseError>>)
        ensures
            match next_step(old(self)@).0 {
                None => r is None,
                Some(x) => r matches Some(y) && frame_result(y) == x,
            },
            final(self)@ == old(self)@.skip(next_step(old(self)@).1 as int),
            r matches Some(Ok(f)) ==> f.wf(),
    {
        if self.lines.is_empty() {
            assert(self@.skip(0) =~= self@);
            return None;
        }
        Some(parse_single_frame(&mut self.lines))
    }

    /// Passes over the next frame without building its atoms; `None` only once
    /// no line is left.
    pub fn forward(&mut self) -> (r: Option<Result<(), ParseError>>)
        ensures
            match forward_step(old(self)@).0 {
                None => r is None,
                Some(Ok(())) => r matches Some(Ok(())),
                Some(Err(e)) => r matches Some(Err(x)) && x@ == e,
            },
            final(self)@ == old(self)@.skip(forward_step(old(self)@).1 as int),
    {
        if self.lines.is_empty() {
            assert(self@.skip(0) =~= self@);
            return None;
        }
        let ghost ls = self@;
        let header = match parse_frame_header(&mut self.lines) {
            Ok(h) => h,
            Err(e) => return Some(Err(e)),
        };
        let ghost k = decode_header(ls).1;
        assert(self.lines@ =~= ls.skip(k as int));
        let ghost counts = header.natms_per_type@;
        let rem = self.lines.remaining();
        let mut total: usize = 0;
        let mut i: usize = 0;
        assert(counts.skip(0) =~= counts);
        while i < header.natms_per_type.len()
            invariant
                i <= counts.len(),
                ls == old(self)@,
                k <= ls.len(),
                self.lines@ == ls.skip(k as int),
                decode_header(ls) == (Ok::<crate::types::HeaderView, Fault>(header@), k),
                counts == header.natms_per_type@,
                rem == self.lines@.len(),
                total <= rem,
                total + sum_counts(counts.skip(i as int)) == sum_counts(counts),
            decreases counts.len() - i,
        {
            let c = header.natms_per_type[i];
            assert(counts.skip(i as int).drop_first() =~= counts.skip(i + 1));
            if c > rem - total {
                proof {
                    lemma_sum_counts_nonneg(counts.skip(i + 1));
                }
                self.lines.skip(rem);
                assert(self.lines@ =~= ls.skip(ls.len() as int));
                return Some(Err(ParseError::IncompleteFrame));
            }
            total = total + c;
            i += 1;
        }
        assert(counts.skip(i as int) =~= Seq::<usize>::empty());
        assert(header.natms_per_type@.len() == header.natm_types);
        if header.natm_types > (rem - total) / 2 {
            self.lines.skip(rem);
            assert(self.lines@ =~= ls.skip(ls.len() as int));
            return Some(Err(ParseError::IncompleteFrame));
        }
        let need = total + 2 * header.natm_types;
        self.lines.skip(need);
        assert(self.lines@ =~= ls.skip(k + need));
        Some(Ok(()))
    }
}

pub proof fn lemma_sum_counts_nonneg(c: Seq<usize>)
    ensures
        sum_counts(c) >= 0,
    decreases c.len(),
{
    if c.len() > 0 {
        lemma_sum_counts_nonneg(c.drop_first());
    }
}

/// Every frame of `ls`, read one after the other with `next` until no line is
/// left.
pub open spec fn all_frames(ls: Seq<Seq<char>>) -> Seq<Result<FrameView, Fault>>
    decreases ls.len(),
{
    if ls.len() == 0 {
        seq![]
    } else {
        let k = decode_frame(ls).1;
        if 0 < k <= ls.len() {
            seq![decode_frame(ls).0] + all_frames(ls.skip(k as int))
        } else {
            seq![decode_frame(ls).0]
        }
    }
}

/// The lines left after reading `n` frames in full.
pub open spec fn after_frames(ls: Seq<Seq<char>>, n: nat) -> Seq<Seq<char>>
    decreases n,
{
    if n == 0 || ls.len() == 0 {
        ls
    } else {
        let k = decode_frame(ls).1;
        if 0 < k <= ls.len() {
            after_frames(ls.skip(k as int), (n - 1) as nat)
        } else {
            seq![]
        }
    }
}

/// The lines left after one call per mode: `true` for `next`, `false` for
/// `forward`.
pub open spec fn run(ls: Seq<Seq<char>>, modes: Seq<bool>) -> Seq<Seq<char>>
    decreases modes.len(),
{
    if modes.len() == 0 {
        ls
    } else {
        let k = if modes[0] {
            next_step(ls).1
        } else {
            forward_step(ls).1
        };
        run(ls.skip(k as int), modes.drop_first())
    }
}

/// Reading a frame consumes at least one line of what is left, and no more.
pub proof fn lemma_frame_consumes(ls: Seq<Seq<char>>)
    requires
        ls.len() > 0,
    ensures
        0 < decode_frame(ls).1 <= ls.len(),
{
    lemma_frame_grouped(ls);
}

/// Skipping a frame that would read in full consumes exactly the lines that
/// reading it does; on a header that does not read, skipping fails with the
/// same error after the same lines.
pub proof fn lemma_skip_agrees(ls: Seq<Seq<char>>)
    ensures
        decode_frame(ls).0 is Ok ==> skip_frame(ls) == (Ok::<(), Fault>(()), decode_frame(ls).1),
        decode_header(ls).0 is Err ==> skip_frame(ls).1 == decode_frame(ls).1 && skip_frame(ls).0
            == Err::<(), Fault>(decode_frame(ls).0->Err_0),
{
    let (h, k) = decode_header(ls);
    if let Ok(hv) = h {
        lemma_blocks_ok(ls.skip(k as int), hv.natms_per_type);
    }
}

proof fn lemma_run_empty(modes: Seq<bool>)
    ensures
        run(Seq::<Seq<char>>::empty(), modes) == Seq::<Seq<char>>::empty(),
    decreases modes.len(),
{
    if modes.len() > 0 {
        assert(Seq::<Seq<char>>::empty().skip(0) =~= Seq::<Seq<char>>::empty());
        lemma_run_empty(modes.drop_first());
    }
}

proof fn lemma_after_empty(n: nat)
    ensures
        after_frames(Seq::<Seq<char>>::empty(), n) == Seq::<Seq<char>>::empty(),
{
}

/// On a text whose frames all read, any mix of `next` and `forward` calls
/// reaches the state that as many `next` calls reach; a `next` after `n` such
/// calls yields the frame in place `n`, and once there have been as many calls
/// as frames, no line is left.
pub proof fn lemma_skip_equivalence(ls: Seq<Seq<char>>, modes: Seq<bool>)
    requires
        forall|i: int| 0 <= i < all_frames(ls).len() ==> (#[trigger] all_frames(ls)[i]) is Ok,
    ensures
        run(ls, modes) == after_frames(ls, modes.len()),
        modes.len() >= all_frames(ls).len() ==> run(ls, modes).len() == 0,
        modes.len() < all_frames(ls).len() ==> next_step(run(ls, modes)).0 == Some(
            all_frames(ls)[modes.len() as int],
        ),
    decreases modes.len(),
{
    if ls.len() == 0 {
        assert(ls =~= Seq::<Seq<char>>::empty());
        lemma_run_empty(modes);
        lemma_after_empty(modes.len());
    } else {
        lemma_frame_consumes(ls);
        let k = decode_frame(ls).1;
        let rest = ls.skip(k as int);
        let fs = all_frames(ls);
        assert(fs == seq![decode_frame(ls).0] + all_frames(rest));
        assert(fs[0] is Ok);
        if modes.len() > 0 {
            lemma_skip_agrees(ls);
            assert(next_step(ls).1 == k);
            assert(forward_step(ls).1 == k);
            assert(run(ls, modes) == run(rest, modes.drop_first()));
            assert(after_frames(ls, modes.len()) == after_frames(rest, (modes.len() - 1) as nat));
            assert forall|i: int| 0 <= i < all_frames(rest).len() implies (
            #[trigger] all_frames(rest)[i]) is Ok by {
                assert(all_frames(rest)[i] == fs[i + 1]);
            }
            lemma_skip_equivalence(rest, modes.drop_first());
            if modes.len() < fs.len() {
                assert(all_frames(rest)[modes.len() - 1] == fs[modes.len() as int]);
            }
        }
    }
}

} // verus!
