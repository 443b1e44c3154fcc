//! The data a frame holds.

use vstd::prelude::*;
use std::rc::Rc;
use crate::number::Real;

pub use crate::error::ParseError;

verus! {

/// The nine-line header of a frame.
#[derive(Debug, Clone)]
pub struct FrameHeader {
    /// The two text lines before the box lengths.
    pub prebox_header: [String; 2],
    /// The three box lengths.
    pub boxl: [Real; 3],
    /// The three box angles.
    pub angles: [Real; 3],
    /// The two text lines after the box angles.
    pub postbox_header: [String; 2],
    /// The number of atom types.
    pub natm_types: usize,
    /// The number of atoms of each type.
    pub natms_per_type: Vec<usize>,
    /// The mass of each type.
    pub masses_per_type: Vec<Real>,
}

/// One atom of a frame.
#[derive(Debug, Clone)]
pub struct AtomDatum {
    /// The type's label, shared by every atom of the type.
    pub symbol: Rc<String>,
    pub x: Real,
    pub y: Real,
    pub z: Real,
    /// Whether the atom's position is held fixed.
    pub is_fixed: bool,
    /// The atom's identifier.
    pub atom_id: u64,
}

/// A whole frame: its header and its atoms, grouped by type in header order.
#[derive(Debug, Clone)]
pub struct ConFrame {
    pub header: FrameHeader,
    pub atom_data: Vec<AtomDatum>,
}

pub struct HeaderView {
    pub prebox: Seq<Seq<char>>,
    pub boxl: Seq<Real>,
    pub angles: Seq<Real>,
    pub postbox: Seq<Seq<char>>,
    pub natm_types: usize,
    pub natms_per_type: Seq<usize>,
    pub masses_per_type: Seq<Real>,
}

pub struct AtomView {
    pub symbol: Seq<char>,
    pub x: Real,
    pub y: Real,
    pub z: Real,
    pub is_fixed: bool,
    pub atom_id: u64,
}

pub struct FrameView {
    pub header: HeaderView,
    pub atoms: Seq<AtomView>,
}

impl View for FrameHeader {
    type V = HeaderView;

    open spec fn view(&self) -> HeaderView {
        HeaderView {
            prebox: seq![self.prebox_header@[0]@, self.prebox_header@[1]@],
            boxl: self.boxl@,
            angles: self.angles@,
            postbox: seq![self.postbox_header@[0]@, self.postbox_header@[1]@],
            natm_types: self.natm_types,
            natms_per_type: self.natms_per_type@,
            masses_per_type: self.masses_per_type@,
        }
    }
}

impl View for AtomDatum {
    type V = AtomView;

    open spec fn view(&self) -> AtomView {
        AtomView {
            symbol: self.symbol@,
            x: self.x,
            y: self.y,
            z: self.z,
            is_fixed: self.is_fixed,
            atom_id: self.atom_id,
        }
    }
}

impl View for ConFrame {
    type V = FrameView;

    open spec fn view(&self) -> FrameView {
        FrameView {
            header: self.header@,
            atoms: self.atom_data@.map_values(|a: AtomDatum| a@),
        }
    }
}

/// The total of a sequence of counts.
pub open spec fn sum_counts(c: Seq<usize>) -> int
    decreases c.len(),
{
    if c.len() == 0 {
        0
    } else {
        c[0] + sum_counts(c.drop_first())
    }
}

/// The atoms come in one contiguous run per type, in type order, each run as
/// long as its count and all of one label.
pub open spec fn grouped(atoms: Seq<AtomView>, counts: Seq<usize>) -> bool
    decreases counts.len(),
{
    if counts.len() == 0 {
        atoms.len() == 0
    } else {
        &&& atoms.len() >= counts[0]
        &&& forall|j: int| 0 <= j < counts[0] ==> (#[trigger] atoms[j]).symbol == atoms[0].symbol
        &&& grouped(atoms.skip(counts[0] as int), counts.drop_first())
    }
}

/// The shape every frame has: one count and one mass per type, and as many
/// atoms as the counts add up to.
pub open spec fn frame_shape(f: FrameView) -> bool {
    &&& f.header.natms_per_type.len() == f.header.natm_types
    &&& f.header.masses_per_type.len() == f.header.natm_types
    &&& f.atoms.len() == sum_counts(f.header.natms_per_type)
}

impl ConFrame {
    pub open spec fn wf(&self) -> bool {
        frame_shape(self@)
    }
}

impl PartialEq for AtomDatum {
    /// Atoms are equal when their labels hold the same text and all other
    /// fields are equal.
    fn eq(&self, other: &AtomDatum) -> (r: bool) {
        *self.symbol == *other.symbol && self.x == other.x && self.y == other.y && self.z
            == other.z && self.is_fixed == other.is_fixed && self.atom_id == other.atom_id
    }
}

impl vstd::std_specs::cmp::PartialEqSpecImpl for AtomDatum {
    open spec fn obeys_eq_spec() -> bool {
        true
    }

    open spec fn eq_spec(&self, other: &AtomDatum) -> bool {
        self@ == other@
    }
}

fn same_reals(a: &[Real], b: &[Real]) -> (r: bool)
    ensures
        r == (a@ == b@),
{
    if a.len() != b.len() {
        return false;
    }
    let mut i: usize = 0;
    while i < a.len()
        invariant
            i <= a.len(),
            a.len() == b.len(),
            forall|j: int| 0 <= j < i ==> a@[j] == b@[j],
        decreases a.len() - i,
    {
        if a[i] != b[i] {
            return false;
        }
        i += 1;
    }
    assert(a@ =~= b@);
    true
}

fn same_counts(a: &Vec<usize>, b: &Vec<usize>) -> (r: bool)
    ensures
        r == (a@ == b@),
{
    if a.len() != b.len() {
        return false;
    }
    let mut i: usize = 0;
    while i < a.len()
        invariant
            i <= a.len(),
            a.len() == b.len(),
            forall|j: int| 0 <= j < i ==> a@[j] == b@[j],
        decreases a.len() - i,
    {
        if a[i] != b[i] {
            return false;
        }
        i += 1;
    }
    assert(a@ =~= b@);
    true
}

impl PartialEq for FrameHeader {
    fn eq(&self, other: &FrameHeader) -> (r: bool) {
        let r = self.prebox_header[0] == other.prebox_header[0] && self.prebox_header[1]
            == other.prebox_header[1] && same_reals(self.boxl.as_slice(), other.boxl.as_slice())
            && same_reals(self.angles.as_slice(), other.angles.as_slice())
            && self.postbox_header[0] == other.postbox_header[0] && self.postbox_header[1]
            == other.postbox_header[1] && self.natm_types == other.natm_types && same_counts(
            &self.natms_per_type,
            &other.natms_per_type,
        ) && same_reals(self.masses_per_type.as_slice(), other.masses_per_type.as_slice());
        proof {
            if r {
                assert(self@.prebox =~= other@.prebox);
                assert(self@.postbox =~= other@.postbox);
            } else if self@ == other@ {
                assert(self@.prebox[0] == other@.prebox[0]);
                assert(self@.prebox[1] == other@.prebox[1]);
                assert(self@.postbox[0] == other@.postbox[0]);
                assert(self@.postbox[1] == other@.postbox[1]);
            }
        }
        r
    }
}

impl vstd::std_specs::cmp::PartialEqSpecImpl for FrameHeader {
    open spec fn obeys_eq_spec() -> bool {
        true
    }

    open spec fn eq_spec(&self, other: &FrameHeader) -> bool {
        self@ == other@
    }
}

impl PartialEq for ConFrame {
    fn eq(&self, other: &ConFrame) -> (r: bool) {
        if !(self.header == other.header) || self.atom_data.len() != other.atom_data.len() {
            proof {
                if self@ == other@ {
                    assert(self.atom_data@.len() == self@.atoms.len());
                    assert(other.atom_data@.len() == other@.atoms.len());
                }
            }
            return false;
        }
        let mut i: usize = 0;
        while i < self.atom_data.len()
            invariant
                i <= self.atom_data.len(),
                self.atom_data.len() == other.atom_data.len(),
                self.header@ == other.header@,
                forall|j: int| 0 <= j < i ==> self.atom_data@[j]@ == other.atom_data@[j]@,
            decreases self.atom_data.len() - i,
        {
            if !(self.atom_data[i] == other.atom_data[i]) {
                proof {
                    if self@ == other@ {
                        assert(self@.atoms[i as int] == other@.atoms[i as int]);
                    }
                }
                return false;
            }
            i += 1;
        }
        assert(self@.atoms =~= other@.atoms);
        true
    }
}

impl vstd::std_specs::cmp::PartialEqSpecImpl for ConFrame {
    open spec fn obeys_eq_spec() -> bool {
        true
    }

    open spec fn eq_spec(&self, other: &ConFrame) -> bool {
        self@ == other@
    }
}

} // verus!
