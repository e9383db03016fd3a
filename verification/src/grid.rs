//! How the tiles of an imposter cover the directions that it is seen from.

use vstd::prelude::*;
use vstd::string::*;

use crate::settings::same_bytes;

verus! {

/// The directions that the tiles cover.
#[derive(Clone, Copy, PartialEq, Eq, Structural, Debug)]
pub enum GridMode {
    Spherical,
    Hemispherical,
    Horizontal,
}

impl GridMode {
    /// How settings name it.
    pub open spec fn name_spec(self) -> &'static str {
        match self {
            GridMode::Spherical => "spherical",
            GridMode::Hemispherical => "hemispherical",
            GridMode::Horizontal => "Horizontal",
        }
    }

    /// How settings name it.
    pub fn name(self) -> (name: &'static str)
        ensures
            name == self.name_spec(),
    {
        match self {
            GridMode::Spherical => "spherical",
            GridMode::Hemispherical => "hemispherical",
            GridMode::Horizontal => "Horizontal",
        }
    }
}

/// The mode that settings name so.
pub open spec fn mode_named(name: Seq<u8>) -> Option<GridMode> {
    if name == "spherical".spec_bytes() {
        Some(GridMode::Spherical)
    } else if name == "hemispherical".spec_bytes() {
        Some(GridMode::Hemispherical)
    } else if name == "Horizontal".spec_bytes() {
        Some(GridMode::Horizontal)
    } else {
        None
    }
}

/// The mode that settings name so.
pub fn parse_mode(name: &Vec<u8>) -> (mode: Option<GridMode>)
    ensures
        mode == mode_named(name@),
{
    if same_bytes(name.as_slice(), "spherical".as_bytes()) {
        Some(GridMode::Spherical)
    } else if same_bytes(name.as_slice(), "hemispherical".as_bytes()) {
        Some(GridMode::Hemispherical)
    } else if same_bytes(name.as_slice(), "Horizontal".as_bytes()) {
        Some(GridMode::Horizontal)
    } else {
        None
    }
}

/// The three names differ, are ASCII and hold no space.
pub proof fn lemma_mode_names(mode: GridMode)
    ensures
        crate::settings::plain(mode.name_spec().spec_bytes()),
        mode_named(mode.name_spec().spec_bytes()) == Some(mode),
{
    reveal_strlit("spherical");
    reveal_strlit("hemispherical");
    reveal_strlit("Horizontal");
    is_ascii_spec_bytes("spherical");
    is_ascii_spec_bytes("hemispherical");
    is_ascii_spec_bytes("Horizontal");
    let s = "spherical".spec_bytes();
    let h = "hemispherical".spec_bytes();
    let z = "Horizontal".spec_bytes();
    assert(s.len() == 9 && h.len() == 13 && z.len() == 10);
}

/// The settings have these names for the modes, and no others.
pub proof fn law_modes_by_name(name: Seq<u8>)
    ensures
        mode_named(name) == Some(GridMode::Spherical) <==> name == "spherical".spec_bytes(),
        mode_named(name) == Some(GridMode::Hemispherical) <==> name == "hemispherical".spec_bytes(),
        mode_named(name) == Some(GridMode::Horizontal) <==> name == "Horizontal".spec_bytes(),
{
    lemma_mode_names(GridMode::Spherical);
    lemma_mode_names(GridMode::Hemispherical);
    lemma_mode_names(GridMode::Horizontal);
}

/// The bits by which flags tell the modes apart.
#[derive(Clone, Copy, PartialEq, Eq, Structural, Debug)]
pub struct GridBits {
    /// All bits that modes use.
    pub mask: u32,
    pub spherical: u32,
    pub hemispherical: u32,
    pub horizontal: u32,
}

impl GridBits {
    /// The bits of a mode.
    pub open spec fn of(self, mode: GridMode) -> u32 {
        match mode {
            GridMode::Spherical => self.spherical,
            GridMode::Hemispherical => self.hemispherical,
            GridMode::Horizontal => self.horizontal,
        }
    }

    /// The modes are told apart by bits below those of the render flags.
    pub open spec fn wf(self) -> bool {
        &&& self.mask < 16
        &&& self.spherical & self.mask == self.spherical
        &&& self.hemispherical & self.mask == self.hemispherical
        &&& self.horizontal & self.mask == self.horizontal
        &&& self.spherical != self.hemispherical
        &&& self.spherical != self.horizontal
        &&& self.hemispherical != self.horizontal
    }

    /// The bits of a mode.
    pub fn as_flags(&self, mode: GridMode) -> (bits: u32)
        requires
            self.wf(),
        ensures
            bits == self.of(mode),
            bits < 16,
    {
        let bits: u32 = match mode {
            GridMode::Spherical => self.spherical,
            GridMode::Hemispherical => self.hemispherical,
            GridMode::Horizontal => self.horizontal,
        };
        let mask: u32 = self.mask;
        assert(bits < 16) by (bit_vector)
            requires
                bits & mask == bits,
                mask < 16,
        ;
        bits
    }
}

} // verus!
