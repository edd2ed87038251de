//! The marble kinds and their fixed properties.

use vstd::prelude::*;

verus! {

/// A marble kind, or the marker of an empty cell.
///
/// The variants are declared in the order in which the kinds are grouped
/// when moves are generated.
#[derive(Debug, Clone, Copy, PartialEq, Eq, PartialOrd, Ord, Hash, Structural)]
pub enum Marble {
    Lead,
    Tin,
    Iron,
    Copper,
    Silver,
    Gold,
    Mercury,
    Air,
    Fire,
    Water,
    Earth,
    Vitae,
    Mors,
    Salt,
    Empty,
}

/// Number of marble kinds, the empty marker not counted.
pub const KINDS: usize = 14;

impl Marble {
    /// Position of the kind in the declaration order; `Empty` comes last.
    pub open spec fn spec_index(self) -> nat {
        match self {
            Marble::Lead => 0,
            Marble::Tin => 1,
            Marble::Iron => 2,
            Marble::Copper => 3,
            Marble::Silver => 4,
            Marble::Gold => 5,
            Marble::Mercury => 6,
            Marble::Air => 7,
            Marble::Fire => 8,
            Marble::Water => 9,
            Marble::Earth => 10,
            Marble::Vitae => 11,
            Marble::Mors => 12,
            Marble::Salt => 13,
            Marble::Empty => 14,
        }
    }

    /// Position of the kind in the declaration order; `Empty` comes last.
    pub fn index(self) -> (r: usize)
        ensures
            r == self.spec_index(),
            r <= KINDS,
            r < KINDS <==> self != Marble::Empty,
    {
        match self {
            Marble::Lead => 0,
            Marble::Tin => 1,
            Marble::Iron => 2,
            Marble::Copper => 3,
            Marble::Silver => 4,
            Marble::Gold => 5,
            Marble::Mercury => 6,
            Marble::Air => 7,
            Marble::Fire => 8,
            Marble::Water => 9,
            Marble::Earth => 10,
            Marble::Vitae => 11,
            Marble::Mors => 12,
            Marble::Salt => 13,
            Marble::Empty => 14,
        }
    }

    /// How urgently a metal has to leave the board: the least refined metal
    /// has the highest value, and every kind that is no metal has 0.
    pub open spec fn spec_urgency(self) -> nat {
        match self {
            Marble::Lead => 6,
            Marble::Tin => 5,
            Marble::Iron => 4,
            Marble::Copper => 3,
            Marble::Silver => 2,
            Marble::Gold => 1,
            _ => 0,
        }
    }

    /// How urgently a metal has to leave the board: the least refined metal
    /// has the highest value, and every kind that is no metal has 0.
    pub fn urgency(self) -> (r: u8)
        ensures
            r == self.spec_urgency(),
    {
        match self {
            Marble::Lead => 6,
            Marble::Tin => 5,
            Marble::Iron => 4,
            Marble::Copper => 3,
            Marble::Silver => 2,
            Marble::Gold => 1,
            _ => 0,
        }
    }

    /// Whether the kind is one of the six metals.
    pub open spec fn spec_is_metal(self) -> bool {
        self.spec_urgency() > 0
    }

    /// Whether the kind is one of the six metals.
    #[verifier::when_used_as_spec(spec_is_metal)]
    pub fn is_metal(self) -> (r: bool)
        ensures
            r == self.spec_is_metal(),
    {
        self.urgency() > 0
    }

    /// Whether the kind is one of the four elementals.
    pub open spec fn spec_is_elemental(self) -> bool {
        self == Marble::Air || self == Marble::Fire || self == Marble::Water || self
            == Marble::Earth
    }

    /// Whether the kind is one of the four elementals.
    #[verifier::when_used_as_spec(spec_is_elemental)]
    pub fn is_elemental(self) -> (r: bool)
        ensures
            r == self.spec_is_elemental(),
    {
        self == Marble::Air || self == Marble::Fire || self == Marble::Water || self
            == Marble::Earth
    }

    /// The kind's name as a sequence of characters.
    pub open spec fn spec_name(self) -> Seq<char> {
        match self {
            Marble::Lead => "Lead"@,
            Marble::Tin => "Tin"@,
            Marble::Iron => "Iron"@,
            Marble::Copper => "Copper"@,
            Marble::Silver => "Silver"@,
            Marble::Gold => "Gold"@,
            Marble::Mercury => "Mercury"@,
            Marble::Air => "Air"@,
            Marble::Fire => "Fire"@,
            Marble::Water => "Water"@,
            Marble::Earth => "Earth"@,
            Marble::Vitae => "Vitae"@,
            Marble::Mors => "Mors"@,
            Marble::Salt => "Salt"@,
            Marble::Empty => "Empty"@,
        }
    }

    /// The kind's name, spelled as the variant is.
    pub fn name(self) -> (r: &'static str)
        ensures
            r@ == self.spec_name(),
    {
        match self {
            Marble::Lead => "Lead",
            Marble::Tin => "Tin",
            Marble::Iron => "Iron",
            Marble::Copper => "Copper",
            Marble::Silver => "Silver",
            Marble::Gold => "Gold",
            Marble::Mercury => "Mercury",
            Marble::Air => "Air",
            Marble::Fire => "Fire",
            Marble::Water => "Water",
            Marble::Earth => "Earth",
            Marble::Vitae => "Vitae",
            Marble::Mors => "Mors",
            Marble::Salt => "Salt",
            Marble::Empty => "Empty",
        }
    }
}

/// The fourteen kinds in the order in which their glyphs are tried when a
/// board is read.
pub open spec fn spec_marble_values() -> Seq<Marble> {
    seq![
        Marble::Salt,
        Marble::Air,
        Marble::Fire,
        Marble::Water,
        Marble::Earth,
        Marble::Lead,
        Marble::Tin,
        Marble::Iron,
        Marble::Copper,
        Marble::Silver,
        Marble::Gold,
        Marble::Mercury,
        Marble::Vitae,
        Marble::Mors,
    ]
}

/// The fourteen kinds in the order in which their glyphs are tried when a
/// board is read.
pub fn marble_values() -> (r: [Marble; 14])
    ensures
        r@ == spec_marble_values(),
{
    let r = [
        Marble::Salt,
        Marble::Air,
        Marble::Fire,
        Marble::Water,
        Marble::Earth,
        Marble::Lead,
        Marble::Tin,
        Marble::Iron,
        Marble::Copper,
        Marble::Silver,
        Marble::Gold,
        Marble::Mercury,
        Marble::Vitae,
        Marble::Mors,
    ];
    assert(r@ =~= spec_marble_values());
    r
}

} // verus!
