//! The card model: immutable card values and battlefield creature instances.
//!
//! A creature stat-line is legal only if it appears on a fixed allow-list of
//! vanilla creatures; `CreatureCard::try_new` is the sole gate for which
//! creatures may exist.

use vstd::prelude::*;

verus! {

/// The allow-list of legal creature stat-lines, as (cost, power, toughness)
/// triples. Every creature in a match satisfies this predicate.
pub open spec fn allowed_stat_line(cmc: u64, pow: u64, tou: u64) -> bool {
    ||| (cmc == 0 && pow == 1 && tou == 1)
    ||| (cmc == 0 && pow == 0 && tou == 3)
    ||| (cmc == 1 && pow == 2 && tou == 2)
    ||| (cmc == 1 && pow == 0 && tou == 4)
    ||| (cmc == 2 && pow == 3 && tou == 3)
    ||| (cmc == 2 && pow == 1 && tou == 5)
    ||| (cmc == 2 && pow == 0 && tou == 6)
    ||| (cmc == 3 && pow == 5 && tou == 4)
    ||| (cmc == 3 && pow == 4 && tou == 5)
    ||| (cmc == 3 && pow == 0 && tou == 8)
    ||| (cmc == 4 && pow == 6 && tou == 6)
    ||| (cmc == 4 && pow == 2 && tou == 10)
    ||| (cmc == 4 && pow == 0 && tou == 13)
    ||| (cmc == 5 && pow == 10 && tou == 10)
    ||| (cmc == 9 && pow == 11 && tou == 9)
    ||| (cmc == 9 && pow == 7 && tou == 11)
    ||| (cmc == 10 && pow == 16 && tou == 16)
}

/// The largest cost, power, or toughness on the allow-list. Bounds of this
/// kind keep the match arithmetic (mana sums, damage totals) far from
/// overflow.
pub const MAX_STAT: u64 = 16;

pub broadcast proof fn lemma_allowed_stat_line_bounds(cmc: u64, pow: u64, tou: u64)
    requires
        #[trigger] allowed_stat_line(cmc, pow, tou),
    ensures
        cmc <= MAX_STAT,
        pow <= MAX_STAT,
        tou <= MAX_STAT,
{
}

/// A card in a library or hand: a land, or a creature with a validated
/// stat-line.
#[derive(Clone, Copy, Debug, PartialEq, Eq, Structural)]
pub enum Card {
    Land,
    Creature(CreatureCard),
}

/// A creature card: mana cost, power, and toughness. Immutable once created;
/// `try_new` accepts only stat-lines on the allow-list.
#[derive(Clone, Copy, Debug, PartialEq, Eq, Structural)]
pub struct CreatureCard {
    cmc: u64,
    pow: u64,
    tou: u64,
}

impl CreatureCard {
    pub closed spec fn spec_cmc(&self) -> u64 {
        self.cmc
    }

    pub closed spec fn spec_pow(&self) -> u64 {
        self.pow
    }

    pub closed spec fn spec_tou(&self) -> u64 {
        self.tou
    }

    /// A creature card is valid when its stat-line is on the allow-list.
    pub open spec fn valid(&self) -> bool {
        allowed_stat_line(self.spec_cmc(), self.spec_pow(), self.spec_tou())
    }

    #[verifier::when_used_as_spec(spec_cmc)]
    pub fn cmc(&self) -> (r: u64)
        ensures
            r == self.spec_cmc(),
    {
        self.cmc
    }

    #[verifier::when_used_as_spec(spec_pow)]
    pub fn pow(&self) -> (r: u64)
        ensures
            r == self.spec_pow(),
    {
        self.pow
    }

    #[verifier::when_used_as_spec(spec_tou)]
    pub fn tou(&self) -> (r: u64)
        ensures
            r == self.spec_tou(),
    {
        self.tou
    }

    /// Validates a stat-line against the allow-list. This is the only way to
    /// construct a creature card, so every creature card in play is valid.
    pub fn try_new(cmc: u64, pow: u64, tou: u64) -> (r: Result<Self, ()>)
        ensures
            r is Ok <==> allowed_stat_line(cmc, pow, tou),
            r matches Ok(c) ==> c.spec_cmc() == cmc && c.spec_pow() == pow && c.spec_tou() == tou,
    {
        let allowed = (cmc == 0 && pow == 1 && tou == 1)  // Memnite
            || (cmc == 0 && pow == 0 && tou == 3)  // Phyrexian Walker
            || (cmc == 1 && pow == 2 && tou == 2)  // Icehide Golem
            || (cmc == 1 && pow == 0 && tou == 4)  // Steel Wall
            || (cmc == 2 && pow == 3 && tou == 3)  // Watchwolf
            || (cmc == 2 && pow == 1 && tou == 5)  // Grizzled Leotau
            || (cmc == 2 && pow == 0 && tou == 6)  // Fortified Rampart
            || (cmc == 3 && pow == 5 && tou == 4)  // Steel Leaf Champion
            || (cmc == 3 && pow == 4 && tou == 5)  // Leatherback Baloth
            || (cmc == 3 && pow == 0 && tou == 8)  // Wall of Denial
            || (cmc == 4 && pow == 6 && tou == 6)  // Nullhide Ferox
            || (cmc == 4 && pow == 2 && tou == 10)  // Indomitable Ancients
            || (cmc == 4 && pow == 0 && tou == 13)  // Tree of Perdition
            || (cmc == 5 && pow == 10 && tou == 10)  // Gigantosaurus
            || (cmc == 9 && pow == 11 && tou == 9)  // Void Winnower
            || (cmc == 9 && pow == 7 && tou == 11)  // Inkwell Leviathan
            || (cmc == 10 && pow == 16 && tou == 16);  // Impervious Greatwurm
        if allowed {
            Ok(CreatureCard { cmc, pow, tou })
        } else {
            Err(())
        }
    }
}

impl Card {
    /// A card is valid when it is a land or a creature card on the allow-list.
    pub open spec fn valid(&self) -> bool {
        match self {
            Card::Land => true,
            Card::Creature(c) => c.valid(),
        }
    }

    pub open spec fn is_land(&self) -> bool {
        self is Land
    }
}

/// A creature on the battlefield, instantiated from a creature card at cast
/// time. It is tapped by attacking and untapped by its owner's untap step.
#[derive(Clone, Copy, Debug, PartialEq, Eq, Structural)]
pub struct Creature {
    pub cmc: u64,
    pub pow: u64,
    pub tou: u64,
    pub tapped: bool,
}

impl Creature {
    pub open spec fn spec_cmc(&self) -> u64 {
        self.cmc
    }

    pub open spec fn spec_pow(&self) -> u64 {
        self.pow
    }

    pub open spec fn spec_tou(&self) -> u64 {
        self.tou
    }

    /// A battlefield creature is valid when its stat-line is on the
    /// allow-list, as it is whenever it was instantiated from a creature card.
    pub open spec fn valid(&self) -> bool {
        allowed_stat_line(self.spec_cmc(), self.spec_pow(), self.spec_tou())
    }

    /// The same creature with the given tap state.
    pub open spec fn with_tapped(&self, tapped: bool) -> Creature {
        Creature { tapped, ..*self }
    }

    /// Instantiates a battlefield creature from a creature card, untapped.
    pub fn new(creature_card: &CreatureCard) -> (r: Self)
        ensures
            r.spec_cmc() == creature_card.spec_cmc(),
            r.spec_pow() == creature_card.spec_pow(),
            r.spec_tou() == creature_card.spec_tou(),
            !r.tapped,
    {
        Creature { cmc: creature_card.cmc, pow: creature_card.pow, tou: creature_card.tou, tapped: false }
    }

    #[verifier::when_used_as_spec(spec_cmc)]
    pub fn cmc(&self) -> (r: u64)
        ensures
            r == self.spec_cmc(),
    {
        self.cmc
    }

    #[verifier::when_used_as_spec(spec_pow)]
    pub fn pow(&self) -> (r: u64)
        ensures
            r == self.spec_pow(),
    {
        self.pow
    }

    #[verifier::when_used_as_spec(spec_tou)]
    pub fn tou(&self) -> (r: u64)
        ensures
            r == self.spec_tou(),
    {
        self.tou
    }
}

} // verus!
