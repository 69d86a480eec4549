//! Sets of boolean states kept as the bits of one machine word.

use vstd::prelude::*;

verus! {

/// Whether bit `i` of `bits` is set.
pub open spec fn bit_is_set(bits: u32, i: u32) -> bool {
    (bits >> i) & 1 == 1
}

/// Setting a bit sets that bit and no other.
proof fn lemma_set_bit(bits: u32, i: u32, j: u32)
    by (bit_vector)
    requires
        i < 32,
        j < 32,
    ensures
        (((bits | (1u32 << i)) >> j) & 1 == 1) == (j == i || (bits >> j) & 1 == 1),
{
}

/// Clearing a bit clears that bit and no other.
proof fn lemma_clear_bit(bits: u32, i: u32, j: u32)
    by (bit_vector)
    requires
        i < 32,
        j < 32,
    ensures
        (((bits & !(1u32 << i)) >> j) & 1 == 1) == (j != i && (bits >> j) & 1 == 1),
{
}

/// No bit of zero is set.
proof fn lemma_no_bit(j: u32)
    by (bit_vector)
    requires
        j < 32,
    ensures
        (0u32 >> j) & 1 == 0,
{
}

/// In the empty word no bit is set.
pub proof fn lemma_empty_bits()
    ensures
        forall|j: u32| j < 32 ==> !#[trigger] bit_is_set(0, j),
{
    assert forall|j: u32| j < 32 implies !#[trigger] bit_is_set(0, j) by {
        lemma_no_bit(j);
    }
}

/// Whether bit `i` of `bits` is set.
pub fn test_bit(bits: u32, i: u32) -> (b: bool)
    requires
        i < 32,
    ensures
        b == bit_is_set(bits, i),
{
    (bits >> i) & 1 == 1
}

/// `bits` with bit `i` set or cleared and every other bit as it was.
pub open spec fn spec_with_bit(bits: u32, i: u32, on: bool) -> u32 {
    if on {
        bits | (1u32 << i)
    } else {
        bits & !(1u32 << i)
    }
}

/// Setting or clearing a bit changes that bit and no other.
pub proof fn lemma_with_bit(bits: u32, i: u32, on: bool, j: u32)
    requires
        i < 32,
        j < 32,
    ensures
        bit_is_set(spec_with_bit(bits, i, on), j) == (if j == i {
            on
        } else {
            bit_is_set(bits, j)
        }),
{
    if on {
        lemma_set_bit(bits, i, j);
    } else {
        lemma_clear_bit(bits, i, j);
    }
}

/// `bits` with bit `i` set or cleared and every other bit as it was.
#[verifier::when_used_as_spec(spec_with_bit)]
pub fn with_bit(bits: u32, i: u32, on: bool) -> (r: u32)
    requires
        i < 32,
    ensures
        r == spec_with_bit(bits, i, on),
        bit_is_set(r, i) == on,
        forall|j: u32| j < 32 && j != i ==> #[trigger] bit_is_set(r, j) == bit_is_set(bits, j),
{
    let r = if on {
        bits | (1u32 << i)
    } else {
        bits & !(1u32 << i)
    };
    proof {
        assert forall|j: u32| j < 32 implies #[trigger] bit_is_set(r, j) == (if j == i {
            on
        } else {
            bit_is_set(bits, j)
        }) by {
            if on {
                lemma_set_bit(bits, i, j);
            } else {
                lemma_clear_bit(bits, i, j);
            }
        }
    }
    r
}

/// A boolean state of an entity that selectors can ask for.
#[derive(Clone, Copy, Debug, PartialEq, Eq, Hash, Structural)]
pub enum PseudoClass {
    Hover,
    Active,
    Over,
    Focus,
    FocusVisible,
    FocusWithin,
    Disabled,
    Checked,
    Selected,
}

impl PseudoClass {
    /// The bit that stands for the state.
    pub open spec fn spec_bit(self) -> u32 {
        match self {
            PseudoClass::Hover => 0,
            PseudoClass::Active => 1,
            PseudoClass::Over => 2,
            PseudoClass::Focus => 3,
            PseudoClass::FocusVisible => 4,
            PseudoClass::FocusWithin => 5,
            PseudoClass::Disabled => 6,
            PseudoClass::Checked => 7,
            PseudoClass::Selected => 8,
        }
    }

    /// The bit that stands for it.
    #[verifier::when_used_as_spec(spec_bit)]
    pub fn bit(self) -> (i: u32)
        ensures
            i == self.spec_bit(),
            i < 32,
    {
        match self {
            PseudoClass::Hover => 0,
            PseudoClass::Active => 1,
            PseudoClass::Over => 2,
            PseudoClass::Focus => 3,
            PseudoClass::FocusVisible => 4,
            PseudoClass::FocusWithin => 5,
            PseudoClass::Disabled => 6,
            PseudoClass::Checked => 7,
            PseudoClass::Selected => 8,
        }
    }
}

/// The set of pseudo-classes that hold of an entity.
#[derive(Clone, Copy, Debug, PartialEq, Eq, Hash, Structural)]
pub struct PseudoClassFlags {
    pub bits: u32,
}

impl PseudoClassFlags {
    /// Whether the state is in the set.
    pub open spec fn has(self, state: PseudoClass) -> bool {
        bit_is_set(self.bits, state.spec_bit())
    }

    /// The set without states.
    pub fn empty() -> (f: PseudoClassFlags)
        ensures
            f.bits == 0,
            forall|state: PseudoClass| !f.has(state),
    {
        proof {
            lemma_empty_bits();
        }
        PseudoClassFlags { bits: 0 }
    }

    /// Whether the state is in the set.
    #[verifier::when_used_as_spec(has)]
    pub fn contains(self, state: PseudoClass) -> (b: bool)
        ensures
            b == self.has(state),
    {
        test_bit(self.bits, state.bit())
    }

    /// The set with the state put in or taken out.
    pub open spec fn with_state(self, state: PseudoClass, on: bool) -> PseudoClassFlags {
        PseudoClassFlags { bits: spec_with_bit(self.bits, state.spec_bit(), on) }
    }

    /// Putting a state in or taking it out changes that state and no other.
    pub proof fn lemma_with_state(self, state: PseudoClass, on: bool, other: PseudoClass)
        ensures
            self.with_state(state, on).has(other) == (if other == state {
                on
            } else {
                self.has(other)
            }),
    {
        lemma_with_bit(self.bits, state.spec_bit(), on, other.spec_bit());
    }

    /// Puts the state into the set or takes it out; the other states stay as
    /// they are.
    pub fn set(&mut self, state: PseudoClass, on: bool)
        ensures
            *final(self) == old(self).with_state(state, on),
            final(self).has(state) == on,
            forall|other: PseudoClass| other != state ==> final(self).has(other) == old(self).has(other),
    {
        self.bits = with_bit(self.bits, state.bit(), on);
    }
}

/// Something that an entity is able to do or to have done to it.
#[derive(Clone, Copy, Debug, PartialEq, Eq, Hash, Structural)]
pub enum Ability {
    Hoverable,
    Focusable,
    Checkable,
    Navigable,
    Draggable,
}

impl Ability {
    /// The bit that stands for the ability.
    pub open spec fn spec_bit(self) -> u32 {
        match self {
            Ability::Hoverable => 0,
            Ability::Focusable => 1,
            Ability::Checkable => 2,
            Ability::Navigable => 3,
            Ability::Draggable => 4,
        }
    }

    /// The bit that stands for it.
    #[verifier::when_used_as_spec(spec_bit)]
    pub fn bit(self) -> (i: u32)
        ensures
            i == self.spec_bit(),
            i < 32,
    {
        match self {
            Ability::Hoverable => 0,
            Ability::Focusable => 1,
            Ability::Checkable => 2,
            Ability::Navigable => 3,
            Ability::Draggable => 4,
        }
    }
}

/// The set of abilities of an entity.
#[derive(Clone, Copy, Debug, PartialEq, Eq, Hash, Structural)]
pub struct Abilities {
    pub bits: u32,
}

impl Abilities {
    /// Whether the ability is in the set.
    pub open spec fn has(self, ability: Ability) -> bool {
        bit_is_set(self.bits, ability.spec_bit())
    }

    /// The set without abilities.
    pub fn empty() -> (f: Abilities)
        ensures
            f.bits == 0,
            forall|ability: Ability| !f.has(ability),
    {
        proof {
            lemma_empty_bits();
        }
        Abilities { bits: 0 }
    }

    /// Whether the ability is in the set.
    #[verifier::when_used_as_spec(has)]
    pub fn contains(self, ability: Ability) -> (b: bool)
        ensures
            b == self.has(ability),
    {
        test_bit(self.bits, ability.bit())
    }

    /// Puts the ability into the set or takes it out; the other abilities
    /// stay as they are.
    pub fn set(&mut self, ability: Ability, on: bool)
        ensures
            final(self).has(ability) == on,
            forall|other: Ability| other != ability ==> final(self).has(other) == old(self).has(other),
    {
        self.bits = with_bit(self.bits, ability.bit(), on);
    }
}

} // verus!
