//! Rights, carried in the type system.

use vstd::prelude::*;

verus! {

/// Marker for masks containing [`crate::abi::rights::READ`].
pub trait HasRead {

}

/// Marker for masks containing [`crate::abi::rights::WRITE`].
pub trait HasWrite {

}

/// Marker for masks containing [`crate::abi::rights::GRANT`].
pub trait HasGrant {

}

/// `Subset<A, B>` exists exactly when `B`'s rights are a subset of `A`'s.
pub trait Subset<const FROM: u8, const TO: u8> {
    /// Every right in `TO` is in `FROM`.
    proof fn narrows()
        ensures
            FROM & TO == TO,
    ;
}

/// The type the marker traits and [`Subset`] are implemented on.
pub struct Mask<const M: u8>;

// Masks containing READ.
impl HasRead for Mask<1> {

}

impl HasRead for Mask<3> {

}

impl HasRead for Mask<5> {

}

impl HasRead for Mask<7> {

}

// Masks containing WRITE.
impl HasWrite for Mask<2> {

}

impl HasWrite for Mask<3> {

}

impl HasWrite for Mask<6> {

}

impl HasWrite for Mask<7> {

}

// Masks containing GRANT.
impl HasGrant for Mask<4> {

}

impl HasGrant for Mask<5> {

}

impl HasGrant for Mask<6> {

}

impl HasGrant for Mask<7> {

}

// For each mask, the masks that are subsets of it.
impl Subset<0, 0> for Mask<0> {
    proof fn narrows() {
        lemma_subsets();
    }
}

impl Subset<1, 0> for Mask<1> {
    proof fn narrows() {
        lemma_subsets();
    }
}

impl Subset<1, 1> for Mask<1> {
    proof fn narrows() {
        lemma_subsets();
    }
}

impl Subset<2, 0> for Mask<2> {
    proof fn narrows() {
        lemma_subsets();
    }
}

impl Subset<2, 2> for Mask<2> {
    proof fn narrows() {
        lemma_subsets();
    }
}

impl Subset<3, 0> for Mask<3> {
    proof fn narrows() {
        lemma_subsets();
    }
}

impl Subset<3, 1> for Mask<3> {
    proof fn narrows() {
        lemma_subsets();
    }
}

impl Subset<3, 2> for Mask<3> {
    proof fn narrows() {
        lemma_subsets();
    }
}

impl Subset<3, 3> for Mask<3> {
    proof fn narrows() {
        lemma_subsets();
    }
}

impl Subset<4, 0> for Mask<4> {
    proof fn narrows() {
        lemma_subsets();
    }
}

impl Subset<4, 4> for Mask<4> {
    proof fn narrows() {
        lemma_subsets();
    }
}

impl Subset<5, 0> for Mask<5> {
    proof fn narrows() {
        lemma_subsets();
    }
}

impl Subset<5, 1> for Mask<5> {
    proof fn narrows() {
        lemma_subsets();
    }
}

impl Subset<5, 4> for Mask<5> {
    proof fn narrows() {
        lemma_subsets();
    }
}

impl Subset<5, 5> for Mask<5> {
    proof fn narrows() {
        lemma_subsets();
    }
}

impl Subset<6, 0> for Mask<6> {
    proof fn narrows() {
        lemma_subsets();
    }
}

impl Subset<6, 2> for Mask<6> {
    proof fn narrows() {
        lemma_subsets();
    }
}

impl Subset<6, 4> for Mask<6> {
    proof fn narrows() {
        lemma_subsets();
    }
}

impl Subset<6, 6> for Mask<6> {
    proof fn narrows() {
        lemma_subsets();
    }
}

impl Subset<7, 0> for Mask<7> {
    proof fn narrows() {
        lemma_subsets();
    }
}

impl Subset<7, 1> for Mask<7> {
    proof fn narrows() {
        lemma_subsets();
    }
}

impl Subset<7, 2> for Mask<7> {
    proof fn narrows() {
        lemma_subsets();
    }
}

impl Subset<7, 3> for Mask<7> {
    proof fn narrows() {
        lemma_subsets();
    }
}

impl Subset<7, 4> for Mask<7> {
    proof fn narrows() {
        lemma_subsets();
    }
}

impl Subset<7, 5> for Mask<7> {
    proof fn narrows() {
        lemma_subsets();
    }
}

impl Subset<7, 6> for Mask<7> {
    proof fn narrows() {
        lemma_subsets();
    }
}

impl Subset<7, 7> for Mask<7> {
    proof fn narrows() {
        lemma_subsets();
    }
}

proof fn lemma_subsets()
    by (bit_vector)
    ensures
        0u8 & 0u8 == 0u8,
        1u8 & 0u8 == 0u8,
        1u8 & 1u8 == 1u8,
        2u8 & 0u8 == 0u8,
        2u8 & 2u8 == 2u8,
        3u8 & 0u8 == 0u8,
        3u8 & 1u8 == 1u8,
        3u8 & 2u8 == 2u8,
        3u8 & 3u8 == 3u8,
        4u8 & 0u8 == 0u8,
        4u8 & 4u8 == 4u8,
        5u8 & 0u8 == 0u8,
        5u8 & 1u8 == 1u8,
        5u8 & 4u8 == 4u8,
        5u8 & 5u8 == 5u8,
        6u8 & 0u8 == 0u8,
        6u8 & 2u8 == 2u8,
        6u8 & 4u8 == 4u8,
        6u8 & 6u8 == 6u8,
        7u8 & 0u8 == 0u8,
        7u8 & 1u8 == 1u8,
        7u8 & 2u8 == 2u8,
        7u8 & 3u8 == 3u8,
        7u8 & 4u8 == 4u8,
        7u8 & 5u8 == 5u8,
        7u8 & 6u8 == 6u8,
        7u8 & 7u8 == 7u8,
{
}

} // verus!
