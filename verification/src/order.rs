//! Artifact names are ordered by their segments.

use vstd::prelude::*;
use std::cmp::Ordering;
use vstd::std_specs::cmp::PartialOrdSpecImpl;

use crate::compare::{compare_names, segments_order, Rank};
use crate::types::ArtName;

verus! {

/// The standard ordering for a rank.
pub open spec fn ordering_of(r: Rank) -> Ordering {
    match r {
        Rank::Less => Ordering::Less,
        Rank::Equal => Ordering::Equal,
        Rank::Greater => Ordering::Greater,
    }
}

fn to_ordering(r: Rank) -> (o: Ordering)
    ensures
        o == ordering_of(r),
{
    match r {
        Rank::Less => Ordering::Less,
        Rank::Equal => Ordering::Equal,
        Rank::Greater => Ordering::Greater,
    }
}

/// Names are ordered by their segments, as the segments' texts are.
impl PartialOrd for ArtName {
    fn partial_cmp(&self, other: &ArtName) -> (r: Option<Ordering>) {
        Some(to_ordering(compare_names(self, other)))
    }
}

impl PartialOrdSpecImpl for ArtName {
    open spec fn obeys_partial_cmp_spec() -> bool {
        true
    }

    open spec fn partial_cmp_spec(&self, other: &ArtName) -> Option<Ordering> {
        Some(ordering_of(segments_order(self@.value, other@.value)))
    }
}

} // verus!
