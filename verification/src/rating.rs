use vstd::prelude::*;

verus! {

/// A skill rating: a whole number from `Rating::MIN` to `Rating::MAX`.
#[derive(Debug, Copy, Clone, PartialEq, Eq, PartialOrd, Ord)]
pub struct Rating {
    value: u32,
}

impl View for Rating {
    type V = nat;

    closed spec fn view(&self) -> nat {
        self.value as nat
    }
}

impl Rating {
    /// The largest number a rating can hold.
    pub const MAX: u32 = 5000;

    /// The smallest number a rating can hold.
    pub const MIN: u32 = 0;

    #[verifier::type_invariant]
    spec fn in_range(self) -> bool {
        Rating::MIN <= self.value <= Rating::MAX
    }

    /// Accepts `value` exactly when it lies between `Rating::MIN` and `Rating::MAX`.
    pub fn new(value: u32) -> (rating: Option<Rating>)
        ensures
            rating is Some <==> Rating::MIN <= value <= Rating::MAX,
            rating matches Some(r) ==> r@ == value,
    {
        if value <= Rating::MAX && value >= Rating::MIN {
            Some(Rating { value })
        } else {
            None
        }
    }

    /// The number this rating stands for.
    pub fn value(&self) -> (value: u32)
        ensures
            value == self@,
            Rating::MIN <= value <= Rating::MAX,
    {
        proof {
            use_type_invariant(self);
        }
        self.value
    }
}

} // verus!
