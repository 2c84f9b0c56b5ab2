use vstd::prelude::*;

use rand::Rng;

verus! {

/// A value drawn uniformly below a bound, together with that bound.
pub struct Pick {
    bound: usize,
    value: usize,
}

impl Pick {
    /// The bound the value was drawn below.
    pub closed spec fn bound(&self) -> nat {
        self.bound as nat
    }

    /// The value drawn.
    pub closed spec fn value(&self) -> nat {
        self.value as nat
    }

    /// The value drawn.
    pub fn get(&self) -> (v: usize)
        ensures
            v == self.value(),
    {
        self.value
    }
}

/// A value drawn uniformly from `0..bound` by `rand::Rng::gen_range` on the thread-local
/// generator of `rand::thread_rng()`, returned with the bound it was drawn below.
///
/// Claimed: the pick records the `bound` whose range `0..bound` was handed to `gen_range`,
/// and its value lies in that range. Which value comes back rests on chance and is not
/// stated. `gen_range` panics on an empty range, hence `bound > 0`. (`thread_rng` panics
/// when the operating system cannot seed it; nothing here can rule that out.)
#[verifier::external_body]
pub(crate) fn below(bound: usize) -> (d: Pick)
    requires
        bound > 0,
    ensures
        d.bound() == bound,
        d.value() < bound,
{
    Pick { bound, value: rand::thread_rng().gen_range(0..bound) }
}

/// A signed byte drawn by `rand::Rng::gen::<i8>()` on the generator of `rand::thread_rng()`.
///
/// Every `i8` can come back; the value rests on chance and nothing is claimed of it.
#[verifier::external_body]
pub(crate) fn any_i8() -> i8 {
    rand::thread_rng().gen::<i8>()
}

/// The outcome of one weighted coin toss, together with the odds it was tossed at.
pub struct Chance {
    numerator: u32,
    denominator: u32,
    hit: bool,
}

impl Chance {
    /// Numerator of the odds of the toss.
    pub closed spec fn numerator(&self) -> nat {
        self.numerator as nat
    }

    /// Denominator of the odds of the toss.
    pub closed spec fn denominator(&self) -> nat {
        self.denominator as nat
    }

    /// Whether the toss came up.
    pub closed spec fn came_up(&self) -> bool {
        self.hit
    }

    /// Whether the toss came up.
    pub fn hit(&self) -> (h: bool)
        ensures
            h == self.came_up(),
    {
        self.hit
    }
}

/// A toss that comes up with probability `numerator / denominator`, drawn by
/// `rand::Rng::gen_ratio` on the generator of `rand::thread_rng()`, returned with the
/// odds it was drawn at.
///
/// Claimed: the toss records the `numerator` and `denominator` handed to `gen_ratio`; and,
/// as `gen_ratio` documents and `Bernoulli::from_ratio` shows, a zero numerator never comes
/// up and a numerator equal to the denominator always does. Any other outcome rests on
/// chance. `gen_ratio` panics on a zero denominator or a numerator above it, hence the
/// `requires`.
#[verifier::external_body]
pub(crate) fn ratio(numerator: u32, denominator: u32) -> (c: Chance)
    requires
        0 < denominator,
        numerator <= denominator,
    ensures
        c.numerator() == numerator,
        c.denominator() == denominator,
        numerator == 0 ==> !c.came_up(),
        numerator == denominator ==> c.came_up(),
{
    Chance { numerator, denominator, hit: rand::thread_rng().gen_ratio(numerator, denominator) }
}

} // verus!
