use vstd::prelude::*;
use crate::task::Resource;

verus! {

/// The three counters of the pool, each tagged with the resource it counts.
pub type Resources = ((Resource, u16), (Resource, u16), (Resource, u16));

/// How many units of `r` the pool has free.
pub open spec fn count(have: Resources, r: Resource) -> int {
    match r {
        Resource::A => have.0.1 as int,
        Resource::B => have.1.1 as int,
        Resource::C => have.2.1 as int,
    }
}

/// The pairs that the pool knows: (A, B), (A, C) and (B, C).
pub open spec fn known_pair(need: (Resource, Resource)) -> bool {
    ||| need == (Resource::A, Resource::B)
    ||| need == (Resource::A, Resource::C)
    ||| need == (Resource::B, Resource::C)
}

/// How many units of `r` the pair takes: one for each member of a known
/// pair, nothing for any other pair.
pub open spec fn uses(need: (Resource, Resource), r: Resource) -> int {
    if known_pair(need) && (need.0 == r || need.1 == r) {
        1
    } else {
        0
    }
}

/// Both resources of the pair are free at least once.
pub open spec fn enough(have: Resources, need: (Resource, Resource)) -> bool {
    &&& count(have, Resource::A) >= uses(need, Resource::A)
    &&& count(have, Resource::B) >= uses(need, Resource::B)
    &&& count(have, Resource::C) >= uses(need, Resource::C)
}

/// Giving the pair back would not overflow a counter.
pub open spec fn can_release(have: Resources, need: (Resource, Resource)) -> bool {
    &&& count(have, Resource::A) + uses(need, Resource::A) <= u16::MAX
    &&& count(have, Resource::B) + uses(need, Resource::B) <= u16::MAX
    &&& count(have, Resource::C) + uses(need, Resource::C) <= u16::MAX
}

/// The pool after the pair was taken from it.
pub open spec fn acquired(have: Resources, need: (Resource, Resource)) -> Resources {
    (
        (have.0.0, (have.0.1 - uses(need, Resource::A)) as u16),
        (have.1.0, (have.1.1 - uses(need, Resource::B)) as u16),
        (have.2.0, (have.2.1 - uses(need, Resource::C)) as u16),
    )
}

/// The pool after the pair was given back to it.
pub open spec fn released(have: Resources, need: (Resource, Resource)) -> Resources {
    (
        (have.0.0, (have.0.1 + uses(need, Resource::A)) as u16),
        (have.1.0, (have.1.1 + uses(need, Resource::B)) as u16),
        (have.2.0, (have.2.1 + uses(need, Resource::C)) as u16),
    )
}

/// Says whether the pool can serve the pair; the pool is only read.
pub fn check_for_enough_resourse(have: &Resources, need: (Resource, Resource)) -> (ok: bool)
    ensures
        ok == enough(*have, need),
{
    match need {
        (Resource::A, Resource::B) => {
            if have.0.1 == 0 || have.1.1 == 0 {
                return false;
            }
        },
        (Resource::A, Resource::C) => {
            if have.0.1 == 0 || have.2.1 == 0 {
                return false;
            }
        },
        (Resource::B, Resource::C) => {
            if have.1.1 == 0 || have.2.1 == 0 {
                return false;
            }
        },
        _ => {},
    }
    true
}

/// Says whether the pair can go back to the pool without a counter leaving
/// its range; the pool is only read.
pub fn check_for_room(have: &Resources, need: (Resource, Resource)) -> (ok: bool)
    ensures
        ok == can_release(*have, need),
{
    match need {
        (Resource::A, Resource::B) => have.0.1 < u16::MAX && have.1.1 < u16::MAX,
        (Resource::A, Resource::C) => have.0.1 < u16::MAX && have.2.1 < u16::MAX,
        (Resource::B, Resource::C) => have.1.1 < u16::MAX && have.2.1 < u16::MAX,
        _ => true,
    }
}

/// Gives the pair back: each of its counters goes up by one.
pub fn release_resources(have: &mut Resources, need: &(Resource, Resource)) -> (done: bool)
    requires
        can_release(*old(have), *need),
    ensures
        done,
        *final(have) == released(*old(have), *need),
{
    match need {
        (Resource::A, Resource::B) => {
            have.0.1 = have.0.1 + 1;
            have.1.1 = have.1.1 + 1;
        },
        (Resource::A, Resource::C) => {
            have.0.1 = have.0.1 + 1;
            have.2.1 = have.2.1 + 1;
        },
        (Resource::B, Resource::C) => {
            have.1.1 = have.1.1 + 1;
            have.2.1 = have.2.1 + 1;
        },
        _ => {},
    }
    true
}

/// Takes the pair: each of its counters goes down by one.
pub fn require_resources(have: &mut Resources, need: &(Resource, Resource)) -> (done: bool)
    requires
        enough(*old(have), *need),
    ensures
        done,
        *final(have) == acquired(*old(have), *need),
{
    match need {
        (Resource::A, Resource::B) => {
            have.0.1 = have.0.1 - 1;
            have.1.1 = have.1.1 - 1;
        },
        (Resource::A, Resource::C) => {
            have.0.1 = have.0.1 - 1;
            have.2.1 = have.2.1 - 1;
        },
        (Resource::B, Resource::C) => {
            have.1.1 = have.1.1 - 1;
            have.2.1 = have.2.1 - 1;
        },
        _ => {},
    }
    true
}

/// Check and take in one step: on `false` the pool is untouched, on `true`
/// both counters of the pair went down by one.
pub fn try_acquire(have: &mut Resources, need: (Resource, Resource)) -> (ok: bool)
    ensures
        ok == enough(*old(have), need),
        ok ==> *final(have) == acquired(*old(have), need),
        !ok ==> *final(have) == *old(have),
{
    if check_for_enough_resourse(have, need) {
        require_resources(have, &need);
        true
    } else {
        false
    }
}

/// Taking a pair and giving it back leaves the pool as it was.
pub proof fn lemma_acquire_release(have: Resources, need: (Resource, Resource))
    requires
        enough(have, need),
    ensures
        can_release(acquired(have, need), need),
        released(acquired(have, need), need) == have,
{
}

} // verus!
