use vstd::prelude::*;

verus! {

/// The lower bounds of the partitions `[i, i + 1)` that cover `[min, max)`, in order.
pub open spec fn bounds_spec(min: u32, max: u32) -> Seq<u32> {
    if min < max {
        Seq::new((max - min) as nat, |i: int| (min + i) as u32)
    } else {
        Seq::empty()
    }
}

/// The partitions of the follower range `[min, max)`, one per unit step, by their
/// lower bounds. The range is empty where `max <= min`.
pub fn partition_bounds(min: u32, max: u32) -> (r: Vec<u32>)
    ensures
        r@ == bounds_spec(min, max),
{
    let mut r: Vec<u32> = Vec::new();
    let mut b: u32 = min;
    while b < max
        invariant
            min <= b,
            min < max ==> b <= max,
            min >= max ==> b == min,
            r@ == bounds_spec(min, b),
        decreases max - b,
    {
        r.push(b);
        proof {
            assert(r@ =~= bounds_spec(min, (b + 1) as u32));
        }
        b = b + 1;
    }
    proof {
        if min < max {
            assert(b == max);
        } else {
            assert(r@ =~= bounds_spec(min, max));
        }
    }
    r
}

/// Subjects gathered by a pass that found `before` subjects in the store and left
/// `after`; none where the store did not grow.
pub fn net_gathered(before: usize, after: usize) -> (r: usize)
    ensures
        r == if after >= before { after - before } else { 0 },
{
    if after >= before {
        after - before
    } else {
        0
    }
}

} // verus!
