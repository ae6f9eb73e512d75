use vstd::prelude::*;

use crate::errors::AppError;

verus! {

/// The seeds `min, min + 1, ..., max`, in increasing order.
pub open spec fn seed_seq(min: u32, max: u32) -> Seq<u32> {
    Seq::new((max - min + 1) as nat, |i: int| (min + i) as u32)
}

/// Whether `instances` runs starting at `seed` stay within the seed space.
pub open spec fn range_fits(seed: u32, instances: u32) -> bool {
    seed + instances - 1 <= u32::MAX
}

/// The closed interval of seeds that a test run covers.
#[derive(Debug, Clone, Copy, PartialEq, Eq, Structural)]
pub struct SeedRange {
    pub min: u32,
    pub max: u32,
}

impl SeedRange {
    pub open spec fn wf(&self) -> bool {
        self.min <= self.max
    }

    /// The range of `instances` consecutive seeds that starts at `seed`.
    pub fn new(seed: u32, instances: u32) -> (r: Result<SeedRange, AppError>)
        requires
            instances > 0,
        ensures
            range_fits(seed, instances) <==> r is Ok,
            r is Ok ==> r->Ok_0 == (SeedRange { min: seed, max: (seed + instances - 1) as u32 }),
            r is Ok ==> r->Ok_0.wf(),
            r is Err ==> r->Err_0 == AppError::SeedRangeOutOfBounds,
    {
        match seed.checked_add(instances - 1) {
            Some(max) => Ok(SeedRange { min: seed, max }),
            None => Err(AppError::SeedRangeOutOfBounds),
        }
    }

    /// How many seeds the range holds.
    pub fn count(&self) -> (r: u64)
        requires
            self.wf(),
        ensures
            r == self.max - self.min + 1,
    {
        (self.max - self.min) as u64 + 1
    }

    /// Every seed of the range, in increasing order.
    pub fn seeds(&self) -> (r: Vec<u32>)
        requires
            self.wf(),
        ensures
            r@ == seed_seq(self.min, self.max),
    {
        let mut out: Vec<u32> = Vec::new();
        let mut s: u32 = self.min;
        loop
            invariant_except_break
                self.min <= s <= self.max,
                out@ =~= Seq::new((s - self.min) as nat, |i: int| (self.min + i) as u32),
            ensures
                out@ =~= seed_seq(self.min, self.max),
            decreases self.max - s,
        {
            out.push(s);
            if s == self.max {
                break;
            }
            s = s + 1;
        }
        out
    }
}

/// A range built from `seed` and `instances` holds exactly `instances`
/// distinct seeds, from `seed` up to `seed + instances - 1`.
pub proof fn lemma_seed_range_exact(seed: u32, instances: u32)
    requires
        instances > 0,
        range_fits(seed, instances),
    ensures
        ({
            let s = seed_seq(seed, (seed + instances - 1) as u32);
            &&& s.len() == instances
            &&& s.no_duplicates()
            &&& s[0] == seed
            &&& s.last() == seed + instances - 1
            &&& forall|x: u32| s.contains(x) <==> seed <= x <= seed + instances - 1
        }),
{
    let s = seed_seq(seed, (seed + instances - 1) as u32);
    assert forall|x: u32| seed <= x <= seed + instances - 1 implies s.contains(x) by {
        assert(s[x - seed] == x);
    }
}

} // verus!
