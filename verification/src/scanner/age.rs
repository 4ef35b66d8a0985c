//! Age buckets: how old a file is, in days, mapped onto a small histogram.

use vstd::prelude::*;

verus! {

/// Upper bounds (exclusive, days) of each age bucket; the last bucket is open-ended.
pub const AGE_BUCKET_DAYS: [i64; 8] = [1, 7, 30, 90, 180, 365, 730, 1825];

/// Representative age (days) reported for files landing in each bucket.
pub const AGE_BUCKET_REP_DAYS: [i64; 9] = [0, 3, 18, 60, 135, 270, 545, 1277, 2555];

pub const SECS_PER_DAY: i64 = 86_400;

/// Number of age buckets.
pub const NUM_AGE_BUCKETS: usize = 9;

/// The exclusive upper bound, in days, of bucket `i` (for `i < 8`).
pub open spec fn bucket_upper(i: int) -> int {
    AGE_BUCKET_DAYS@[i] as int
}

/// The bucket of an age: the first bucket whose upper bound exceeds it,
/// or the open-ended last bucket.
pub open spec fn spec_age_bucket(age_days: int) -> int {
    if age_days < 1 { 0 }
    else if age_days < 7 { 1 }
    else if age_days < 30 { 2 }
    else if age_days < 90 { 3 }
    else if age_days < 180 { 4 }
    else if age_days < 365 { 5 }
    else if age_days < 730 { 6 }
    else if age_days < 1825 { 7 }
    else { 8 }
}

/// Index of the first bucket bound that `age_days` lies below; `8` when it
/// lies below none of them.
pub fn age_bucket(age_days: i64) -> (b: usize)
    ensures
        b == spec_age_bucket(age_days as int),
        b < NUM_AGE_BUCKETS,
        forall|i: int| 0 <= i < b ==> age_days >= bucket_upper(i),
        b < 8 ==> age_days < bucket_upper(b as int),
{
    let mut i: usize = 0;
    while i < 8
        invariant
            i <= 8,
            AGE_BUCKET_DAYS@ == seq![1i64, 7, 30, 90, 180, 365, 730, 1825],
            forall|j: int| 0 <= j < i ==> age_days >= bucket_upper(j),
        decreases 8 - i,
    {
        if age_days < AGE_BUCKET_DAYS[i] {
            proof { lemma_bucket_uppers(); }
            return i;
        }
        i = i + 1;
    }
    proof { lemma_bucket_uppers(); }
    8
}

proof fn lemma_bucket_uppers()
    ensures
        bucket_upper(0) == 1,
        bucket_upper(1) == 7,
        bucket_upper(2) == 30,
        bucket_upper(3) == 90,
        bucket_upper(4) == 180,
        bucket_upper(5) == 365,
        bucket_upper(6) == 730,
        bucket_upper(7) == 1825,
{
    assert(AGE_BUCKET_DAYS@ == seq![1i64, 7, 30, 90, 180, 365, 730, 1825]);
}

} // verus!
