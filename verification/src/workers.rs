//! How slices are shared out to workers.

use crate::decoder::PARALLEL_PIXEL_THRESHOLD;
use vstd::arithmetic::div_mod::*;
use vstd::arithmetic::mul::*;
use vstd::prelude::*;

verus! {

/// The number of workers for a budget: at least one, and no more than there
/// are slices.
pub open spec fn fanout(num_slices: int, budget: int) -> int {
    let most = if budget < num_slices {
        budget
    } else {
        num_slices
    };
    if most < 1 {
        1
    } else {
        most
    }
}

/// The number of workers for a budget.
pub fn thread_fanout(num_slices: usize, budget: usize) -> (n: usize)
    ensures
        n == fanout(num_slices as int, budget as int),
{
    let most: usize = if budget < num_slices {
        budget
    } else {
        num_slices
    };
    if most < 1 {
        1
    } else {
        most
    }
}

/// The number of workers for a whole frame: one for a frame of one slice or
/// of fewer pixels than pay for a second worker.
pub fn frame_workers(num_slices: usize, pixels: usize, budget: usize) -> (n: usize)
    ensures
        n == (if num_slices > 1 && pixels >= PARALLEL_PIXEL_THRESHOLD {
            fanout(num_slices as int, budget as int)
        } else {
            1
        }),
{
    if num_slices > 1 && pixels >= PARALLEL_PIXEL_THRESHOLD {
        thread_fanout(num_slices, budget)
    } else {
        1
    }
}

/// The number of slices that each worker but the last ones gets.
pub open spec fn share(num_slices: int, workers: int) -> int {
    (num_slices + workers - 1) / workers
}

/// The first slice of worker `b`.
pub open spec fn bucket_start(num_slices: int, workers: int, b: int) -> int {
    let s = b * share(num_slices, workers);
    if s < num_slices {
        s
    } else {
        num_slices
    }
}

/// The slices of the workers follow on each other and leave none out.
pub proof fn law_buckets_partition(num_slices: int, workers: int, b: int)
    requires
        0 <= num_slices,
        1 <= workers,
        0 <= b < workers,
    ensures
        bucket_start(num_slices, workers, 0) == 0,
        bucket_start(num_slices, workers, workers) == num_slices,
        0 <= bucket_start(num_slices, workers, b) <= bucket_start(num_slices, workers, b + 1)
            <= num_slices,
{
    let c = share(num_slices, workers);
    lemma_mul_basics_1(c);
    lemma_fundamental_div_mod(num_slices + workers - 1, workers);
    lemma_mod_bound(num_slices + workers - 1, workers);
    lemma_div_pos_is_pos(num_slices + workers - 1, workers);
    assert(workers * c >= num_slices);
    assert(0 <= b * c <= (b + 1) * c) by (nonlinear_arith)
        requires
            0 <= b,
            0 <= c,
    ;
}

/// The first slice of worker `b`, and the slice after its last one.
pub fn bucket(num_slices: usize, workers: usize, b: usize) -> (r: (usize, usize))
    requires
        1 <= workers,
        b < workers,
        num_slices <= 256,
        workers <= 256,
    ensures
        r.0 == bucket_start(num_slices as int, workers as int, b as int),
        r.1 == bucket_start(num_slices as int, workers as int, b + 1),
        r.0 <= r.1 <= num_slices,
{
    let c: usize = (num_slices + workers - 1) / workers;
    proof {
        law_buckets_partition(num_slices as int, workers as int, b as int);
        lemma_div_nonincreasing(num_slices + workers - 1, workers as int);
        let x = b as int;
        let y = c as int;
        assert(0 <= x * y <= (x + 1) * y <= 256 * 512) by (nonlinear_arith)
            requires
                0 <= x < 256,
                0 <= y <= 512,
        ;
    }
    let start: usize = b * c;
    let end: usize = (b + 1) * c;
    (
        if start < num_slices {
            start
        } else {
            num_slices
        },
        if end < num_slices {
            end
        } else {
            num_slices
        },
    )
}

} // verus!
