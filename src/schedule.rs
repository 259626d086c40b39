use vstd::prelude::*;
use crate::graph::Graph;
use crate::queue::Queue;

verus! {

/// Why no cycle lengths could be scheduled.
#[derive(Debug, Clone, Copy, PartialEq, Eq, Structural)]
pub enum ScheduleError {
    /// The minimum cycle size is zero: fewer than three edges.
    ZeroCycleSize,
}

/// The cycle lengths scheduled for `e` edges with minimum size `m`: `m` as
/// many times as it fits in `e`, then the remainder when there is one.
pub open spec fn schedule(e: u32, m: u32) -> Seq<u32>
    recommends
        m > 0,
{
    repeat((e / m) as nat, m) + if e % m == 0 {
        Seq::<u32>::empty()
    } else {
        seq![(e % m) as u32]
    }
}

/// `k` copies of `m`.
pub open spec fn repeat(k: nat, m: u32) -> Seq<u32> {
    Seq::new(k, |i: int| m)
}

/// The sum of the values of `s`.
pub open spec fn total(s: Seq<u32>) -> int
    decreases s.len(),
{
    if s.len() == 0 {
        0
    } else {
        total(s.drop_last()) + s.last()
    }
}

proof fn lemma_total_repeat(k: nat, m: u32)
    ensures
        total(repeat(k, m)) == k * m,
    decreases k,
{
    if k > 0 {
        let s = repeat(k, m);
        assert(s.drop_last() =~= repeat((k - 1) as nat, m));
        assert(s.last() == m);
        lemma_total_repeat((k - 1) as nat, m);
        assert(total(s) == total(s.drop_last()) + m);
        assert(k * m == (k - 1) * m + m) by (nonlinear_arith);
        assert(total(s) == k * m);
    } else {
        assert(repeat(k, m).len() == 0);
        assert(total(repeat(k, m)) == 0);
    }
}

/// The scheduled lengths add up to the edge count, each is at least one,
/// at most one of them is below the minimum size, and there are
/// `ceil(e / m)` of them. With `m = e / 3` this is the schedule of a
/// decomposition of `e` edges.
pub proof fn lemma_schedule_covers_edges(e: u32, m: u32)
    requires
        m > 0,
    ensures
        total(schedule(e, m)) == e,
        forall|i: int| 0 <= i < schedule(e, m).len() ==> #[trigger] schedule(e, m)[i] >= 1,
        forall|i: int, j: int|
            0 <= i < schedule(e, m).len() && 0 <= j < schedule(e, m).len() && #[trigger] schedule(e, m)[i] < m
                && #[trigger] schedule(e, m)[j] < m ==> i == j,
        schedule(e, m).len() == (e as int + m as int - 1) / (m as int),
{
    let full = repeat((e / m) as nat, m);
    lemma_total_repeat((e / m) as nat, m);
    vstd::arithmetic::div_mod::lemma_fundamental_div_mod(e as int, m as int);
    if e % m != 0 {
        assert((full + seq![(e % m) as u32]).drop_last() =~= full);
    } else {
        assert(full + Seq::<u32>::empty() =~= full);
    }
    assert(e == m * (e / m) + e % m);
    let ei = e as int;
    let mi = m as int;
    let q = ei / mi;
    let rm = ei % mi;
    assert((ei + mi - 1) / mi == if rm == 0 { q } else { q + 1 }) by {
        assert(0 <= rm < mi);
        if rm == 0 {
            assert(ei + mi - 1 == mi * q + (mi - 1));
            vstd::arithmetic::div_mod::lemma_div_multiples_vanish_fancy(q, mi - 1, mi);
        } else {
            assert(ei + mi - 1 == mi * (q + 1) + (rm - 1)) by (nonlinear_arith)
                requires ei == mi * q + rm;
            vstd::arithmetic::div_mod::lemma_div_multiples_vanish_fancy(q + 1, rm - 1, mi);
        }
    }
}

impl Graph {
    /// Appends to `q_c` the cycle lengths for `num_edges` edges with minimum
    /// size `min_cycle_size`: that size as many times as it fits, then the
    /// remaining edge count when it is not zero. A zero minimum size is a
    /// configuration error and leaves the queue unchanged.
    pub fn fill_queue(&self, q_c: &mut Queue<u32>, num_edges: u32, min_cycle_size: u32) -> (r:
        Result<(), ScheduleError>)
        ensures
            min_cycle_size == 0 ==> r == Err::<(), ScheduleError>(ScheduleError::ZeroCycleSize)
                && final(q_c)@ == old(q_c)@,
            min_cycle_size > 0 ==> r is Ok && final(q_c)@ == old(q_c)@ + schedule(num_edges, min_cycle_size),
    {
        if min_cycle_size == 0 {
            return Err(ScheduleError::ZeroCycleSize);
        }
        let count = num_edges / min_cycle_size;
        let mut aux_total_edges: u32 = 0;
        let mut i: u32 = 0;
        while i < count
            invariant
                0 <= i <= count,
                count == num_edges / min_cycle_size,
                min_cycle_size > 0,
                aux_total_edges == i * min_cycle_size,
                q_c@ == old(q_c)@ + repeat(i as nat, min_cycle_size),
            decreases count - i,
        {
            proof {
                vstd::arithmetic::div_mod::lemma_fundamental_div_mod(num_edges as int, min_cycle_size as int);
                assert((i + 1) * min_cycle_size <= count * min_cycle_size) by (nonlinear_arith)
                    requires i + 1 <= count;
                assert(count * min_cycle_size == min_cycle_size * count) by (nonlinear_arith);
                assert(aux_total_edges + min_cycle_size == (i + 1) * min_cycle_size) by (nonlinear_arith)
                    requires aux_total_edges == i * min_cycle_size;
            }
            q_c.enqueue(min_cycle_size);
            aux_total_edges = aux_total_edges + min_cycle_size;
            i = i + 1;
            proof {
                assert(aux_total_edges == i * min_cycle_size) by (nonlinear_arith)
                    requires aux_total_edges == (i - 1) * min_cycle_size + min_cycle_size;
                assert(q_c@ =~= old(q_c)@ + repeat(i as nat, min_cycle_size));
            }
        }
        proof {
            vstd::arithmetic::div_mod::lemma_fundamental_div_mod(num_edges as int, min_cycle_size as int);
            assert(aux_total_edges == min_cycle_size * count) by (nonlinear_arith)
                requires aux_total_edges == i * min_cycle_size, i == count;
        }
        if aux_total_edges < num_edges {
            q_c.enqueue(num_edges - aux_total_edges);
            assert(q_c@ =~= old(q_c)@ + schedule(num_edges, min_cycle_size));
        } else {
            assert(q_c@ =~= old(q_c)@ + schedule(num_edges, min_cycle_size));
        }
        Ok(())
    }
}

} // verus!
