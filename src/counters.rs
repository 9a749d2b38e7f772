//! The index allocator: one monotone cursor per pool.

use crate::size::{Pool, SystemSize};
use vstd::prelude::*;

verus! {

/// Hands out arena indices to block constructors, one pool at a time.
/// Each cursor starts at zero and moves up by one per index handed out.
#[derive(Debug)]
pub struct SystemCounters {
    next_r_param: usize,
    next_b_param: usize,
    next_r_state: usize,
    next_b_state: usize,
    next_r_out: usize,
    next_b_out: usize,
}

/// The blocks built on an arena took a different number of cells than the
/// arena was sized for.
#[derive(Clone, Copy, Debug, PartialEq, Eq, Structural)]
pub struct SizeMismatch {
    pub declared: SystemSize,
    pub consumed: SystemSize,
}

/// How many of the requests in `ops` are for `pool`.
pub open spec fn requests(ops: Seq<Pool>, pool: Pool) -> nat
    decreases ops.len(),
{
    if ops.len() == 0 {
        0
    } else {
        requests(ops.drop_last(), pool) + if ops.last() == pool { 1nat } else { 0nat }
    }
}

/// The index that fresh counters hand to request `k` of `ops`: the number of
/// earlier requests for the same pool.
pub open spec fn issued(ops: Seq<Pool>, k: int) -> nat {
    requests(ops.take(k), ops[k])
}

/// Whether some request of `ops` for `pool` receives index `x`.
pub open spec fn issued_to(ops: Seq<Pool>, pool: Pool, x: nat) -> bool {
    exists|k: int| 0 <= k < ops.len() && ops[k] == pool && #[trigger] issued(ops, k) == x
}

impl SystemCounters {
    /// The cursor of `pool`: the next index it will hand out.
    pub closed spec fn cursor(&self, pool: Pool) -> nat {
        match pool {
            Pool::RealParameter => self.next_r_param as nat,
            Pool::BoolParameter => self.next_b_param as nat,
            Pool::RealState => self.next_r_state as nat,
            Pool::BoolState => self.next_b_state as nat,
            Pool::RealOutput => self.next_r_out as nat,
            Pool::BoolOutput => self.next_b_out as nat,
        }
    }

    /// Counters with every cursor at zero.
    pub fn new() -> (r: SystemCounters)
        ensures
            forall|p: Pool| #[trigger] r.cursor(p) == 0,
    {
        SystemCounters { next_r_param: 0, next_b_param: 0, next_r_state: 0, next_b_state: 0, next_r_out: 0, next_b_out: 0 }
    }

    /// Whether `self` differs from `old` only in the cursor of `pool`, which moved up by one.
    pub open spec fn advanced(&self, old: &SystemCounters, pool: Pool) -> bool {
        &&& self.cursor(pool) == old.cursor(pool) + 1
        &&& forall|p: Pool| p != pool ==> #[trigger] self.cursor(p) == old.cursor(p)
    }

    pub fn next_r_param(&mut self) -> (r: usize)
        requires
            old(self).cursor(Pool::RealParameter) < usize::MAX,
        ensures
            r == old(self).cursor(Pool::RealParameter),
            final(self).advanced(old(self), Pool::RealParameter),
    {
        let res = self.next_r_param;
        self.next_r_param = self.next_r_param + 1;
        res
    }

    pub fn next_b_param(&mut self) -> (r: usize)
        requires
            old(self).cursor(Pool::BoolParameter) < usize::MAX,
        ensures
            r == old(self).cursor(Pool::BoolParameter),
            final(self).advanced(old(self), Pool::BoolParameter),
    {
        let res = self.next_b_param;
        self.next_b_param = self.next_b_param + 1;
        res
    }

    pub fn next_r_state(&mut self) -> (r: usize)
        requires
            old(self).cursor(Pool::RealState) < usize::MAX,
        ensures
            r == old(self).cursor(Pool::RealState),
            final(self).advanced(old(self), Pool::RealState),
    {
        let res = self.next_r_state;
        self.next_r_state = self.next_r_state + 1;
        res
    }

    pub fn next_b_state(&mut self) -> (r: usize)
        requires
            old(self).cursor(Pool::BoolState) < usize::MAX,
        ensures
            r == old(self).cursor(Pool::BoolState),
            final(self).advanced(old(self), Pool::BoolState),
    {
        let res = self.next_b_state;
        self.next_b_state = self.next_b_state + 1;
        res
    }

    pub fn next_r_out(&mut self) -> (r: usize)
        requires
            old(self).cursor(Pool::RealOutput) < usize::MAX,
        ensures
            r == old(self).cursor(Pool::RealOutput),
            final(self).advanced(old(self), Pool::RealOutput),
    {
        let res = self.next_r_out;
        self.next_r_out = self.next_r_out + 1;
        res
    }

    pub fn next_b_out(&mut self) -> (r: usize)
        requires
            old(self).cursor(Pool::BoolOutput) < usize::MAX,
        ensures
            r == old(self).cursor(Pool::BoolOutput),
            final(self).advanced(old(self), Pool::BoolOutput),
    {
        let res = self.next_b_out;
        self.next_b_out = self.next_b_out + 1;
        res
    }

    /// The number of indices handed out so far from each pool, as a capacity.
    pub fn consumed(&self) -> (r: SystemSize)
        ensures
            forall|p: Pool| #[trigger] r.cells(p) == self.cursor(p),
    {
        SystemSize {
            r_param: self.next_r_param,
            b_param: self.next_b_param,
            r_state: self.next_r_state,
            b_state: self.next_b_state,
            r_out: self.next_r_out,
            b_out: self.next_b_out,
        }
    }

    /// Checks at the end of assembly that every pool handed out exactly its
    /// declared capacity.
    pub fn check_exhausted(&self, declared: &SystemSize) -> (r: Result<(), SizeMismatch>)
        ensures
            r is Ok <==> forall|p: Pool| #[trigger] self.cursor(p) == declared.cells(p),
            r matches Err(e) ==> e.declared == *declared && forall|p: Pool| #[trigger] e.consumed.cells(p) == self.cursor(p),
    {
        let consumed = self.consumed();
        if consumed == *declared {
            Ok(())
        } else {
            proof {
                assert(consumed.cells(Pool::RealParameter) != declared.cells(Pool::RealParameter)
                    || consumed.cells(Pool::BoolParameter) != declared.cells(Pool::BoolParameter)
                    || consumed.cells(Pool::RealState) != declared.cells(Pool::RealState)
                    || consumed.cells(Pool::BoolState) != declared.cells(Pool::BoolState)
                    || consumed.cells(Pool::RealOutput) != declared.cells(Pool::RealOutput)
                    || consumed.cells(Pool::BoolOutput) != declared.cells(Pool::BoolOutput));
            }
            Err(SizeMismatch { declared: *declared, consumed })
        }
    }
}

/// Allocator disjointness. Starting from fresh counters and serving the
/// requests `ops` in order, the indices issued to any one pool are pairwise
/// distinct and are exactly `0 .. n`, where `n` is the number of requests for
/// that pool.
pub proof fn lemma_allocation_disjoint(ops: Seq<Pool>, pool: Pool)
    ensures
        forall|i: int, j: int|
            0 <= i < j < ops.len() && ops[i] == pool && ops[j] == pool ==> #[trigger] issued(ops, i)
                < #[trigger] issued(ops, j),
        forall|k: int| 0 <= k < ops.len() && ops[k] == pool ==> #[trigger] issued(ops, k) < requests(ops, pool),
        forall|x: nat| x < requests(ops, pool) ==> #[trigger] issued_to(ops, pool, x),
{
    assert forall|i: int, j: int|
        0 <= i < j < ops.len() && ops[i] == pool && ops[j] == pool implies #[trigger] issued(ops, i)
            < #[trigger] issued(ops, j) by {
        lemma_requests_step(ops, i, pool);
        lemma_requests_monotone(ops, i + 1, j, pool);
    }
    assert forall|k: int| 0 <= k < ops.len() && ops[k] == pool implies #[trigger] issued(ops, k) < requests(ops, pool) by {
        lemma_requests_step(ops, k, pool);
        lemma_requests_monotone(ops, k + 1, ops.len() as int, pool);
        assert(ops.take(ops.len() as int) == ops);
    }
    assert forall|x: nat| x < requests(ops, pool) implies #[trigger] issued_to(ops, pool, x) by {
        assert(ops.take(ops.len() as int) == ops);
        let k = lemma_request_reaching(ops, ops.len() as int, pool, x);
    }
}

/// The count over a prefix grows by one exactly at a request for the pool.
proof fn lemma_requests_step(ops: Seq<Pool>, k: int, p: Pool)
    requires
        0 <= k < ops.len(),
    ensures
        requests(ops.take(k + 1), p) == requests(ops.take(k), p) + if ops[k] == p { 1nat } else { 0nat },
{
    assert(ops.take(k + 1).drop_last() == ops.take(k));
}

proof fn lemma_requests_monotone(ops: Seq<Pool>, i: int, j: int, p: Pool)
    requires
        0 <= i <= j <= ops.len(),
    ensures
        requests(ops.take(i), p) <= requests(ops.take(j), p),
    decreases j - i,
{
    if i < j {
        lemma_requests_monotone(ops, i, j - 1, p);
        lemma_requests_step(ops, j - 1, p);
        assert(j - 1 + 1 == j);
    }
}

/// Some request before `n` received index `x`, for every `x` below the count over the first `n`.
proof fn lemma_request_reaching(ops: Seq<Pool>, n: int, p: Pool, x: nat) -> (k: int)
    requires
        0 <= n <= ops.len(),
        x < requests(ops.take(n), p),
    ensures
        0 <= k < n,
        ops[k] == p,
        issued(ops, k) == x,
    decreases n,
{
    if n == 0 {
        assert(ops.take(0) =~= Seq::<Pool>::empty());
        assert(false);
        0
    } else {
        lemma_requests_step(ops, n - 1, p);
        assert(n - 1 + 1 == n);
        if ops[n - 1] == p && x == requests(ops.take(n - 1), p) {
            n - 1
        } else {
            lemma_request_reaching(ops, n - 1, p, x)
        }
    }
}

} // verus!
