//! The storage arena: fixed-length pools of scalar cells shared by all blocks.

use crate::size::{Pool, SystemSize};
use vstd::prelude::*;

verus! {

/// The contents of every pool of an arena.
pub struct StorageView<R> {
    pub r_param: Seq<R>,
    pub b_param: Seq<bool>,
    pub r_state: Seq<R>,
    pub r_state_der: Seq<R>,
    pub b_state: Seq<bool>,
    pub r_out: Seq<R>,
    pub b_out: Seq<bool>,
}

impl<R> StorageView<R> {
    /// The length of the pool `pool`.
    pub open spec fn len(self, pool: Pool) -> nat {
        match pool {
            Pool::RealParameter => self.r_param.len(),
            Pool::BoolParameter => self.b_param.len(),
            Pool::RealState => self.r_state.len(),
            Pool::BoolState => self.b_state.len(),
            Pool::RealOutput => self.r_out.len(),
            Pool::BoolOutput => self.b_out.len(),
        }
    }

    /// Whether both views have pools of the same lengths.
    pub open spec fn same_shape(self, other: StorageView<R>) -> bool {
        &&& forall|p: Pool| #[trigger] self.len(p) == other.len(p)
        &&& self.r_state_der.len() == other.r_state_der.len()
    }
}

/// The arena of a simulation. `R` is the type of real values.
///
/// Pools are allocated once, zero-filled, and never resized; every access is
/// by an index below the pool's length.
pub struct SystemStorage<R> {
    r_param: Vec<R>,
    b_param: Vec<bool>,
    r_state: Vec<R>,
    r_state_der: Vec<R>,
    b_state: Vec<bool>,
    r_out: Vec<R>,
    b_out: Vec<bool>,
}

impl<R> View for SystemStorage<R> {
    type V = StorageView<R>;

    closed spec fn view(&self) -> StorageView<R> {
        StorageView {
            r_param: self.r_param@,
            b_param: self.b_param@,
            r_state: self.r_state@,
            r_state_der: self.r_state_der@,
            b_state: self.b_state@,
            r_out: self.r_out@,
            b_out: self.b_out@,
        }
    }
}

fn filled<T: Copy>(n: usize, v: T) -> (r: Vec<T>)
    ensures
        r@ == Seq::new(n as nat, |_i: int| v),
{
    let mut out: Vec<T> = Vec::new();
    let mut i: usize = 0;
    while i < n
        invariant
            i <= n,
            out@ == Seq::new(i as nat, |_i: int| v),
        decreases n - i,
    {
        out.push(v);
        i = i + 1;
        assert(out@ =~= Seq::new(i as nat, |_i: int| v));
    }
    out
}

impl<R: Copy> SystemStorage<R> {
    /// Every continuous state cell has its derivative cell.
    pub open spec fn wf(&self) -> bool {
        self@.r_state_der.len() == self@.r_state.len()
    }

    /// No pool is longer than `usize` can count.
    pub proof fn lemma_pool_lengths(&self)
        ensures
            forall|p: Pool| #[trigger] self@.len(p) <= usize::MAX,
            self@.r_state_der.len() <= usize::MAX,
    {
        assert(self.r_param@.len() == self.r_param.len());
        assert(self.b_param@.len() == self.b_param.len());
        assert(self.r_state@.len() == self.r_state.len());
        assert(self.r_state_der@.len() == self.r_state_der.len());
        assert(self.b_state@.len() == self.b_state.len());
        assert(self.r_out@.len() == self.r_out.len());
        assert(self.b_out@.len() == self.b_out.len());
    }

    /// An arena with the capacity `size`, real cells set to `zero` and
    /// boolean cells to `false`.
    pub fn new(size: &SystemSize, zero: R) -> (r: SystemStorage<R>)
        ensures
            r.wf(),
            forall|p: Pool| #[trigger] r@.len(p) == size.cells(p),
            r@.r_param == Seq::new(size.r_param as nat, |_i: int| zero),
            r@.b_param == Seq::new(size.b_param as nat, |_i: int| false),
            r@.r_state == Seq::new(size.r_state as nat, |_i: int| zero),
            r@.r_state_der == Seq::new(size.r_state as nat, |_i: int| zero),
            r@.b_state == Seq::new(size.b_state as nat, |_i: int| false),
            r@.r_out == Seq::new(size.r_out as nat, |_i: int| zero),
            r@.b_out == Seq::new(size.b_out as nat, |_i: int| false),
    {
        SystemStorage {
            r_param: filled(size.r_param, zero),
            b_param: filled(size.b_param, false),
            r_state: filled(size.r_state, zero),
            r_state_der: filled(size.r_state, zero),
            b_state: filled(size.b_state, false),
            r_out: filled(size.r_out, zero),
            b_out: filled(size.b_out, false),
        }
    }

    /// The capacity of each pool.
    pub fn sizes(&self) -> (r: SystemSize)
        ensures
            forall|p: Pool| #[trigger] r.cells(p) == self@.len(p),
    {
        SystemSize {
            r_param: self.r_param.len(),
            b_param: self.b_param.len(),
            r_state: self.r_state.len(),
            b_state: self.b_state.len(),
            r_out: self.r_out.len(),
            b_out: self.b_out.len(),
        }
    }

    pub fn r_param_get(&self, ind: usize) -> (r: R)
        requires
            ind < self@.r_param.len(),
        ensures
            r == self@.r_param[ind as int],
    {
        self.r_param[ind]
    }

    pub fn r_param_set(&mut self, ind: usize, value: R)
        requires
            ind < old(self)@.r_param.len(),
        ensures
            final(self)@ == (StorageView { r_param: old(self)@.r_param.update(ind as int, value), ..old(self)@ }),
    {
        self.r_param.set(ind, value);
    }

    pub fn b_param_get(&self, ind: usize) -> (r: bool)
        requires
            ind < self@.b_param.len(),
        ensures
            r == self@.b_param[ind as int],
    {
        self.b_param[ind]
    }

    pub fn b_param_set(&mut self, ind: usize, value: bool)
        requires
            ind < old(self)@.b_param.len(),
        ensures
            final(self)@ == (StorageView { b_param: old(self)@.b_param.update(ind as int, value), ..old(self)@ }),
    {
        self.b_param.set(ind, value);
    }

    pub fn r_state_get(&self, ind: usize) -> (r: R)
        requires
            ind < self@.r_state.len(),
        ensures
            r == self@.r_state[ind as int],
    {
        self.r_state[ind]
    }

    pub fn r_state_set(&mut self, ind: usize, value: R)
        requires
            ind < old(self)@.r_state.len(),
        ensures
            final(self)@ == (StorageView { r_state: old(self)@.r_state.update(ind as int, value), ..old(self)@ }),
    {
        self.r_state.set(ind, value);
    }

    pub fn r_state_der_get(&self, ind: usize) -> (r: R)
        requires
            ind < self@.r_state_der.len(),
        ensures
            r == self@.r_state_der[ind as int],
    {
        self.r_state_der[ind]
    }

    pub fn r_state_der_set(&mut self, ind: usize, value: R)
        requires
            ind < old(self)@.r_state_der.len(),
        ensures
            final(self)@ == (StorageView {
                r_state_der: old(self)@.r_state_der.update(ind as int, value),
                ..old(self)@
            }),
    {
        self.r_state_der.set(ind, value);
    }

    pub fn b_state_get(&self, ind: usize) -> (r: bool)
        requires
            ind < self@.b_state.len(),
        ensures
            r == self@.b_state[ind as int],
    {
        self.b_state[ind]
    }

    pub fn b_state_set(&mut self, ind: usize, value: bool)
        requires
            ind < old(self)@.b_state.len(),
        ensures
            final(self)@ == (StorageView { b_state: old(self)@.b_state.update(ind as int, value), ..old(self)@ }),
    {
        self.b_state.set(ind, value);
    }

    pub fn r_out_get(&self, ind: usize) -> (r: R)
        requires
            ind < self@.r_out.len(),
        ensures
            r == self@.r_out[ind as int],
    {
        self.r_out[ind]
    }

    pub fn r_out_set(&mut self, ind: usize, value: R)
        requires
            ind < old(self)@.r_out.len(),
        ensures
            final(self)@ == (StorageView { r_out: old(self)@.r_out.update(ind as int, value), ..old(self)@ }),
    {
        self.r_out.set(ind, value);
    }

    pub fn b_out_get(&self, ind: usize) -> (r: bool)
        requires
            ind < self@.b_out.len(),
        ensures
            r == self@.b_out[ind as int],
    {
        self.b_out[ind]
    }

    pub fn b_out_set(&mut self, ind: usize, value: bool)
        requires
            ind < old(self)@.b_out.len(),
        ensures
            final(self)@ == (StorageView { b_out: old(self)@.b_out.update(ind as int, value), ..old(self)@ }),
    {
        self.b_out.set(ind, value);
    }

    /// One explicit integration pass: every continuous state value becomes
    /// `step(value, derivative)` of its own cell, all other cells untouched.
    /// With `step = |v, d| v + d * dt` this is forward Euler over `dt`.
    pub fn advance_continuous_state<F: Fn(R, R) -> R>(&mut self, step: &F)
        requires
            old(self).wf(),
            forall|v: R, d: R| #[trigger] step.requires((v, d)),
        ensures
            final(self).wf(),
            final(self)@.r_state.len() == old(self)@.r_state.len(),
            forall|i: int|
                0 <= i < old(self)@.r_state.len() ==> step.ensures(
                    (old(self)@.r_state[i], old(self)@.r_state_der[i]),
                    #[trigger] final(self)@.r_state[i],
                ),
            final(self)@ == (StorageView { r_state: final(self)@.r_state, ..old(self)@ }),
    {
        let n = self.r_state.len();
        let mut i: usize = 0;
        while i < n
            invariant
                self.wf(),
                n == self@.r_state.len(),
                n == old(self)@.r_state.len(),
                i <= n,
                forall|v: R, d: R| #[trigger] step.requires((v, d)),
                forall|j: int|
                    0 <= j < i ==> step.ensures(
                        (old(self)@.r_state[j], old(self)@.r_state_der[j]),
                        #[trigger] self@.r_state[j],
                    ),
                forall|j: int| i <= j < n ==> #[trigger] self@.r_state[j] == old(self)@.r_state[j],
                self@ == (StorageView { r_state: self@.r_state, ..old(self)@ }),
            decreases n - i,
        {
            let v = self.r_state[i];
            let d = self.r_state_der[i];
            let nv = step(v, d);
            self.r_state.set(i, nv);
            i = i + 1;
        }
    }
}

} // verus!
