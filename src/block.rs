//! Handles: typed views of arena cells that blocks read and write.
//!
//! A handle holds only the index of its cell; the arena is passed to every
//! access. The marker `Real` or `Bool` selects the pool a handle lives in.

use crate::counters::SystemCounters;
use crate::size::{BlockSize, Pool};
use crate::storage::{StorageView, SystemStorage};
use core::marker::PhantomData;
use vstd::prelude::*;

verus! {

/// Marker of handles over real cells.
pub struct Real;

/// Marker of handles over boolean cells.
pub struct Bool;

/// Wiring faults of an input.
#[derive(Clone, Copy, Debug, PartialEq, Eq, Structural)]
pub enum PortError {
    /// The input was read before it was connected to an output.
    Unbound,
    /// The input is already connected; a second producer is refused.
    AlreadyBound,
}

/// Whether the arena behind `s` still has room, past the counters' cursors,
/// for every cell that a block of signature `need` takes.
pub open spec fn room_for<R>(counters: SystemCounters, s: StorageView<R>, need: BlockSize) -> bool {
    forall|p: Pool| #[trigger] counters.cursor(p) + need.cells(p) <= s.len(p)
}

/// Whether the counters moved on by exactly the signature `need`.
pub open spec fn advanced_by(before: SystemCounters, after: SystemCounters, need: BlockSize) -> bool {
    forall|p: Pool| #[trigger] after.cursor(p) == before.cursor(p) + need.cells(p)
}

/// A block parameter: read and written by its block, seeded with a default.
pub struct Parameter<T> {
    id: usize,
    _marker: PhantomData<T>,
}

/// A block input: reads the cell of the one output it is connected to.
pub struct Input<T> {
    output_id: Option<usize>,
    _marker: PhantomData<T>,
}

/// A block output: the cell its block writes and connected inputs read.
pub struct Output<T> {
    id: usize,
    _marker: PhantomData<T>,
}

/// A discrete state cell, updated in place by its block's state update.
pub struct DiscreteState<T> {
    id: usize,
    _marker: PhantomData<T>,
}

/// A continuous state value together with its derivative cell (same index).
pub struct ContinuousState<T> {
    id: usize,
    _marker: PhantomData<T>,
}

impl<T> Parameter<T> {
    /// The index of the cell in its pool.
    pub closed spec fn cell(&self) -> nat {
        self.id as nat
    }

    pub fn id(&self) -> (r: usize)
        ensures
            r == self.cell(),
    {
        self.id
    }
}

impl<T> Output<T> {
    pub closed spec fn cell(&self) -> nat {
        self.id as nat
    }

    pub fn id(&self) -> (r: usize)
        ensures
            r == self.cell(),
    {
        self.id
    }
}

impl<T> DiscreteState<T> {
    pub closed spec fn cell(&self) -> nat {
        self.id as nat
    }

    pub fn id(&self) -> (r: usize)
        ensures
            r == self.cell(),
    {
        self.id
    }
}

impl<T> ContinuousState<T> {
    pub closed spec fn cell(&self) -> nat {
        self.id as nat
    }

    pub fn id(&self) -> (r: usize)
        ensures
            r == self.cell(),
    {
        self.id
    }
}

impl<T> Input<T> {
    /// The output cell this input reads, once connected.
    pub closed spec fn source(&self) -> Option<nat> {
        match self.output_id {
            Some(i) => Some(i as nat),
            None => None,
        }
    }

    /// An input not yet connected to any output.
    pub fn new() -> (r: Input<T>)
        ensures
            r.source() is None,
    {
        Input { output_id: None, _marker: PhantomData }
    }

    /// Binds this input to `output`. An input has at most one producer: a
    /// second `connect` is refused and leaves the binding as it was.
    pub fn connect(&mut self, output: &Output<T>) -> (r: Result<(), PortError>)
        ensures
            old(self).source() is None ==> r is Ok && final(self).source() == Some(output.cell()),
            old(self).source() is Some ==> r == Err::<(), PortError>(PortError::AlreadyBound),
            old(self).source() is Some ==> final(self).source() == old(self).source(),
    {
        match self.output_id {
            Some(_) => Err(PortError::AlreadyBound),
            None => {
                self.output_id = Some(output.id);
                Ok(())
            },
        }
    }

    pub fn output_id(&self) -> (r: Option<usize>)
        ensures
            r matches Some(i) ==> self.source() == Some(i as nat),
            r is None <==> self.source() is None,
    {
        self.output_id
    }
}

impl Parameter<Real> {
    pub fn new(id: usize) -> (r: Self)
        ensures
            r.cell() == id,
    {
        Parameter { id, _marker: PhantomData }
    }

    pub fn get<R: Copy>(&self, s: &SystemStorage<R>) -> (r: R)
        requires
            self.cell() < s@.r_param.len(),
        ensures
            r == s@.r_param[self.cell() as int],
    {
        s.r_param_get(self.id)
    }

    pub fn set<R: Copy>(&self, s: &mut SystemStorage<R>, v: R)
        requires
            self.cell() < old(s)@.r_param.len(),
        ensures
            final(s)@ == (StorageView { r_param: old(s)@.r_param.update(self.cell() as int, v), ..old(s)@ }),
    {
        s.r_param_set(self.id, v)
    }

    /// Writes the default value at construction and hands the handle back.
    pub fn init<R: Copy>(self, s: &mut SystemStorage<R>, v: R) -> (r: Self)
        requires
            self.cell() < old(s)@.r_param.len(),
        ensures
            r == self,
            final(s)@ == (StorageView { r_param: old(s)@.r_param.update(self.cell() as int, v), ..old(s)@ }),
    {
        self.set(s, v);
        self
    }
}

impl Parameter<Bool> {
    pub fn new(id: usize) -> (r: Self)
        ensures
            r.cell() == id,
    {
        Parameter { id, _marker: PhantomData }
    }

    pub fn get<R: Copy>(&self, s: &SystemStorage<R>) -> (r: bool)
        requires
            self.cell() < s@.b_param.len(),
        ensures
            r == s@.b_param[self.cell() as int],
    {
        s.b_param_get(self.id)
    }

    pub fn set<R: Copy>(&self, s: &mut SystemStorage<R>, v: bool)
        requires
            self.cell() < old(s)@.b_param.len(),
        ensures
            final(s)@ == (StorageView { b_param: old(s)@.b_param.update(self.cell() as int, v), ..old(s)@ }),
    {
        s.b_param_set(self.id, v)
    }

    pub fn init<R: Copy>(self, s: &mut SystemStorage<R>, v: bool) -> (r: Self)
        requires
            self.cell() < old(s)@.b_param.len(),
        ensures
            r == self,
            final(s)@ == (StorageView { b_param: old(s)@.b_param.update(self.cell() as int, v), ..old(s)@ }),
    {
        self.set(s, v);
        self
    }
}

impl Input<Real> {
    /// The value of the connected output; `Unbound` before `connect`.
    pub fn get<R: Copy>(&self, s: &SystemStorage<R>) -> (r: Result<R, PortError>)
        requires
            self.source() matches Some(i) ==> i < s@.r_out.len(),
        ensures
            self.source() matches Some(i) ==> r == Ok::<R, PortError>(s@.r_out[i as int]),
            self.source() is None ==> r == Err::<R, PortError>(PortError::Unbound),
    {
        match self.output_id {
            Some(i) => Ok(s.r_out_get(i)),
            None => Err(PortError::Unbound),
        }
    }
}

impl Input<Bool> {
    pub fn get<R: Copy>(&self, s: &SystemStorage<R>) -> (r: Result<bool, PortError>)
        requires
            self.source() matches Some(i) ==> i < s@.b_out.len(),
        ensures
            self.source() matches Some(i) ==> r == Ok::<bool, PortError>(s@.b_out[i as int]),
            self.source() is None ==> r == Err::<bool, PortError>(PortError::Unbound),
    {
        match self.output_id {
            Some(i) => Ok(s.b_out_get(i)),
            None => Err(PortError::Unbound),
        }
    }
}

impl Output<Real> {
    pub fn new(id: usize) -> (r: Self)
        ensures
            r.cell() == id,
    {
        Output { id, _marker: PhantomData }
    }

    pub fn get<R: Copy>(&self, s: &SystemStorage<R>) -> (r: R)
        requires
            self.cell() < s@.r_out.len(),
        ensures
            r == s@.r_out[self.cell() as int],
    {
        s.r_out_get(self.id)
    }

    pub fn set<R: Copy>(&self, s: &mut SystemStorage<R>, v: R)
        requires
            self.cell() < old(s)@.r_out.len(),
        ensures
            final(s)@ == (StorageView { r_out: old(s)@.r_out.update(self.cell() as int, v), ..old(s)@ }),
    {
        s.r_out_set(self.id, v)
    }
}

impl Output<Bool> {
    pub fn new(id: usize) -> (r: Self)
        ensures
            r.cell() == id,
    {
        Output { id, _marker: PhantomData }
    }

    pub fn get<R: Copy>(&self, s: &SystemStorage<R>) -> (r: bool)
        requires
            self.cell() < s@.b_out.len(),
        ensures
            r == s@.b_out[self.cell() as int],
    {
        s.b_out_get(self.id)
    }

    pub fn set<R: Copy>(&self, s: &mut SystemStorage<R>, v: bool)
        requires
            self.cell() < old(s)@.b_out.len(),
        ensures
            final(s)@ == (StorageView { b_out: old(s)@.b_out.update(self.cell() as int, v), ..old(s)@ }),
    {
        s.b_out_set(self.id, v)
    }
}

impl DiscreteState<Bool> {
    pub fn new(id: usize) -> (r: Self)
        ensures
            r.cell() == id,
    {
        DiscreteState { id, _marker: PhantomData }
    }

    pub fn get<R: Copy>(&self, s: &SystemStorage<R>) -> (r: bool)
        requires
            self.cell() < s@.b_state.len(),
        ensures
            r == s@.b_state[self.cell() as int],
    {
        s.b_state_get(self.id)
    }

    pub fn set<R: Copy>(&self, s: &mut SystemStorage<R>, v: bool)
        requires
            self.cell() < old(s)@.b_state.len(),
        ensures
            final(s)@ == (StorageView { b_state: old(s)@.b_state.update(self.cell() as int, v), ..old(s)@ }),
    {
        s.b_state_set(self.id, v)
    }

    /// Writes the initial value at construction and hands the handle back.
    pub fn init<R: Copy>(self, s: &mut SystemStorage<R>, v: bool) -> (r: Self)
        requires
            self.cell() < old(s)@.b_state.len(),
        ensures
            r == self,
            final(s)@ == (StorageView { b_state: old(s)@.b_state.update(self.cell() as int, v), ..old(s)@ }),
    {
        self.set(s, v);
        self
    }
}

impl ContinuousState<Real> {
    pub fn new(id: usize) -> (r: Self)
        ensures
            r.cell() == id,
    {
        ContinuousState { id, _marker: PhantomData }
    }

    pub fn get<R: Copy>(&self, s: &SystemStorage<R>) -> (r: R)
        requires
            self.cell() < s@.r_state.len(),
        ensures
            r == s@.r_state[self.cell() as int],
    {
        s.r_state_get(self.id)
    }

    pub fn set<R: Copy>(&self, s: &mut SystemStorage<R>, v: R)
        requires
            self.cell() < old(s)@.r_state.len(),
        ensures
            final(s)@ == (StorageView { r_state: old(s)@.r_state.update(self.cell() as int, v), ..old(s)@ }),
    {
        s.r_state_set(self.id, v)
    }

    pub fn der_get<R: Copy>(&self, s: &SystemStorage<R>) -> (r: R)
        requires
            self.cell() < s@.r_state_der.len(),
        ensures
            r == s@.r_state_der[self.cell() as int],
    {
        s.r_state_der_get(self.id)
    }

    pub fn der_set<R: Copy>(&self, s: &mut SystemStorage<R>, v: R)
        requires
            self.cell() < old(s)@.r_state_der.len(),
        ensures
            final(s)@ == (StorageView {
                r_state_der: old(s)@.r_state_der.update(self.cell() as int, v),
                ..old(s)@
            }),
    {
        s.r_state_der_set(self.id, v)
    }

    /// Writes the initial value at construction and hands the handle back.
    pub fn init<R: Copy>(self, s: &mut SystemStorage<R>, v: R) -> (r: Self)
        requires
            self.cell() < old(s)@.r_state.len(),
        ensures
            r == self,
            final(s)@ == (StorageView { r_state: old(s)@.r_state.update(self.cell() as int, v), ..old(s)@ }),
    {
        self.set(s, v);
        self
    }
}

} // verus!
