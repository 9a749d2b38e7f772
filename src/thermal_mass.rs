//! A lumped thermal mass: temperature as continuous state, heated through
//! its input and exchanging heat with the ambient.

use crate::block::{advanced_by, room_for, ContinuousState, Input, Output, Parameter, PortError, Real};
use crate::counters::SystemCounters;
use crate::size::{BlockSize, Pool};
use crate::storage::{StorageView, SystemStorage};
use vstd::prelude::*;

verus! {

pub struct Block {
    pub cp: Parameter<Real>,
    pub h: Parameter<Real>,
    pub area: Parameter<Real>,
    pub t_amb: Parameter<Real>,
    pub qdot: Input<Real>,
    pub t: ContinuousState<Real>,
    pub t_out: Output<Real>,
}

pub struct OutputUpdate<R> {
    pub t_out: R,
}

pub struct StateUpdate<R> {
    pub t_dot: R,
}

/// The values the temperature derivative is computed from.
pub struct ThermalInputs<R> {
    pub qdot: R,
    pub h: R,
    pub area: R,
    pub t_amb: R,
    pub t: R,
    pub cp: R,
}

/// The cells a thermal mass takes.
pub open spec fn spec_size() -> BlockSize {
    BlockSize { r_param: 4, r_in: 1, r_state: 1, r_out: 1, ..BlockSize::zero() }
}

#[verifier::when_used_as_spec(spec_size)]
pub fn size() -> (r: BlockSize)
    ensures
        r == spec_size(),
{
    BlockSize { r_param: 4, b_param: 0, r_state: 1, b_state: 0, r_in: 1, b_in: 0, r_out: 1, b_out: 0 }
}

/// Builds a thermal mass on the next free cells, seeding its parameters and
/// its initial temperature `t0`.
pub fn new<R: Copy>(
    storage: &mut SystemStorage<R>,
    counters: &mut SystemCounters,
    cp: R,
    h: R,
    area: R,
    t_amb: R,
    t0: R,
) -> (r: Block)
    requires
        room_for(*old(counters), old(storage)@, size()),
    ensures
        advanced_by(*old(counters), *final(counters), size()),
        r.cp.cell() == old(counters).cursor(Pool::RealParameter),
        r.h.cell() == old(counters).cursor(Pool::RealParameter) + 1,
        r.area.cell() == old(counters).cursor(Pool::RealParameter) + 2,
        r.t_amb.cell() == old(counters).cursor(Pool::RealParameter) + 3,
        r.t.cell() == old(counters).cursor(Pool::RealState),
        r.t_out.cell() == old(counters).cursor(Pool::RealOutput),
        r.qdot.source() is None,
        final(storage)@ == (StorageView {
            r_param: old(storage)@.r_param.update(r.cp.cell() as int, cp).update(r.h.cell() as int, h).update(
                r.area.cell() as int,
                area,
            ).update(r.t_amb.cell() as int, t_amb),
            r_state: old(storage)@.r_state.update(r.t.cell() as int, t0),
            ..old(storage)@
        }),
{
    proof {
        storage.lemma_pool_lengths();
        let need = size();
        assert(counters.cursor(Pool::RealParameter) + need.cells(Pool::RealParameter) <= storage@.len(Pool::RealParameter));
        assert(counters.cursor(Pool::RealState) + need.cells(Pool::RealState) <= storage@.len(Pool::RealState));
        assert(counters.cursor(Pool::RealOutput) + need.cells(Pool::RealOutput) <= storage@.len(Pool::RealOutput));
    }
    let cp = Parameter::<Real>::new(counters.next_r_param()).init(storage, cp);
    let h = Parameter::<Real>::new(counters.next_r_param()).init(storage, h);
    let area = Parameter::<Real>::new(counters.next_r_param()).init(storage, area);
    let t_amb = Parameter::<Real>::new(counters.next_r_param()).init(storage, t_amb);
    let t = ContinuousState::<Real>::new(counters.next_r_state()).init(storage, t0);
    let t_out = Output::<Real>::new(counters.next_r_out());
    Block { cp, h, area, t_amb, qdot: Input::new(), t, t_out }
}

impl Block {
    /// Whether every handle of the block addresses a cell of `s`.
    pub open spec fn placed_in<R>(&self, s: StorageView<R>) -> bool {
        &&& self.cp.cell() < s.r_param.len()
        &&& self.h.cell() < s.r_param.len()
        &&& self.area.cell() < s.r_param.len()
        &&& self.t_amb.cell() < s.r_param.len()
        &&& self.t.cell() < s.r_state.len()
        &&& self.t.cell() < s.r_state_der.len()
        &&& self.t_out.cell() < s.r_out.len()
        &&& self.qdot.source() matches Some(i) ==> i < s.r_out.len()
    }

    /// The values the derivative is computed from, with the heat input read
    /// from output cell `i`.
    pub open spec fn spec_inputs<R>(&self, s: StorageView<R>, i: nat) -> ThermalInputs<R> {
        ThermalInputs {
            qdot: s.r_out[i as int],
            h: s.r_param[self.h.cell() as int],
            area: s.r_param[self.area.cell() as int],
            t_amb: s.r_param[self.t_amb.cell() as int],
            t: s.r_state[self.t.cell() as int],
            cp: s.r_param[self.cp.cell() as int],
        }
    }

    /// The output is the current temperature, before this step's integration.
    pub fn outputs<R: Copy>(&self, s: &SystemStorage<R>) -> (r: OutputUpdate<R>)
        requires
            self.placed_in(s@),
        ensures
            r.t_out == s@.r_state[self.t.cell() as int],
    {
        OutputUpdate { t_out: self.t.get(s) }
    }

    /// Runs the output update: writes the temperature to the output cell.
    pub fn update_output<R: Copy>(&self, s: &mut SystemStorage<R>)
        requires
            self.placed_in(old(s)@),
        ensures
            final(s)@ == (StorageView {
                r_out: old(s)@.r_out.update(self.t_out.cell() as int, old(s)@.r_state[self.t.cell() as int]),
                ..old(s)@
            }),
    {
        let u = self.outputs(s);
        self.t_out.set(s, u.t_out);
    }

    /// Computes the temperature derivative with `rate`; for the heat balance
    /// `rate` is `(qdot + h * area * (t_amb - t)) / cp`.
    pub fn state_update<R: Copy, F: Fn(ThermalInputs<R>) -> R>(&self, s: &SystemStorage<R>, rate: &F) -> (r: Result<
        StateUpdate<R>,
        PortError,
    >)
        requires
            self.placed_in(s@),
            forall|x: ThermalInputs<R>| #[trigger] rate.requires((x,)),
        ensures
            self.qdot.source() is None ==> (r matches Err(e) && e == PortError::Unbound),
            self.qdot.source() matches Some(i) ==> (r matches Ok(u) && rate.ensures((self.spec_inputs(s@, i),), u.t_dot)),
    {
        let qdot = self.qdot.get(s)?;
        let x = ThermalInputs {
            qdot,
            h: self.h.get(s),
            area: self.area.get(s),
            t_amb: self.t_amb.get(s),
            t: self.t.get(s),
            cp: self.cp.get(s),
        };
        let t_dot = rate(x);
        Ok(StateUpdate { t_dot })
    }

    /// Runs the state update: writes the derivative only; the temperature
    /// itself changes when the integrator runs.
    pub fn update_state<R: Copy, F: Fn(ThermalInputs<R>) -> R>(&self, s: &mut SystemStorage<R>, rate: &F) -> (r: Result<
        (),
        PortError,
    >)
        requires
            self.placed_in(old(s)@),
            forall|x: ThermalInputs<R>| #[trigger] rate.requires((x,)),
        ensures
            self.qdot.source() is None ==> r == Err::<(), PortError>(PortError::Unbound) && final(s)@ == old(s)@,
            self.qdot.source() matches Some(i) ==> (r is Ok && exists|d: R|
                rate.ensures((self.spec_inputs(old(s)@, i),), d) && final(s)@ == (StorageView {
                    r_state_der: old(s)@.r_state_der.update(self.t.cell() as int, d),
                    ..old(s)@
                })),
    {
        let u = self.state_update(s, rate)?;
        self.t.der_set(s, u.t_dot);
        Ok(())
    }
}

} // verus!
