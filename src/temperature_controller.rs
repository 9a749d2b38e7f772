//! A temperature controller: a thermal mass whose temperature feeds a
//! hysteresis comparator, whose output switches a heater (a boolean-to-real
//! converter) that heats the mass. The loop closes through the continuous
//! temperature state.

use crate::block::{room_for, PortError};
use crate::converter_b2f;
use crate::counters::SystemCounters;
use crate::hysteresis;
use crate::schedule::{
    is_active, is_dependency, is_valid_schedule, runs_before, schedule, without_noops, Connection, Operation, ScheduleError, StateKind,
    UpdateKind,
};
use crate::size::{Pool, SystemSize};
use crate::storage::{StorageView, SystemStorage};
use crate::thermal_mass;
use crate::thermal_mass::ThermalInputs;
use vstd::prelude::*;

verus! {

/// The values a controller is assembled with.
pub struct ControllerParams<R> {
    pub cp: R,
    pub h: R,
    pub area: R,
    pub t_amb: R,
    pub t0: R,
    pub low_threshold: R,
    pub high_threshold: R,
    pub out_inverted: bool,
    pub heater_on: R,
    pub heater_off: R,
}

pub struct Blocks {
    pub thermal_mass: thermal_mass::Block,
    pub hyst_component: hysteresis::Block,
    pub b2f: converter_b2f::Block,
}

/// Block numbers in the schedule.
pub const THERMAL: usize = 0;
pub const HYSTERESIS: usize = 1;
pub const HEATER: usize = 2;

pub struct SystemImpl<R> {
    pub storage: SystemStorage<R>,
    pub components: Blocks,
    pub computations: Vec<Operation>,
}

/// The state kinds of the blocks, by block number.
pub open spec fn causality() -> Seq<StateKind> {
    seq![StateKind::Continuous, StateKind::Discrete, StateKind::Stateless]
}

/// The wiring: temperature to comparator (read by its state update),
/// comparator to heater (read by its output update), heater to thermal mass
/// (read by its state update).
pub open spec fn wiring() -> Seq<Connection> {
    seq![
        Connection { producer: 0, consumer: 1, to_state: true, to_output: false },
        Connection { producer: 1, consumer: 2, to_state: false, to_output: true },
        Connection { producer: 2, consumer: 0, to_state: true, to_output: false },
    ]
}

/// The loop can be scheduled: thermal output, comparator state, comparator
/// output, (heater's no-op state,) heater output, thermal state.
pub proof fn lemma_reference_schedulable()
    ensures
        exists|ops: Seq<Operation>| is_valid_schedule(causality(), wiring(), ops),
{
    let t_out = Operation { block: 0, kind: UpdateKind::Output };
    let t_st = Operation { block: 0, kind: UpdateKind::State };
    let h_st = Operation { block: 1, kind: UpdateKind::State };
    let h_out = Operation { block: 1, kind: UpdateKind::Output };
    let c_st = Operation { block: 2, kind: UpdateKind::State };
    let c_out = Operation { block: 2, kind: UpdateKind::Output };
    let ops = seq![t_out, h_st, h_out, c_st, c_out, t_st];
    let w = wiring();
    assert forall|a: Operation, b: Operation| #[trigger] is_dependency(causality(), w, a, b) implies runs_before(
        ops,
        a,
        b,
    ) by {
        if a.block == b.block && a.block < 3 && a.kind == UpdateKind::State && b.kind == UpdateKind::Output
            && causality()[a.block as int] == StateKind::Discrete {
            assert(ops[1] == a && ops[2] == b);
        } else {
            let k = choose|k: int|
                0 <= k < w.len() && a.kind == UpdateKind::Output && (#[trigger] w[k]).producer == a.block
                    && w[k].consumer == b.block && (if b.kind == UpdateKind::State {
                    w[k].to_state
                } else {
                    w[k].to_output
                });
            if k == 0 {
                assert(ops[0] == a && ops[1] == b);
            } else if k == 1 {
                assert(ops[2] == a && ops[4] == b);
            } else {
                assert(ops[4] == a && ops[5] == b);
            }
        }
    }
    assert(is_valid_schedule(causality(), w, ops));
}

impl<R: Copy> SystemImpl<R> {
    /// The blocks address cells of the arena and are wired as the loop says.
    pub open spec fn wf(&self) -> bool {
        let c = self.components;
        &&& self.storage.wf()
        &&& c.thermal_mass.placed_in(self.storage@)
        &&& c.hyst_component.placed_in(self.storage@)
        &&& c.b2f.placed_in(self.storage@)
        &&& c.hyst_component.in1.source() == Some(c.thermal_mass.t_out.cell())
        &&& c.b2f.in1.source() == Some(c.hyst_component.out1.cell())
        &&& c.thermal_mass.qdot.source() == Some(c.b2f.out1.cell())
        &&& forall|i: int| 0 <= i < self.computations@.len() ==> (#[trigger] self.computations@[i]).block < 3
    }

    /// What operation `op` does to the arena, taking it from `s` to `s2`.
    pub open spec fn op_effect<F: Fn(R, R) -> bool, G: Fn(ThermalInputs<R>) -> R>(
        &self,
        op: Operation,
        s: StorageView<R>,
        s2: StorageView<R>,
        less: F,
        rate: G,
    ) -> bool {
        let c = self.components;
        if op.block == THERMAL && op.kind == UpdateKind::Output {
            s2 == (StorageView {
                r_out: s.r_out.update(c.thermal_mass.t_out.cell() as int, s.r_state[c.thermal_mass.t.cell() as int]),
                ..s
            })
        } else if op.block == THERMAL {
            exists|d: R|
                rate.ensures((c.thermal_mass.spec_inputs(s, c.b2f.out1.cell()),), d) && s2 == (StorageView {
                    r_state_der: s.r_state_der.update(c.thermal_mass.t.cell() as int, d),
                    ..s
                })
        } else if op.block == HYSTERESIS && op.kind == UpdateKind::State {
            let h = c.hyst_component;
            let x = s.r_out[c.thermal_mass.t_out.cell() as int];
            let state = s.b_state[h.state_high.cell() as int];
            exists|below: bool, above: bool|
                less.ensures((x, s.r_param[h.low_threshold.cell() as int]), below) && less.ensures(
                    (s.r_param[h.high_threshold.cell() as int], x),
                    above,
                ) && s2 == (StorageView {
                    b_state: s.b_state.update(
                        h.state_high.cell() as int,
                        hysteresis::next_state(state, hysteresis::transition(state, below, above)),
                    ),
                    ..s
                })
        } else if op.block == HYSTERESIS {
            s2 == (StorageView {
                b_out: s.b_out.update(c.hyst_component.out1.cell() as int, c.hyst_component.spec_output(s)),
                ..s
            })
        } else if op.block == HEATER && op.kind == UpdateKind::Output {
            s2 == (StorageView {
                r_out: s.r_out.update(
                    c.b2f.out1.cell() as int,
                    if s.b_out[c.hyst_component.out1.cell() as int] {
                        s.r_param[c.b2f.true_value.cell() as int]
                    } else {
                        s.r_param[c.b2f.false_value.cell() as int]
                    },
                ),
                ..s
            })
        } else {
            s2 == s
        }
    }

    /// Whether `trace` is a run of the schedule: it starts at `trace[0]` and
    /// each operation takes one state of the trace to the next.
    pub open spec fn is_run<F: Fn(R, R) -> bool, G: Fn(ThermalInputs<R>) -> R>(
        &self,
        trace: Seq<StorageView<R>>,
        less: F,
        rate: G,
    ) -> bool {
        &&& trace.len() == self.computations@.len() + 1
        &&& forall|k: int|
            0 <= k < self.computations@.len() ==> self.op_effect(
                #[trigger] self.computations@[k],
                trace[k],
                trace[k + 1],
                less,
                rate,
            )
    }

    /// Assembles the controller: sizes the arena from the three blocks'
    /// signatures, builds the blocks on it in order, wires the loop and
    /// schedules it.
    pub fn new(zero: R, p: ControllerParams<R>) -> (r: Result<SystemImpl<R>, ScheduleError>)
        ensures
            r is Ok,
            r matches Ok(sys) ==> {
                &&& sys.wf()
                &&& exists|ops: Seq<Operation>|
                    is_valid_schedule(causality(), wiring(), ops) && sys.computations@ == ops.filter(
                        |op: Operation| is_active(causality(), op),
                    )
                &&& sys.storage@.r_param[sys.components.thermal_mass.cp.cell() as int] == p.cp
                &&& sys.storage@.r_param[sys.components.thermal_mass.h.cell() as int] == p.h
                &&& sys.storage@.r_param[sys.components.thermal_mass.area.cell() as int] == p.area
                &&& sys.storage@.r_param[sys.components.thermal_mass.t_amb.cell() as int] == p.t_amb
                &&& sys.storage@.r_state[sys.components.thermal_mass.t.cell() as int] == p.t0
                &&& sys.storage@.r_param[sys.components.hyst_component.low_threshold.cell() as int] == p.low_threshold
                &&& sys.storage@.r_param[sys.components.hyst_component.high_threshold.cell() as int] == p.high_threshold
                &&& sys.storage@.b_param[sys.components.hyst_component.out_inverted.cell() as int] == p.out_inverted
                &&& sys.storage@.b_state[sys.components.hyst_component.state_high.cell() as int] == false
                &&& sys.storage@.r_param[sys.components.b2f.true_value.cell() as int] == p.heater_on
                &&& sys.storage@.r_param[sys.components.b2f.false_value.cell() as int] == p.heater_off
            },
    {
        let ts = thermal_mass::size();
        let hs = hysteresis::size();
        let bs = converter_b2f::size();
        let s0 = SystemSize::new();
        let s1 = s0.add(ts);
        let s2 = s1.add(hs);
        let size = s2.add(bs);
        let mut storage = SystemStorage::new(&size, zero);
        let mut counters = SystemCounters::new();
        let ghost c0 = counters;
        let ghost st0 = storage@;
        let mut thermal = thermal_mass::new(&mut storage, &mut counters, p.cp, p.h, p.area, p.t_amb, p.t0);
        let ghost c1 = counters;
        let ghost st1 = storage@;
        assert forall|q: Pool| #[trigger] c1.cursor(q) + hs.cells(q) <= st1.len(q) by {
            assert(st0.len(q) == size.cells(q));
            assert(st1.len(q) == st0.len(q));
            assert(c1.cursor(q) == c0.cursor(q) + ts.cells(q));
        }
        let mut hyst = hysteresis::new(&mut storage, &mut counters, p.low_threshold, p.high_threshold);
        let ghost c2 = counters;
        let ghost st2 = storage@;
        assert forall|q: Pool| #[trigger] c2.cursor(q) + bs.cells(q) <= st2.len(q) by {
            assert(st0.len(q) == size.cells(q));
            assert(st1.len(q) == st0.len(q));
            assert(st2.len(q) == st1.len(q));
            assert(c1.cursor(q) == c0.cursor(q) + ts.cells(q));
            assert(c2.cursor(q) == c1.cursor(q) + hs.cells(q));
        }
        let mut b2f = converter_b2f::new(&mut storage, &mut counters, p.heater_on, p.heater_off);
        proof {
            // the blocks took exactly the capacity summed from their signatures
            assert forall|q: Pool| #[trigger] counters.cursor(q) == storage@.len(q) by {
                assert(st0.len(q) == size.cells(q));
                assert(st1.len(q) == st0.len(q));
                assert(st2.len(q) == st1.len(q));
                assert(storage@.len(q) == st2.len(q));
                assert(c1.cursor(q) == c0.cursor(q) + ts.cells(q));
                assert(c2.cursor(q) == c1.cursor(q) + hs.cells(q));
                assert(counters.cursor(q) == c2.cursor(q) + bs.cells(q));
            }
            assert(storage@.len(Pool::RealParameter) == counters.cursor(Pool::RealParameter));
            assert(storage@.len(Pool::BoolParameter) == counters.cursor(Pool::BoolParameter));
            assert(storage@.len(Pool::RealState) == counters.cursor(Pool::RealState));
            assert(storage@.len(Pool::BoolState) == counters.cursor(Pool::BoolState));
            assert(storage@.len(Pool::RealOutput) == counters.cursor(Pool::RealOutput));
            assert(storage@.len(Pool::BoolOutput) == counters.cursor(Pool::BoolOutput));
            assert(c1.cursor(Pool::RealParameter) == 4 && c1.cursor(Pool::RealState) == 1);
            assert(c1.cursor(Pool::RealOutput) == 1 && c1.cursor(Pool::BoolOutput) == 0);
            assert(c2.cursor(Pool::RealParameter) == 6 && c2.cursor(Pool::BoolOutput) == 1);
            assert(c2.cursor(Pool::RealOutput) == 1 && c2.cursor(Pool::BoolState) == 1);
            assert(c2.cursor(Pool::BoolParameter) == 1);
        }
        let ghost st3 = storage@;
        hyst.out_inverted.set(&mut storage, p.out_inverted);
        proof {
            let tc = thermal;
            assert(c0.cursor(Pool::RealParameter) == 0 && c0.cursor(Pool::RealState) == 0);
            assert(st0.len(Pool::RealParameter) == size.cells(Pool::RealParameter));
            assert(st0.len(Pool::RealState) == size.cells(Pool::RealState));
            assert(st0.r_param.len() == 8 && st0.r_state.len() == 1);
            assert(st1.r_param[tc.cp.cell() as int] == p.cp && st1.r_param[tc.h.cell() as int] == p.h);
            assert(st1.r_param[tc.area.cell() as int] == p.area && st1.r_param[tc.t_amb.cell() as int] == p.t_amb);
            assert(st2.r_param[tc.cp.cell() as int] == p.cp && st2.r_param[tc.h.cell() as int] == p.h);
            assert(st2.r_param[tc.area.cell() as int] == p.area && st2.r_param[tc.t_amb.cell() as int] == p.t_amb);
            assert(st3.r_param[tc.cp.cell() as int] == p.cp && st3.r_param[tc.h.cell() as int] == p.h);
            assert(st3.r_param[tc.area.cell() as int] == p.area && st3.r_param[tc.t_amb.cell() as int] == p.t_amb);
            assert(st2.r_param[hyst.low_threshold.cell() as int] == p.low_threshold);
            assert(st2.r_param[hyst.high_threshold.cell() as int] == p.high_threshold);
            assert(st3.r_param[hyst.low_threshold.cell() as int] == p.low_threshold);
            assert(st3.r_param[hyst.high_threshold.cell() as int] == p.high_threshold);
            assert(st1.r_state[tc.t.cell() as int] == p.t0);
            assert(st3.r_state[tc.t.cell() as int] == p.t0);
            assert(st3.b_state[hyst.state_high.cell() as int] == false);
        }
        let _ = hyst.in1.connect(&thermal.t_out);
        let _ = b2f.in1.connect(&hyst.out1);
        let _ = thermal.qdot.connect(&b2f.out1);
        let blocks = vec![StateKind::Continuous, StateKind::Discrete, StateKind::Stateless];
        let wires = vec![
            Connection { producer: 0, consumer: 1, to_state: true, to_output: false },
            Connection { producer: 1, consumer: 2, to_state: false, to_output: true },
            Connection { producer: 2, consumer: 0, to_state: true, to_output: false },
        ];
        assert(blocks@ == causality());
        assert(wires@ == wiring());
        proof {
            lemma_reference_schedulable();
        }
        let ops = schedule(&blocks, &wires)?;
        let computations = without_noops(&blocks, &ops);
        proof {
            assert forall|i: int| 0 <= i < computations@.len() implies (#[trigger] computations@[i]).block < 3 by {
                let x = computations@[i];
                assert(computations@.contains(x));
                ops@.lemma_filter_contains_rev(|op: Operation| is_active(blocks@, op), x);
                let j = choose|j: int| 0 <= j < ops@.len() && ops@[j] == x;
                assert(ops@[j].block < 3);
            }
        }
        Ok(SystemImpl { storage, components: Blocks { thermal_mass: thermal, hyst_component: hyst, b2f }, computations })
    }

    /// Executes the schedule once, in order. `less` orders real values for
    /// the comparator and `rate` computes the thermal derivative.
    pub fn step<F: Fn(R, R) -> bool, G: Fn(ThermalInputs<R>) -> R>(&mut self, less: &F, rate: &G)
        requires
            old(self).wf(),
            forall|a: R, b: R| #[trigger] less.requires((a, b)),
            forall|x: ThermalInputs<R>| #[trigger] rate.requires((x,)),
        ensures
            final(self).wf(),
            final(self).components == old(self).components,
            final(self).computations@ == old(self).computations@,
            exists|trace: Seq<StorageView<R>>|
                old(self).is_run(trace, *less, *rate) && trace[0] == old(self).storage@ && trace.last()
                    == final(self).storage@,
    {
        let ghost mut trace: Seq<StorageView<R>> = seq![self.storage@];
        let mut i: usize = 0;
        while i < self.computations.len()
            invariant
                self.wf(),
                self.components == old(self).components,
                self.computations@ == old(self).computations@,
                forall|a: R, b: R| #[trigger] less.requires((a, b)),
                forall|x: ThermalInputs<R>| #[trigger] rate.requires((x,)),
                i <= self.computations@.len(),
                trace.len() == i + 1,
                trace[0] == old(self).storage@,
                trace.last() == self.storage@,
                forall|k: int|
                    0 <= k < i ==> old(self).op_effect(
                        #[trigger] self.computations@[k],
                        trace[k],
                        trace[k + 1],
                        *less,
                        *rate,
                    ),
            decreases self.computations@.len() - i,
        {
            let op = self.computations[i];
            let ghost before = self.storage@;
            if op.block == THERMAL {
                match op.kind {
                    UpdateKind::Output => self.components.thermal_mass.update_output(&mut self.storage),
                    UpdateKind::State => {
                        let _ = self.components.thermal_mass.update_state(&mut self.storage, rate);
                    },
                }
            } else if op.block == HYSTERESIS {
                match op.kind {
                    UpdateKind::Output => self.components.hyst_component.update_output(&mut self.storage),
                    UpdateKind::State => {
                        let _ = self.components.hyst_component.update_state(&mut self.storage, less);
                    },
                }
            } else {
                match op.kind {
                    UpdateKind::Output => {
                        let _ = self.components.b2f.update_output(&mut self.storage);
                    },
                    UpdateKind::State => {},
                }
            }
            proof {
                trace = trace.push(self.storage@);
                assert(old(self).op_effect(op, before, self.storage@, *less, *rate));
            }
            i = i + 1;
        }
        assert(old(self).is_run(trace, *less, *rate));
    }

    /// One integration pass over every continuous state; see
    /// `SystemStorage::advance_continuous_state`.
    pub fn advance_continuous_state<F: Fn(R, R) -> R>(&mut self, euler: &F)
        requires
            old(self).wf(),
            forall|v: R, d: R| #[trigger] euler.requires((v, d)),
        ensures
            final(self).wf(),
            final(self).components == old(self).components,
            final(self).computations@ == old(self).computations@,
            forall|i: int|
                0 <= i < old(self).storage@.r_state.len() ==> euler.ensures(
                    (old(self).storage@.r_state[i], old(self).storage@.r_state_der[i]),
                    #[trigger] final(self).storage@.r_state[i],
                ),
            final(self).storage@ == (StorageView { r_state: final(self).storage@.r_state, ..old(self).storage@ }),
    {
        self.storage.advance_continuous_state(euler);
    }
}

} // verus!
