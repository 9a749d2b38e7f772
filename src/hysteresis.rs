//! A comparator with hysteresis: a boolean state that switches on above the
//! high threshold and off below the low one.

use crate::block::{advanced_by, room_for, Bool, DiscreteState, Input, Output, Parameter, PortError, Real};
use crate::counters::SystemCounters;
use crate::size::{BlockSize, Pool};
use crate::storage::{StorageView, SystemStorage};
use vstd::prelude::*;

verus! {

pub struct Block {
    pub low_threshold: Parameter<Real>,
    pub high_threshold: Parameter<Real>,
    pub out_inverted: Parameter<Bool>,
    pub in1: Input<Real>,
    pub out1: Output<Bool>,
    pub state_high: DiscreteState<Bool>,
}

pub struct OutputUpdate {
    pub out1: bool,
}

/// The new discrete state, if it changes this step.
pub struct StateUpdate {
    pub state1: Option<bool>,
}

/// The cells a comparator takes.
pub open spec fn spec_size() -> BlockSize {
    BlockSize { r_param: 2, b_param: 1, r_in: 1, b_out: 1, b_state: 1, ..BlockSize::zero() }
}

#[verifier::when_used_as_spec(spec_size)]
pub fn size() -> (r: BlockSize)
    ensures
        r == spec_size(),
{
    BlockSize { r_param: 2, b_param: 1, r_state: 0, b_state: 1, r_in: 1, b_in: 0, r_out: 0, b_out: 1 }
}

/// The transition rule: a high state falls when the input is below the low
/// threshold, a low state rises when it is above the high threshold, and
/// otherwise the state stays.
pub open spec fn transition(state_high: bool, below_low: bool, above_high: bool) -> Option<bool> {
    if below_low && state_high {
        Some(false)
    } else if above_high && !state_high {
        Some(true)
    } else {
        None
    }
}

/// The state after applying an update.
pub open spec fn next_state(state_high: bool, update: Option<bool>) -> bool {
    match update {
        Some(x) => x,
        None => state_high,
    }
}

/// Builds a comparator on the next free cells: thresholds as given, output
/// not inverted, state low.
pub fn new<R: Copy>(storage: &mut SystemStorage<R>, counters: &mut SystemCounters, low: R, high: R) -> (r: Block)
    requires
        room_for(*old(counters), old(storage)@, size()),
    ensures
        advanced_by(*old(counters), *final(counters), size()),
        r.low_threshold.cell() == old(counters).cursor(Pool::RealParameter),
        r.high_threshold.cell() == old(counters).cursor(Pool::RealParameter) + 1,
        r.out_inverted.cell() == old(counters).cursor(Pool::BoolParameter),
        r.out1.cell() == old(counters).cursor(Pool::BoolOutput),
        r.state_high.cell() == old(counters).cursor(Pool::BoolState),
        r.in1.source() is None,
        final(storage)@ == (StorageView {
            r_param: old(storage)@.r_param.update(r.low_threshold.cell() as int, low).update(
                r.high_threshold.cell() as int,
                high,
            ),
            b_param: old(storage)@.b_param.update(r.out_inverted.cell() as int, false),
            b_state: old(storage)@.b_state.update(r.state_high.cell() as int, false),
            ..old(storage)@
        }),
{
    proof {
        storage.lemma_pool_lengths();
        let need = size();
        assert(counters.cursor(Pool::RealParameter) + need.cells(Pool::RealParameter) <= storage@.len(Pool::RealParameter));
        assert(counters.cursor(Pool::BoolParameter) + need.cells(Pool::BoolParameter) <= storage@.len(Pool::BoolParameter));
        assert(counters.cursor(Pool::BoolOutput) + need.cells(Pool::BoolOutput) <= storage@.len(Pool::BoolOutput));
        assert(counters.cursor(Pool::BoolState) + need.cells(Pool::BoolState) <= storage@.len(Pool::BoolState));
    }
    let low_threshold = Parameter::<Real>::new(counters.next_r_param()).init(storage, low);
    let high_threshold = Parameter::<Real>::new(counters.next_r_param()).init(storage, high);
    let out_inverted = Parameter::<Bool>::new(counters.next_b_param()).init(storage, false);
    let out1 = Output::<Bool>::new(counters.next_b_out());
    let state_high = DiscreteState::<Bool>::new(counters.next_b_state()).init(storage, false);
    Block { low_threshold, high_threshold, out_inverted, in1: Input::new(), out1, state_high }
}

impl Block {
    /// Whether every handle of the block addresses a cell of `s`.
    pub open spec fn placed_in<R>(&self, s: StorageView<R>) -> bool {
        &&& self.low_threshold.cell() < s.r_param.len()
        &&& self.high_threshold.cell() < s.r_param.len()
        &&& self.out_inverted.cell() < s.b_param.len()
        &&& self.out1.cell() < s.b_out.len()
        &&& self.state_high.cell() < s.b_state.len()
        &&& self.in1.source() matches Some(i) ==> i < s.r_out.len()
    }

    /// The output: the state, negated when `out_inverted` is set.
    pub open spec fn spec_output<R>(&self, s: StorageView<R>) -> bool {
        s.b_state[self.state_high.cell() as int] != s.b_param[self.out_inverted.cell() as int]
    }

    pub fn outputs<R: Copy>(&self, s: &SystemStorage<R>) -> (r: OutputUpdate)
        requires
            self.placed_in(s@),
        ensures
            r.out1 == self.spec_output(s@),
    {
        let state = self.state_high.get(s);
        let out1 = if self.out_inverted.get(s) {
            !state
        } else {
            state
        };
        OutputUpdate { out1 }
    }

    /// Runs the output update: writes the output to its cell.
    pub fn update_output<R: Copy>(&self, s: &mut SystemStorage<R>)
        requires
            self.placed_in(old(s)@),
        ensures
            final(s)@ == (StorageView {
                b_out: old(s)@.b_out.update(self.out1.cell() as int, self.spec_output(old(s)@)),
                ..old(s)@
            }),
    {
        let u = self.outputs(s);
        self.out1.set(s, u.out1);
    }

    /// Decides the state update from the current input. `less(a, b)` is the
    /// order of the real values: "below low" is `less(input, low)` and
    /// "above high" is `less(high, input)`.
    pub fn state_update<R: Copy, F: Fn(R, R) -> bool>(&self, s: &SystemStorage<R>, less: &F) -> (r: Result<
        StateUpdate,
        PortError,
    >)
        requires
            self.placed_in(s@),
            forall|a: R, b: R| #[trigger] less.requires((a, b)),
        ensures
            self.in1.source() is None ==> (r matches Err(e) && e == PortError::Unbound),
            self.in1.source() matches Some(i) ==> (r matches Ok(u) && exists|below: bool, above: bool|
                less.ensures((s@.r_out[i as int], s@.r_param[self.low_threshold.cell() as int]), below)
                    && less.ensures((s@.r_param[self.high_threshold.cell() as int], s@.r_out[i as int]), above)
                    && u.state1 == transition(s@.b_state[self.state_high.cell() as int], below, above)),
    {
        let x = self.in1.get(s)?;
        let low = self.low_threshold.get(s);
        let high = self.high_threshold.get(s);
        let state = self.state_high.get(s);
        let below = less(x, low);
        let above = less(high, x);
        let state1 = if below && state {
            Some(false)
        } else if above && !state {
            Some(true)
        } else {
            None
        };
        assert(less.ensures((x, low), below) && less.ensures((high, x), above) && state1 == transition(
            state,
            below,
            above,
        ));
        Ok(StateUpdate { state1 })
    }

    /// Runs the state update: decides it and writes the new state in place,
    /// where the block's own output update will see it.
    pub fn update_state<R: Copy, F: Fn(R, R) -> bool>(&self, s: &mut SystemStorage<R>, less: &F) -> (r: Result<
        (),
        PortError,
    >)
        requires
            self.placed_in(old(s)@),
            forall|a: R, b: R| #[trigger] less.requires((a, b)),
        ensures
            self.in1.source() is None ==> r == Err::<(), PortError>(PortError::Unbound) && final(s)@ == old(s)@,
            self.in1.source() matches Some(i) ==> (r is Ok && exists|below: bool, above: bool|
                less.ensures((old(s)@.r_out[i as int], old(s)@.r_param[self.low_threshold.cell() as int]), below)
                    && less.ensures((old(s)@.r_param[self.high_threshold.cell() as int], old(s)@.r_out[i as int]), above)
                    && final(s)@ == (StorageView {
                    b_state: old(s)@.b_state.update(
                        self.state_high.cell() as int,
                        next_state(
                            old(s)@.b_state[self.state_high.cell() as int],
                            transition(old(s)@.b_state[self.state_high.cell() as int], below, above),
                        ),
                    ),
                    ..old(s)@
                })),
    {
        let u = self.state_update(s, less)?;
        match u.state1 {
            Some(x) => {
                self.state_high.set(s, x);
                assert(s@.b_state =~= old(s)@.b_state.update(self.state_high.cell() as int, x));
            },
            None => {
                assert(old(s)@.b_state =~= old(s)@.b_state.update(
                    self.state_high.cell() as int,
                    old(s)@.b_state[self.state_high.cell() as int],
                ));
            },
        }
        Ok(())
    }
}

} // verus!
