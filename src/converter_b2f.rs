//! A block that turns a boolean input into one of two real values.

use crate::block::{advanced_by, room_for, Bool, Input, Output, Parameter, PortError, Real};
use crate::counters::SystemCounters;
use crate::size::{BlockSize, Pool};
use crate::storage::{StorageView, SystemStorage};
use vstd::prelude::*;

verus! {

pub struct Block {
    pub true_value: Parameter<Real>,
    pub false_value: Parameter<Real>,
    pub in1: Input<Bool>,
    pub out1: Output<Real>,
}

pub struct OutputUpdate<R> {
    pub out1: R,
}

/// The cells a converter takes: two real parameters and one real output.
pub open spec fn spec_size() -> BlockSize {
    BlockSize { r_param: 2, b_in: 1, r_out: 1, ..BlockSize::zero() }
}

#[verifier::when_used_as_spec(spec_size)]
pub fn size() -> (r: BlockSize)
    ensures
        r == spec_size(),
{
    BlockSize { r_param: 2, b_param: 0, r_state: 0, b_state: 0, r_in: 0, b_in: 1, r_out: 1, b_out: 0 }
}

/// Builds a converter on the next free cells, seeding its parameters.
pub fn new<R: Copy>(storage: &mut SystemStorage<R>, counters: &mut SystemCounters, true_value: R, false_value: R) -> (r: Block)
    requires
        room_for(*old(counters), old(storage)@, size()),
    ensures
        advanced_by(*old(counters), *final(counters), size()),
        r.true_value.cell() == old(counters).cursor(Pool::RealParameter),
        r.false_value.cell() == old(counters).cursor(Pool::RealParameter) + 1,
        r.out1.cell() == old(counters).cursor(Pool::RealOutput),
        r.in1.source() is None,
        final(storage)@ == (StorageView {
            r_param: old(storage)@.r_param.update(r.true_value.cell() as int, true_value).update(
                r.false_value.cell() as int,
                false_value,
            ),
            ..old(storage)@
        }),
{
    proof {
        storage.lemma_pool_lengths();
        let need = size();
        assert(counters.cursor(Pool::RealParameter) + need.cells(Pool::RealParameter) <= storage@.len(Pool::RealParameter));
        assert(counters.cursor(Pool::RealOutput) + need.cells(Pool::RealOutput) <= storage@.len(Pool::RealOutput));
    }
    let tv = Parameter::<Real>::new(counters.next_r_param()).init(storage, true_value);
    let fv = Parameter::<Real>::new(counters.next_r_param()).init(storage, false_value);
    let out1 = Output::<Real>::new(counters.next_r_out());
    Block { true_value: tv, false_value: fv, in1: Input::new(), out1 }
}

impl Block {
    /// Whether every handle of the block addresses a cell of `s`.
    pub open spec fn placed_in<R>(&self, s: StorageView<R>) -> bool {
        &&& self.true_value.cell() < s.r_param.len()
        &&& self.false_value.cell() < s.r_param.len()
        &&& self.out1.cell() < s.r_out.len()
        &&& self.in1.source() matches Some(i) ==> i < s.b_out.len()
    }

    /// The output for the current input: `true_value` when it is true,
    /// `false_value` otherwise.
    pub fn outputs<R: Copy>(&self, s: &SystemStorage<R>) -> (r: Result<OutputUpdate<R>, PortError>)
        requires
            self.placed_in(s@),
        ensures
            self.in1.source() is None ==> (r matches Err(e) && e == PortError::Unbound),
            self.in1.source() matches Some(i) ==> (r matches Ok(u) && u.out1 == if s@.b_out[i as int] {
                s@.r_param[self.true_value.cell() as int]
            } else {
                s@.r_param[self.false_value.cell() as int]
            }),
    {
        let x = self.in1.get(s)?;
        let out1 = if x {
            self.true_value.get(s)
        } else {
            self.false_value.get(s)
        };
        Ok(OutputUpdate { out1 })
    }

    /// Runs the output update: computes the output and writes it to its cell.
    pub fn update_output<R: Copy>(&self, s: &mut SystemStorage<R>) -> (r: Result<(), PortError>)
        requires
            self.placed_in(old(s)@),
        ensures
            old(s)@.r_out.len() == final(s)@.r_out.len(),
            self.in1.source() is None ==> r == Err::<(), PortError>(PortError::Unbound) && final(s)@ == old(s)@,
            self.in1.source() matches Some(i) ==> r is Ok && final(s)@ == (StorageView {
                r_out: old(s)@.r_out.update(
                    self.out1.cell() as int,
                    if old(s)@.b_out[i as int] {
                        old(s)@.r_param[self.true_value.cell() as int]
                    } else {
                        old(s)@.r_param[self.false_value.cell() as int]
                    },
                ),
                ..old(s)@
            }),
    {
        let u = self.outputs(s)?;
        self.out1.set(s, u.out1);
        Ok(())
    }
}

} // verus!
