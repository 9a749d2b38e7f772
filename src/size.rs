//! Size signatures of blocks and the summed capacity of a system.

use vstd::prelude::*;

verus! {

/// The pools of the storage arena, one per kind of value and data type.
/// (Continuous-state derivatives live beside the real state values and share
/// their indices.)
#[derive(Clone, Copy, Debug, PartialEq, Eq, Structural)]
pub enum Pool {
    RealParameter,
    BoolParameter,
    RealState,
    BoolState,
    RealOutput,
    BoolOutput,
}

/// The data type of a block field.
#[derive(Clone, Copy, Debug, PartialEq, Eq, Structural)]
pub enum DType {
    Real,
    Bool,
}

/// The role a field plays in a block.
#[derive(Clone, Copy, Debug, PartialEq, Eq, Structural)]
pub enum BlockFieldType {
    Parameter,
    Input,
    Output,
    ContinuousState,
    DiscreteState,
}

/// The number of cells of each kind that one block type declares.
#[derive(Clone, Copy, Debug, PartialEq, Eq, Structural)]
pub struct BlockSize {
    pub r_param: usize,
    pub b_param: usize,
    pub r_state: usize,
    pub b_state: usize,
    pub r_in: usize,
    pub b_in: usize,
    pub r_out: usize,
    pub b_out: usize,
}

impl BlockSize {
    /// The signature of a block with no fields at all.
    pub fn new() -> (r: BlockSize)
        ensures
            r == BlockSize::zero(),
    {
        BlockSize { r_param: 0, b_param: 0, r_state: 0, b_state: 0, r_in: 0, b_in: 0, r_out: 0, b_out: 0 }
    }

    pub open spec fn zero() -> BlockSize {
        BlockSize { r_param: 0, b_param: 0, r_state: 0, b_state: 0, r_in: 0, b_in: 0, r_out: 0, b_out: 0 }
    }

    /// How many cells of `pool` the block takes from the arena (inputs take
    /// none: they read the cell of the output they are wired to).
    pub open spec fn cells(self, pool: Pool) -> nat {
        match pool {
            Pool::RealParameter => self.r_param as nat,
            Pool::BoolParameter => self.b_param as nat,
            Pool::RealState => self.r_state as nat,
            Pool::BoolState => self.b_state as nat,
            Pool::RealOutput => self.r_out as nat,
            Pool::BoolOutput => self.b_out as nat,
        }
    }
}

/// How many of `fields` have one of the roles `kinds` and the data type `dtype`.
pub open spec fn count_fields(fields: Seq<(BlockFieldType, DType)>, kinds: Set<BlockFieldType>, dtype: DType) -> nat
    decreases fields.len(),
{
    if fields.len() == 0 {
        0
    } else {
        count_fields(fields.drop_last(), kinds, dtype) + if kinds.contains(fields.last().0) && fields.last().1
            == dtype {
            1nat
        } else {
            0nat
        }
    }
}

/// The roles whose cells live in the state pools.
pub open spec fn state_kinds() -> Set<BlockFieldType> {
    set![BlockFieldType::ContinuousState, BlockFieldType::DiscreteState]
}

impl BlockSize {
    /// The signature of a block described by the role and data type of each
    /// of its fields.
    pub fn of_fields(fields: &Vec<(BlockFieldType, DType)>) -> (r: BlockSize)
        ensures
            r.r_param == count_fields(fields@, set![BlockFieldType::Parameter], DType::Real),
            r.b_param == count_fields(fields@, set![BlockFieldType::Parameter], DType::Bool),
            r.r_state == count_fields(fields@, state_kinds(), DType::Real),
            r.b_state == count_fields(fields@, state_kinds(), DType::Bool),
            r.r_in == count_fields(fields@, set![BlockFieldType::Input], DType::Real),
            r.b_in == count_fields(fields@, set![BlockFieldType::Input], DType::Bool),
            r.r_out == count_fields(fields@, set![BlockFieldType::Output], DType::Real),
            r.b_out == count_fields(fields@, set![BlockFieldType::Output], DType::Bool),
    {
        let mut r = BlockSize::new();
        let mut i: usize = 0;
        while i < fields.len()
            invariant
                i <= fields.len(),
                r.r_param == count_fields(fields@.take(i as int), set![BlockFieldType::Parameter], DType::Real),
                r.b_param == count_fields(fields@.take(i as int), set![BlockFieldType::Parameter], DType::Bool),
                r.r_state == count_fields(fields@.take(i as int), state_kinds(), DType::Real),
                r.b_state == count_fields(fields@.take(i as int), state_kinds(), DType::Bool),
                r.r_in == count_fields(fields@.take(i as int), set![BlockFieldType::Input], DType::Real),
                r.b_in == count_fields(fields@.take(i as int), set![BlockFieldType::Input], DType::Bool),
                r.r_out == count_fields(fields@.take(i as int), set![BlockFieldType::Output], DType::Real),
                r.b_out == count_fields(fields@.take(i as int), set![BlockFieldType::Output], DType::Bool),
                r.r_param <= i && r.b_param <= i && r.r_state <= i && r.b_state <= i,
                r.r_in <= i && r.b_in <= i && r.r_out <= i && r.b_out <= i,
            decreases fields.len() - i,
        {
            let (kind, dtype) = fields[i];
            proof {
                assert(fields@.take(i as int + 1).drop_last() == fields@.take(i as int));
                assert(fields@.take(i as int + 1).last() == (kind, dtype));
            }
            match (kind, dtype) {
                (BlockFieldType::Parameter, DType::Real) => r.r_param = r.r_param + 1,
                (BlockFieldType::Parameter, DType::Bool) => r.b_param = r.b_param + 1,
                (BlockFieldType::Input, DType::Real) => r.r_in = r.r_in + 1,
                (BlockFieldType::Input, DType::Bool) => r.b_in = r.b_in + 1,
                (BlockFieldType::Output, DType::Real) => r.r_out = r.r_out + 1,
                (BlockFieldType::Output, DType::Bool) => r.b_out = r.b_out + 1,
                (_, DType::Real) => r.r_state = r.r_state + 1,
                (_, DType::Bool) => r.b_state = r.b_state + 1,
            }
            i = i + 1;
        }
        assert(fields@.take(fields.len() as int) == fields@);
        r
    }
}

/// The capacity of each pool of a storage arena.
#[derive(Clone, Copy, Debug, PartialEq, Eq, Structural)]
pub struct SystemSize {
    pub r_param: usize,
    pub b_param: usize,
    pub r_state: usize,
    pub b_state: usize,
    pub r_out: usize,
    pub b_out: usize,
}

/// The total number of cells of `pool` that the blocks of `blocks` declare.
pub open spec fn total_cells(blocks: Seq<BlockSize>, pool: Pool) -> nat
    decreases blocks.len(),
{
    if blocks.len() == 0 {
        0
    } else {
        total_cells(blocks.drop_last(), pool) + blocks.last().cells(pool)
    }
}

impl SystemSize {
    /// The empty capacity, identity of `add`.
    pub fn new() -> (r: SystemSize)
        ensures
            forall|p: Pool| #[trigger] r.cells(p) == 0,
    {
        SystemSize { r_param: 0, b_param: 0, r_state: 0, b_state: 0, r_out: 0, b_out: 0 }
    }

    pub open spec fn cells(self, pool: Pool) -> nat {
        match pool {
            Pool::RealParameter => self.r_param as nat,
            Pool::BoolParameter => self.b_param as nat,
            Pool::RealState => self.r_state as nat,
            Pool::BoolState => self.b_state as nat,
            Pool::RealOutput => self.r_out as nat,
            Pool::BoolOutput => self.b_out as nat,
        }
    }

    /// Whether adding `bs` keeps every count within `usize`.
    pub open spec fn can_add(self, bs: BlockSize) -> bool {
        forall|p: Pool| #[trigger] self.cells(p) + bs.cells(p) <= usize::MAX
    }

    /// Pointwise sum of this capacity and a block's signature.
    pub fn add(&self, bs: BlockSize) -> (r: SystemSize)
        requires
            self.can_add(bs),
        ensures
            forall|p: Pool| #[trigger] r.cells(p) == self.cells(p) + bs.cells(p),
    {
        assert(self.cells(Pool::RealParameter) + bs.cells(Pool::RealParameter) <= usize::MAX);
        assert(self.cells(Pool::BoolParameter) + bs.cells(Pool::BoolParameter) <= usize::MAX);
        assert(self.cells(Pool::RealState) + bs.cells(Pool::RealState) <= usize::MAX);
        assert(self.cells(Pool::BoolState) + bs.cells(Pool::BoolState) <= usize::MAX);
        assert(self.cells(Pool::RealOutput) + bs.cells(Pool::RealOutput) <= usize::MAX);
        assert(self.cells(Pool::BoolOutput) + bs.cells(Pool::BoolOutput) <= usize::MAX);
        SystemSize {
            r_param: self.r_param + bs.r_param,
            b_param: self.b_param + bs.b_param,
            r_state: self.r_state + bs.r_state,
            b_state: self.b_state + bs.b_state,
            r_out: self.r_out + bs.r_out,
            b_out: self.b_out + bs.b_out,
        }
    }

    /// Folds the signatures of all blocks of a system into one capacity;
    /// `None` when some pool's total does not fit in `usize`.
    pub fn of_blocks(blocks: &Vec<BlockSize>) -> (r: Option<SystemSize>)
        ensures
            r matches Some(s) ==> forall|p: Pool| #[trigger] s.cells(p) == total_cells(blocks@, p),
            r is None <==> exists|p: Pool| #[trigger] total_cells(blocks@, p) > usize::MAX,
    {
        let mut acc = SystemSize::new();
        let mut i: usize = 0;
        while i < blocks.len()
            invariant
                i <= blocks.len(),
                forall|p: Pool| #[trigger] acc.cells(p) == total_cells(blocks@.take(i as int), p),
            decreases blocks.len() - i,
        {
            let bs = blocks[i];
            proof {
                assert(blocks@.take(i as int + 1).drop_last() == blocks@.take(i as int));
            }
            if !acc.can_add_exec(bs) {
                proof {
                    let p = choose|p: Pool| #[trigger] acc.cells(p) + bs.cells(p) > usize::MAX;
                    assert(total_cells(blocks@.take(i as int + 1), p) > usize::MAX);
                    lemma_total_cells_monotone(blocks@, i as int + 1, blocks.len() as int, p);
                    assert(blocks@.take(blocks.len() as int) == blocks@);
                }
                return None;
            }
            acc = acc.add(bs);
            i = i + 1;
        }
        assert(blocks@.take(blocks.len() as int) == blocks@);
        assert forall|p: Pool| !(#[trigger] total_cells(blocks@, p) > usize::MAX) by {
            assert(acc.cells(p) == total_cells(blocks@, p));
        }
        Some(acc)
    }

    fn can_add_exec(&self, bs: BlockSize) -> (r: bool)
        ensures
            r == self.can_add(bs),
    {
        let ok = self.r_param <= usize::MAX - bs.r_param && self.b_param <= usize::MAX - bs.b_param
            && self.r_state <= usize::MAX - bs.r_state && self.b_state <= usize::MAX - bs.b_state
            && self.r_out <= usize::MAX - bs.r_out && self.b_out <= usize::MAX - bs.b_out;
        proof {
            if !ok {
                if self.r_param > usize::MAX - bs.r_param {
                    assert(self.cells(Pool::RealParameter) + bs.cells(Pool::RealParameter) > usize::MAX);
                } else if self.b_param > usize::MAX - bs.b_param {
                    assert(self.cells(Pool::BoolParameter) + bs.cells(Pool::BoolParameter) > usize::MAX);
                } else if self.r_state > usize::MAX - bs.r_state {
                    assert(self.cells(Pool::RealState) + bs.cells(Pool::RealState) > usize::MAX);
                } else if self.b_state > usize::MAX - bs.b_state {
                    assert(self.cells(Pool::BoolState) + bs.cells(Pool::BoolState) > usize::MAX);
                } else if self.r_out > usize::MAX - bs.r_out {
                    assert(self.cells(Pool::RealOutput) + bs.cells(Pool::RealOutput) > usize::MAX);
                } else {
                    assert(self.cells(Pool::BoolOutput) + bs.cells(Pool::BoolOutput) > usize::MAX);
                }
            }
        }
        ok
    }
}

proof fn lemma_total_cells_monotone(blocks: Seq<BlockSize>, i: int, j: int, p: Pool)
    requires
        0 <= i <= j <= blocks.len(),
    ensures
        total_cells(blocks.take(i), p) <= total_cells(blocks.take(j), p),
    decreases j - i,
{
    if i < j {
        lemma_total_cells_monotone(blocks, i, j - 1, p);
        assert(blocks.take(j).drop_last() == blocks.take(j - 1));
    }
}

} // verus!
