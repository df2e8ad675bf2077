//! The block-state registry: each block's contiguous range of state ids, the
//! owner of each state id, and single-field reads and updates.

use vstd::prelude::*;

use crate::error::ProtocolError;
use crate::ids::{Block, BlockWithState};
use crate::mixed_radix::{
    field_offset, in_domain, lemma_decode_encode, lemma_encode_bound, lemma_encode_decode,
    lemma_radix_product_positive, lemma_radix_product_skip, mixed_decode, mixed_encode,
    radices_valid, radix_product,
};

verus! {

/// Number of states of the blocks before block `b`, that is the first state id of `b`.
pub open spec fn state_start(s: Seq<Seq<u32>>, b: int) -> nat
    decreases b,
{
    if b <= 0 {
        0
    } else {
        state_start(s, b - 1) + radix_product(s[b - 1])
    }
}

/// Number of states of block `b`.
pub open spec fn state_count(s: Seq<Seq<u32>>, b: int) -> nat {
    radix_product(s[b])
}

/// Number of states of all blocks together.
pub open spec fn total_states(s: Seq<Seq<u32>>) -> nat {
    state_start(s, s.len() as int)
}

/// Every block's fields have at least one value each.
pub open spec fn schemas_valid(s: Seq<Seq<u32>>) -> bool {
    forall|b: int| 0 <= b < s.len() ==> radices_valid(#[trigger] s[b])
}

/// State id `id` lies in the range of block `b`.
pub open spec fn owns(s: Seq<Seq<u32>>, b: int, id: int) -> bool {
    &&& 0 <= b < s.len()
    &&& state_start(s, b) <= id < state_start(s, b) + state_count(s, b)
}

/// Some block's range holds state id `id`.
pub open spec fn has_owner(s: Seq<Seq<u32>>, id: int) -> bool {
    exists|b: int| #[trigger] owns(s, b, id)
}

/// Which field of which block a value is read from: the field's positional
/// weight and the number of values it has.
#[derive(Debug, Clone, Copy, PartialEq, Eq, Hash, Structural)]
pub struct BlockState {
    /// The block whose field this is.
    pub block: Block,
    /// Product of the numbers of values of the fields declared before this one
    /// (1 for the first field).
    pub offset: u32,
    /// Number of values of this field.
    pub num_values: u32,
}

/// Translates between blocks, packed state ids and field values.
///
/// Each block owns a contiguous range of state ids, as many as its fields'
/// value counts multiply to; the ranges follow block id order with no gap.
pub struct BlockStateRegistry {
    /// Number of values of each field of each block, in declared order.
    block_field_radices: Vec<Vec<u32>>,
    /// First state id of each block.
    block_id_to_min_state_id: Vec<u32>,
    /// Default state of each block.
    block_id_to_default_state_id: Vec<BlockWithState>,
    /// Owning block of each state id.
    block_state_id_to_block_id: Vec<Block>,
    /// Number of all states.
    total_num_states: u32,
}

pub proof fn lemma_state_start_push(s: Seq<Seq<u32>>, x: Seq<u32>, b: int)
    requires
        0 <= b <= s.len(),
    ensures
        state_start(s.push(x), b) == state_start(s, b),
    decreases b,
{
    if b > 0 {
        lemma_state_start_push(s, x, b - 1);
        assert(s.push(x)[b - 1] == s[b - 1]);
    }
}

pub proof fn lemma_state_start_monotonic(s: Seq<Seq<u32>>, a: int, b: int)
    requires
        0 <= a <= b <= s.len(),
    ensures
        state_start(s, a) <= state_start(s, b),
        a < b ==> state_start(s, a) + state_count(s, a) <= state_start(s, b),
    decreases b,
{
    if a < b {
        lemma_state_start_monotonic(s, a, b - 1);
    }
}

/// The ranges of the blocks partition `[0, total)` in block id order: the first
/// starts at 0, each starts where the one before ends and holds at least one
/// state, every id below the total lies in some block's range, and in one only.
pub proof fn lemma_ranges_partition(s: Seq<Seq<u32>>)
    requires
        schemas_valid(s),
    ensures
        state_start(s, 0) == 0,
        forall|b: int|
            0 <= b < s.len() ==> #[trigger] state_start(s, b + 1) == state_start(s, b)
                + state_count(s, b) && state_count(s, b) >= 1,
        forall|id: int| 0 <= id < total_states(s) ==> #[trigger] has_owner(s, id),
        forall|b1: int, b2: int, id: int|
            #[trigger] owns(s, b1, id) && #[trigger] owns(s, b2, id) ==> b1 == b2,
{
    assert forall|b: int| 0 <= b < s.len() implies #[trigger] state_start(s, b + 1) == state_start(
        s,
        b,
    ) + state_count(s, b) && state_count(s, b) >= 1 by {
        lemma_radix_product_positive(s[b]);
    }
    assert forall|id: int| 0 <= id < total_states(s) implies #[trigger] has_owner(s, id) by {
        lemma_owner_exists(s, s.len() as int, id);
    }
    assert forall|b1: int, b2: int, id: int|
        #[trigger] owns(s, b1, id) && #[trigger] owns(s, b2, id) implies b1 == b2 by {
        if b1 < b2 {
            lemma_state_start_monotonic(s, b1, b2);
        } else if b2 < b1 {
            lemma_state_start_monotonic(s, b2, b1);
        }
    }
}

proof fn lemma_owner_exists(s: Seq<Seq<u32>>, n: int, id: int)
    requires
        0 <= n <= s.len(),
        0 <= id < state_start(s, n),
    ensures
        exists|b: int| #[trigger] owns(s, b, id) && b < n,
    decreases n,
{
    if id >= state_start(s, n - 1) {
        assert(owns(s, n - 1, id));
    } else {
        lemma_owner_exists(s, n - 1, id);
    }
}

/// Every state id of a block decodes to an assignment inside the block's
/// schema, and encoding that assignment gives the id back.
pub proof fn lemma_state_round_trip(s: Seq<Seq<u32>>, b: int, id: int)
    requires
        schemas_valid(s),
        owns(s, b, id),
    ensures
        in_domain(s[b], mixed_decode(s[b], (id - state_start(s, b)) as nat)),
        state_start(s, b) + mixed_encode(s[b], mixed_decode(s[b], (id - state_start(s, b)) as nat))
            == id,
{
    lemma_encode_decode(s[b], (id - state_start(s, b)) as nat);
}

/// Every assignment inside a block's schema encodes to a state id of that block,
/// which decodes back to the assignment.
pub proof fn lemma_assignment_round_trip(s: Seq<Seq<u32>>, b: int, v: Seq<u32>)
    requires
        0 <= b < s.len(),
        in_domain(s[b], v),
    ensures
        owns(s, b, (state_start(s, b) + mixed_encode(s[b], v)) as int),
        mixed_decode(s[b], mixed_encode(s[b], v)) == v,
{
    lemma_encode_bound(s[b], v);
    lemma_decode_encode(s[b], v);
}

impl BlockStateRegistry {
    /// The schema of each block: the number of values of each of its fields.
    pub closed spec fn schemas(&self) -> Seq<Seq<u32>> {
        self.block_field_radices@.map_values(|v: Vec<u32>| v@)
    }

    /// The default state of each block.
    pub closed spec fn defaults(&self) -> Seq<BlockWithState> {
        self.block_id_to_default_state_id@
    }

    pub closed spec fn wf(&self) -> bool {
        let s = self.schemas();
        &&& schemas_valid(s)
        &&& self.block_id_to_min_state_id@.len() == s.len()
        &&& self.block_id_to_default_state_id@.len() == s.len()
        &&& forall|b: int|
            0 <= b < s.len() ==> #[trigger] self.block_id_to_min_state_id@[b] as nat
                == state_start(s, b)
        &&& self.total_num_states as nat == total_states(s)
        &&& self.block_state_id_to_block_id@.len() == total_states(s)
        &&& forall|i: int|
            0 <= i < total_states(s) ==> owns(
                s,
                #[trigger] self.block_state_id_to_block_id@[i].0 as int,
                i,
            )
        &&& forall|b: int|
            0 <= b < s.len() ==> owns(s, b, #[trigger] self.block_id_to_default_state_id@[b].0 as int)
    }

    /// A well-formed registry's schemas give every field a value, and all its
    /// states fit in a `u32`; so the partition and round-trip laws above hold
    /// of its schemas.
    pub proof fn lemma_wf_schemas(&self)
        requires
            self.wf(),
        ensures
            schemas_valid(self.schemas()),
            total_states(self.schemas()) <= u32::MAX,
    {
    }

    /// An empty registry.
    pub fn new() -> (r: BlockStateRegistry)
        ensures
            r.wf(),
            r.schemas() == Seq::<Seq<u32>>::empty(),
            r.defaults() == Seq::<BlockWithState>::empty(),
    {
        let r = BlockStateRegistry {
            block_field_radices: Vec::new(),
            block_id_to_min_state_id: Vec::new(),
            block_id_to_default_state_id: Vec::new(),
            block_state_id_to_block_id: Vec::new(),
            total_num_states: 0,
        };
        assert(r.schemas() =~= Seq::<Seq<u32>>::empty());
        r
    }

    /// Number of all states.
    pub fn total_states(&self) -> (r: u32)
        requires
            self.wf(),
        ensures
            r as nat == total_states(self.schemas()),
    {
        self.total_num_states
    }

    /// Adds the next block, with the number of values of each of its fields in
    /// declared order, and its default state.
    ///
    /// Blocks must come in increasing id order with no gap; every field needs
    /// at least one value; all states together must fit in a `u32`; the default
    /// state must be one of the block's own. Otherwise nothing changes.
    pub fn add(&mut self, block: Block, state_sizes: Vec<u32>, default_state: BlockWithState) -> (r:
        Result<(), ProtocolError>)
        requires
            old(self).wf(),
        ensures
            final(self).wf(),
            ({
                let s = old(self).schemas();
                let start = total_states(s);
                let count = radix_product(state_sizes@);
                if block.0 != s.len() {
                    r == Err::<(), ProtocolError>(ProtocolError::StateIdOutOfRange)
                } else if !radices_valid(state_sizes@) {
                    r == Err::<(), ProtocolError>(ProtocolError::InvalidFieldValue)
                } else if start + count > u32::MAX {
                    r == Err::<(), ProtocolError>(ProtocolError::StateIdOutOfRange)
                } else if !(start <= default_state.0 < start + count) {
                    r == Err::<(), ProtocolError>(ProtocolError::InvalidFieldValue)
                } else {
                    r == Ok::<(), ProtocolError>(())
                }
            }),
            r is Ok ==> final(self).schemas() == old(self).schemas().push(state_sizes@)
                && final(self).defaults() == old(self).defaults().push(default_state),
            r is Err ==> final(self).schemas() == old(self).schemas() && final(self).defaults()
                == old(self).defaults(),
    {
        let ghost s = self.schemas();
        let n = self.block_field_radices.len();
        if block.0 as usize != n || block.0 as u64 != n as u64 {
            return Err(ProtocolError::StateIdOutOfRange);
        }
        let start = self.total_num_states;
        let count = checked_state_count(&state_sizes, u32::MAX - start)?;
        if default_state.0 < start || default_state.0 - start >= count {
            return Err(ProtocolError::InvalidFieldValue);
        }
        let ghost old_table = self.block_state_id_to_block_id@;
        let mut m: u32 = 0;
        while m < count
            invariant
                self.block_field_radices@ == old(self).block_field_radices@,
                self.block_id_to_min_state_id@ == old(self).block_id_to_min_state_id@,
                self.block_id_to_default_state_id@ == old(self).block_id_to_default_state_id@,
                m <= count,
                self.block_state_id_to_block_id@.len() == start + m,
                forall|j: int|
                    0 <= j < start ==> self.block_state_id_to_block_id@[j] == old_table[j],
                forall|j: int|
                    start <= j < start + m ==> self.block_state_id_to_block_id@[j] == block,
                old_table.len() == start,
                self.block_field_radices@.len() == n,
                self.schemas() == s,
                self.block_id_to_min_state_id@.len() == n,
                self.block_id_to_default_state_id@.len() == n,
            decreases count - m,
        {
            self.block_state_id_to_block_id.push(block);
            m = m + 1;
        }
        self.block_field_radices.push(state_sizes);
        self.block_id_to_min_state_id.push(start);
        self.block_id_to_default_state_id.push(default_state);
        self.total_num_states = start + count;
        proof {
            let ns = self.schemas();
            let x = state_sizes@;
            assert(ns =~= s.push(x));
            assert forall|b: int| 0 <= b <= s.len() implies state_start(ns, b) == state_start(
                s,
                b,
            ) by {
                lemma_state_start_push(s, x, b);
            }
            assert(state_start(ns, n as int + 1) == state_start(s, n as int) + radix_product(x));
            assert(schemas_valid(ns)) by {
                assert forall|b: int| 0 <= b < ns.len() implies radices_valid(#[trigger] ns[b]) by {
                    if b < s.len() {
                        assert(ns[b] == s[b]);
                    }
                }
            }
            assert forall|b: int| 0 <= b < ns.len() implies #[trigger] self.block_id_to_min_state_id@[b] as nat
                == state_start(ns, b) by {
                if b < s.len() {
                    assert(self.block_id_to_min_state_id@[b] == old(self).block_id_to_min_state_id@[b]);
                }
            }
            assert forall|i: int| 0 <= i < total_states(ns) implies owns(
                ns,
                #[trigger] self.block_state_id_to_block_id@[i].0 as int,
                i,
            ) by {
                if i < start {
                    let c = old_table[i].0 as int;
                    assert(owns(s, c, i));
                    assert(ns[c] == s[c]);
                }
            }
            assert forall|b: int| 0 <= b < ns.len() implies owns(
                ns,
                b,
                #[trigger] self.block_id_to_default_state_id@[b].0 as int,
            ) by {
                if b < s.len() {
                    assert(self.block_id_to_default_state_id@[b]
                        == old(self).block_id_to_default_state_id@[b]);
                    assert(ns[b] == s[b]);
                }
            }
        }
        Ok(())
    }

    /// Whether `block` has been added.
    pub fn block_is_valid(&self, block: Block) -> (r: bool)
        requires
            self.wf(),
        ensures
            r == (block.0 < self.schemas().len()),
    {
        (block.0 as usize) < self.block_id_to_min_state_id.len() && block.0 as u64
            == block.0 as usize as u64
    }

    /// Whether `block_state` lies below the number of all states.
    pub fn block_state_is_valid(&self, block_state: BlockWithState) -> (r: bool)
        requires
            self.wf(),
        ensures
            r == (block_state.0 < total_states(self.schemas())),
    {
        block_state.0 < self.total_num_states
    }

    /// First and last state id (both included) of `block`, or `None` for a block
    /// that has not been added.
    pub fn block_to_block_states(&self, block: Block) -> (r: Option<(u32, u32)>)
        requires
            self.wf(),
        ensures
            ({
                let s = self.schemas();
                let b = block.0 as int;
                if b < s.len() {
                    r == Some(
                        (
                            state_start(s, b) as u32,
                            (state_start(s, b) + state_count(s, b) - 1) as u32,
                        ),
                    )
                } else {
                    r is None
                }
            }),
    {
        let b = block.0 as usize;
        if b >= self.block_id_to_min_state_id.len() || block.0 as u64 != b as u64 {
            return None;
        }
        let ghost s = self.schemas();
        proof {
            lemma_ranges_partition(s);
            lemma_state_start_monotonic(s, b + 1, s.len() as int);
            assert(state_start(s, b + 1) == state_start(s, b as int) + state_count(s, b as int));
        }
        let min = self.block_id_to_min_state_id[b];
        let max = if b + 1 < self.block_id_to_min_state_id.len() {
            assert(self.block_id_to_min_state_id@[b + 1] as nat == state_start(s, b + 1));
            self.block_id_to_min_state_id[b + 1] - 1
        } else {
            self.total_num_states - 1
        };
        Some((min, max))
    }

    /// The block that owns `block_state`, or `None` for an id beyond all states.
    pub fn block_state_to_block(&self, block_state: BlockWithState) -> (r: Option<Block>)
        requires
            self.wf(),
        ensures
            block_state.0 < total_states(self.schemas()) <==> r is Some,
            r matches Some(b) ==> owns(self.schemas(), b.0 as int, block_state.0 as int),
    {
        if block_state.0 < self.total_num_states {
            Some(self.block_state_id_to_block_id[block_state.0 as usize])
        } else {
            None
        }
    }

    /// The default state of `block`, or `None` for a block that has not been added.
    pub fn default_state(&self, block: Block) -> (r: Option<BlockWithState>)
        requires
            self.wf(),
        ensures
            block.0 < self.schemas().len() ==> r == Some(self.defaults()[block.0 as int]),
            block.0 >= self.schemas().len() ==> r is None,
    {
        let b = block.0 as usize;
        if b < self.block_id_to_default_state_id.len() && block.0 as u64 == b as u64 {
            Some(self.block_id_to_default_state_id[b])
        } else {
            None
        }
    }

    /// Field `index` of `block`, with its positional weight and number of
    /// values, or `None` where the block or the field does not exist.
    pub fn block_state(&self, block: Block, index: usize) -> (r: Option<BlockState>)
        requires
            self.wf(),
        ensures
            ({
                let s = self.schemas();
                let b = block.0 as int;
                if b < s.len() && index < s[b].len() {
                    r == Some(
                        BlockState {
                            block,
                            offset: field_offset(s[b], index as int) as u32,
                            num_values: s[b][index as int],
                        },
                    )
                } else {
                    r is None
                }
            }),
    {
        let b = block.0 as usize;
        if b >= self.block_field_radices.len() || block.0 as u64 != b as u64 {
            return None;
        }
        let radices = &self.block_field_radices[b];
        if index >= radices.len() {
            return None;
        }
        let ghost s = self.schemas();
        let ghost r = s[b as int];
        assert(r == radices@);
        proof {
            lemma_ranges_partition(s);
            lemma_state_start_monotonic(s, b + 1, s.len() as int);
        }
        let mut offset: u64 = 1;
        let mut k: usize = radices.len();
        proof {
            assert(r.skip(k as int) =~= Seq::<u32>::empty());
        }
        while k > index + 1
            invariant
                index < k <= r.len(),
                r == radices@,
                radices_valid(r),
                offset as nat == radix_product(r.skip(k as int)),
                radix_product(r) <= u32::MAX,
            decreases k,
        {
            proof {
                assert(r.skip(k - 1).drop_first() =~= r.skip(k as int));
                lemma_radix_product_skip(r, k - 1);
                assert(radix_product(r.skip(k - 1)) == r[k - 1] as nat * offset as nat);
            }
            offset = radices[k - 1] as u64 * offset;
            k = k - 1;
        }
        proof {
            lemma_radix_product_skip(r, index + 1);
        }
        Some(BlockState { block, offset: offset as u32, num_values: radices[index] })
    }

    /// The value index of the field `target_state` in `block_state`:
    /// `((block_state - first state of the block) / offset) % num_values`.
    ///
    /// Fails with `StateIdOutOfRange` where `block_state` is not a state of
    /// `target_state.block`, and with `InvalidFieldValue` where the field has a
    /// zero offset or no values.
    pub fn get_block_state_value(&self, block_state: BlockWithState, target_state: BlockState) -> (r:
        Result<u32, ProtocolError>)
        requires
            self.wf(),
        ensures
            ({
                let s = self.schemas();
                let b = target_state.block.0 as int;
                let id = block_state.0 as int;
                if !owns(s, b, id) {
                    r == Err::<u32, ProtocolError>(ProtocolError::StateIdOutOfRange)
                } else if target_state.offset == 0 || target_state.num_values == 0 {
                    r == Err::<u32, ProtocolError>(ProtocolError::InvalidFieldValue)
                } else {
                    r == Ok::<u32, ProtocolError>(
                        (((id - state_start(s, b)) / target_state.offset as int)
                            % target_state.num_values as int) as u32,
                    )
                }
            }),
    {
        let start = match self.owned_start(block_state, target_state.block) {
            Some(start) => start,
            None => return Err(ProtocolError::StateIdOutOfRange),
        };
        if target_state.offset == 0 || target_state.num_values == 0 {
            return Err(ProtocolError::InvalidFieldValue);
        }
        let relative = block_state.0 - start;
        Ok((relative / target_state.offset) % target_state.num_values)
    }

    /// The first state id of `block` where it owns `block_state`.
    fn owned_start(&self, block_state: BlockWithState, block: Block) -> (r: Option<u32>)
        requires
            self.wf(),
        ensures
            owns(self.schemas(), block.0 as int, block_state.0 as int) <==> r is Some,
            r matches Some(v) ==> v as nat == state_start(self.schemas(), block.0 as int),
    {
        let ghost s = self.schemas();
        proof {
            lemma_ranges_partition(s);
        }
        if block_state.0 >= self.total_num_states {
            proof {
                if owns(s, block.0 as int, block_state.0 as int) {
                    lemma_state_start_monotonic(s, block.0 as int + 1, s.len() as int);
                }
            }
            return None;
        }
        let owner = self.block_state_id_to_block_id[block_state.0 as usize];
        proof {
            assert(owns(s, owner.0 as int, block_state.0 as int));
        }
        if owner.0 != block.0 {
            proof {
                if owns(s, block.0 as int, block_state.0 as int) {
                    assert(owns(s, owner.0 as int, block_state.0 as int));
                }
            }
            return None;
        }
        Some(self.block_id_to_min_state_id[owner.0 as usize])
    }

    /// `block_state` with the value index of the field `target_state` replaced by
    /// `new_value`, computed from the field's current value alone: the field's
    /// contribution `current * offset` is swapped for `new_value * offset`.
    ///
    /// Fails with `StateIdOutOfRange` where `block_state` is not a state of
    /// `target_state.block`, and with `InvalidFieldValue` where the offset is
    /// zero, `new_value` is not below `num_values`, or the result would leave
    /// the block's range.
    pub fn set_block_state_value(
        &self,
        block_state: BlockWithState,
        target_state: BlockState,
        new_value: u32,
    ) -> (r: Result<BlockWithState, ProtocolError>)
        requires
            self.wf(),
        ensures
            ({
                let s = self.schemas();
                let b = target_state.block.0 as int;
                let id = block_state.0 as int;
                let off = target_state.offset as int;
                let rel = id - state_start(s, b);
                let cur = (rel / off) % target_state.num_values as int;
                let moved = rel - cur * off + new_value * off;
                if !owns(s, b, id) {
                    r == Err::<BlockWithState, ProtocolError>(ProtocolError::StateIdOutOfRange)
                } else if off == 0 || new_value >= target_state.num_values {
                    r == Err::<BlockWithState, ProtocolError>(ProtocolError::InvalidFieldValue)
                } else if moved >= state_count(s, b) {
                    r == Err::<BlockWithState, ProtocolError>(ProtocolError::InvalidFieldValue)
                } else {
                    r == Ok::<BlockWithState, ProtocolError>(
                        BlockWithState((state_start(s, b) + moved) as u32),
                    )
                }
            }),
    {
        let ghost s = self.schemas();
        let start = match self.owned_start(block_state, target_state.block) {
            Some(start) => start,
            None => return Err(ProtocolError::StateIdOutOfRange),
        };
        if target_state.offset == 0 || new_value >= target_state.num_values {
            return Err(ProtocolError::InvalidFieldValue);
        }
        let b = target_state.block.0 as usize;
        assert(owns(s, b as int, block_state.0 as int));
        assert(b < self.block_id_to_min_state_id@.len());
        proof {
            lemma_ranges_partition(s);
            lemma_state_start_monotonic(s, b + 1, s.len() as int);
            assert(state_start(s, b + 1) == state_start(s, b as int) + state_count(s, b as int));
        }
        let n = self.block_id_to_min_state_id.len();
        assert(b < n);
        let count: u64 = if b + 1 < n {
            assert(self.block_id_to_min_state_id@[b + 1] as nat == state_start(s, b + 1));
            (self.block_id_to_min_state_id[b + 1] - start) as u64
        } else {
            (self.total_num_states - start) as u64
        };
        proof {
            lemma_ranges_partition(s);
            lemma_state_start_monotonic(s, b + 1, s.len() as int);
        }
        let off = target_state.offset as u128;
        let relative = (block_state.0 - start) as u128;
        let current = (relative / off) % target_state.num_values as u128;
        proof {
            let q = relative / off;
            assert(q * off <= relative) by {
                vstd::arithmetic::div_mod::lemma_fundamental_div_mod(relative as int, off as int);
                vstd::arithmetic::div_mod::lemma_mod_pos_bound(relative as int, off as int);
            }
            vstd::arithmetic::div_mod::lemma_mod_decreases(
                q as nat,
                target_state.num_values as nat,
            );
            vstd::arithmetic::mul::lemma_mul_inequality(current as int, q as int, off as int);
            vstd::arithmetic::mul::lemma_mul_upper_bound(
                new_value as int,
                u32::MAX as int,
                off as int,
                u32::MAX as int,
            );
        }
        let moved = relative - current * off + new_value as u128 * off;
        if moved >= count as u128 {
            return Err(ProtocolError::InvalidFieldValue);
        }
        Ok(BlockWithState(start + moved as u32))
    }

    /// The state id of `block` whose fields take the value indices `values`.
    ///
    /// Fails with `StateIdOutOfRange` for a block that has not been added, and
    /// with `InvalidFieldValue` where `values` does not give each field a value
    /// index below its number of values.
    pub fn encode_state(&self, block: Block, values: &Vec<u32>) -> (r: Result<
        BlockWithState,
        ProtocolError,
    >)
        requires
            self.wf(),
        ensures
            ({
                let s = self.schemas();
                let b = block.0 as int;
                if b >= s.len() {
                    r == Err::<BlockWithState, ProtocolError>(ProtocolError::StateIdOutOfRange)
                } else if !in_domain(s[b], values@) {
                    r == Err::<BlockWithState, ProtocolError>(ProtocolError::InvalidFieldValue)
                } else {
                    r == Ok::<BlockWithState, ProtocolError>(
                        BlockWithState((state_start(s, b) + mixed_encode(s[b], values@)) as u32),
                    )
                }
            }),
    {
        let b = block.0 as usize;
        if b >= self.block_field_radices.len() || block.0 as u64 != b as u64 {
            return Err(ProtocolError::StateIdOutOfRange);
        }
        let ghost s = self.schemas();
        let radices = &self.block_field_radices[b];
        let ghost r = s[b as int];
        assert(r == radices@);
        if values.len() != radices.len() {
            return Err(ProtocolError::InvalidFieldValue);
        }
        let mut i: usize = 0;
        while i < values.len()
            invariant
                r == radices@,
                s == self.schemas(),
                b == block.0,
                b < s.len(),
                r == s[b as int],
                0 <= i <= values@.len(),
                values@.len() == radices@.len(),
                forall|j: int| 0 <= j < i ==> values@[j] < radices@[j],
            decreases values@.len() - i,
        {
            if values[i] >= radices[i] {
                assert(values@[i as int] >= r[i as int]);
                assert(!in_domain(r, values@));
                return Err(ProtocolError::InvalidFieldValue);
            }
            i = i + 1;
        }
        proof {
            lemma_ranges_partition(s);
            lemma_state_start_monotonic(s, b as int + 1, s.len() as int);
        }
        let mut acc: u64 = 0;
        let mut weight: u64 = 1;
        let mut k: usize = values.len();
        proof {
            assert(r.skip(k as int) =~= Seq::<u32>::empty());
            assert(values@.skip(k as int) =~= Seq::<u32>::empty());
        }
        while k > 0
            invariant
                0 <= k <= r.len(),
                r == radices@,
                in_domain(r, values@),
                radices_valid(r),
                acc as nat == mixed_encode(r.skip(k as int), values@.skip(k as int)),
                weight as nat == radix_product(r.skip(k as int)),
                radix_product(r) <= u32::MAX,
            decreases k,
        {
            proof {
                let rk = r.skip(k - 1);
                let vk = values@.skip(k - 1);
                assert(rk.drop_first() =~= r.skip(k as int));
                assert(vk.drop_first() =~= values@.skip(k as int));
                assert(in_domain(rk, vk));
                lemma_encode_bound(rk, vk);
                lemma_radix_product_skip(r, k - 1);
                assert(mixed_encode(rk, vk) == vk[0] as nat * weight as nat + acc as nat);
                assert(radix_product(rk) == rk[0] as nat * weight as nat);
            }
            acc = values[k - 1] as u64 * weight + acc;
            weight = radices[k - 1] as u64 * weight;
            k = k - 1;
        }
        proof {
            assert(r.skip(0) =~= r);
            assert(values@.skip(0) =~= values@);
            lemma_encode_bound(r, values@);
        }
        Ok(BlockWithState(self.block_id_to_min_state_id[b] + acc as u32))
    }

    /// The block that owns `block_state` and the value index of each of its
    /// fields, or `None` for an id beyond all states.
    pub fn decode_state(&self, block_state: BlockWithState) -> (r: Option<(Block, Vec<u32>)>)
        requires
            self.wf(),
        ensures
            block_state.0 < total_states(self.schemas()) <==> r is Some,
            r matches Some((b, v)) ==> {
                let s = self.schemas();
                &&& owns(s, b.0 as int, block_state.0 as int)
                &&& v@ == mixed_decode(
                    s[b.0 as int],
                    (block_state.0 - state_start(s, b.0 as int)) as nat,
                )
            },
    {
        if block_state.0 >= self.total_num_states {
            return None;
        }
        let ghost s = self.schemas();
        let block = self.block_state_id_to_block_id[block_state.0 as usize];
        let b = block.0 as usize;
        let radices = &self.block_field_radices[b];
        let ghost r = s[b as int];
        assert(r == radices@);
        let ghost x0 = (block_state.0 - state_start(s, b as int)) as nat;
        let mut x: u32 = block_state.0 - self.block_id_to_min_state_id[b];
        proof {
            lemma_ranges_partition(s);
            lemma_state_start_monotonic(s, b as int + 1, s.len() as int);
            assert(owns(s, b as int, block_state.0 as int));
        }
        let mut weight: u64 = 1;
        let mut k: usize = radices.len();
        proof {
            assert(r.skip(k as int) =~= Seq::<u32>::empty());
        }
        while k > 0
            invariant
                0 <= k <= r.len(),
                r == radices@,
                radices_valid(r),
                weight as nat == radix_product(r.skip(k as int)),
                radix_product(r) <= u32::MAX,
            decreases k,
        {
            proof {
                assert(r.skip(k - 1).drop_first() =~= r.skip(k as int));
                lemma_radix_product_skip(r, k - 1);
            }
            weight = radices[k - 1] as u64 * weight;
            k = k - 1;
        }
        let mut out: Vec<u32> = Vec::new();
        let mut i: usize = 0;
        proof {
            assert(r.skip(0) =~= r);
        }
        while i < radices.len()
            invariant
                0 <= i <= r.len(),
                r == radices@,
                radices_valid(r),
                weight as nat == radix_product(r.skip(i as int)),
                (x as nat) < weight as nat,
                out@ + mixed_decode(r.skip(i as int), x as nat) == mixed_decode(r, x0),
            decreases r.len() - i,
        {
            let ghost ri = r.skip(i as int);
            let ghost rest = r.skip(i + 1);
            let ghost xo = x;
            proof {
                assert(ri.drop_first() =~= rest);
                assert(ri[0] == r[i as int]);
                lemma_radix_product_positive(rest);
                vstd::arithmetic::div_mod::lemma_fundamental_div_mod_converse(
                    weight as int,
                    r[i as int] as int,
                    radix_product(rest) as int,
                    0,
                );
            }
            let next = weight / radices[i] as u64;
            assert(next as nat == radix_product(rest));
            proof {
                vstd::arithmetic::div_mod::lemma_fundamental_div_mod(x as int, next as int);
                vstd::arithmetic::div_mod::lemma_mod_pos_bound(x as int, next as int);
                assert((x as nat) / (next as nat) < r[i as int]) by (nonlinear_arith)
                    requires
                        (x as nat) < r[i as int] as nat * next as nat,
                        next >= 1,
                        x as nat == next as nat * ((x as nat) / (next as nat)) + (x as nat) % (
                        next as nat),
                        (x as nat) % (next as nat) >= 0,
                ;
                assert(mixed_decode(ri, x as nat) == seq![((x as nat) / (next as nat)) as u32]
                    + mixed_decode(rest, (x as nat) % (next as nat)));
            }
            let d = (x as u64 / next) as u32;
            let ghost before = out@;
            out.push(d);
            x = (x as u64 % next) as u32;
            weight = next;
            i = i + 1;
            proof {
                assert(out@ + mixed_decode(rest, x as nat) =~= before + mixed_decode(ri, xo as nat));
            }
        }
        proof {
            assert(r.skip(i as int) =~= Seq::<u32>::empty());
            assert(out@ + Seq::<u32>::empty() =~= out@);
        }
        Some((block, out))
    }
}

/// Number of states of a block whose fields have `state_sizes` values each,
/// where every field has a value and the product is at most `limit`.
fn checked_state_count(state_sizes: &Vec<u32>, limit: u32) -> (r: Result<u32, ProtocolError>)
    ensures
        if !radices_valid(state_sizes@) {
            r == Err::<u32, ProtocolError>(ProtocolError::InvalidFieldValue)
        } else if radix_product(state_sizes@) > limit {
            r == Err::<u32, ProtocolError>(ProtocolError::StateIdOutOfRange)
        } else {
            r == Ok::<u32, ProtocolError>(radix_product(state_sizes@) as u32)
        },
{
    let mut i: usize = 0;
    while i < state_sizes.len()
        invariant
            0 <= i <= state_sizes@.len(),
            forall|j: int| 0 <= j < i ==> state_sizes@[j] >= 1,
        decreases state_sizes@.len() - i,
    {
        if state_sizes[i] == 0 {
            return Err(ProtocolError::InvalidFieldValue);
        }
        i = i + 1;
    }
    if limit == 0 {
        proof {
            lemma_radix_product_positive(state_sizes@);
        }
        return Err(ProtocolError::StateIdOutOfRange);
    }
    let mut count: u64 = 1;
    let mut k: usize = state_sizes.len();
    proof {
        assert(state_sizes@.skip(k as int) =~= Seq::<u32>::empty());
    }
    while k > 0
        invariant
            0 <= k <= state_sizes@.len(),
            radices_valid(state_sizes@),
            count as nat == radix_product(state_sizes@.skip(k as int)),
            count <= limit,
        decreases k,
    {
        proof {
            assert(state_sizes@.skip(k - 1).drop_first() =~= state_sizes@.skip(k as int));
            assert(state_sizes@.skip(k - 1)[0] == state_sizes@[k - 1]);
            let c = count as nat;
            let h = state_sizes@[k - 1] as nat;
            assert(c * h <= u32::MAX * u32::MAX) by (nonlinear_arith)
                requires
                    c <= u32::MAX,
                    h <= u32::MAX,
            ;
            assert(c * h == h * c) by (nonlinear_arith);
        }
        let next: u64 = count * state_sizes[k - 1] as u64;
        if next > limit as u64 {
            proof {
                lemma_radix_product_skip(state_sizes@, k - 1);
            }
            return Err(ProtocolError::StateIdOutOfRange);
        }
        count = next;
        k = k - 1;
    }
    proof {
        assert(state_sizes@.skip(0) =~= state_sizes@);
    }
    Ok(count as u32)
}

} // verus!
