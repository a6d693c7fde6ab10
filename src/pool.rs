//! Pools: identifiers, protocol classes, and the handle that a loader hands
//! to the market.
use vstd::prelude::*;
use crate::primitives::{Address, U256};

verus! {

/// A pool's identity: its address, or 32 opaque bytes for protocols whose
/// pools have no address of their own.
#[derive(Clone, Copy, Debug, PartialEq, Eq, Hash, Structural)]
pub enum PoolId {
    Address(Address),
    B256(U256),
}

#[derive(Clone, Copy, Debug, PartialEq, Eq, Hash, Structural)]
pub enum PoolClass {
    UniswapV2,
    UniswapV3,
    PancakeV3,
    Maverick,
    Curve,
    LidoWstEth,
    LidoStEth,
    Unknown,
}

/// How a pool receives its input tokens.
#[derive(Clone, Copy, Debug, PartialEq, Eq, Structural)]
pub enum PreswapRequirement {
    Unknown,
    /// Tokens are pushed to this address before the swap call.
    Transfer(Address),
    /// The pool pulls tokens after an approval.
    Allowance,
    /// The pool asks for the tokens in a callback.
    Callback,
    Base,
}

/// What the encoders and the path index read of a pool.
#[derive(Clone, Copy, Debug, PartialEq, Eq, Structural)]
pub struct Pool {
    pub id: PoolId,
    pub address: Address,
    pub class: PoolClass,
    pub fee: U256,
    pub preswap: PreswapRequirement,
    /// The pool trades native ether rather than its wrapped token.
    pub native: bool,
}

impl Pool {
    /// A pool identified by its address.
    pub fn new(address: Address, class: PoolClass, fee: U256, preswap: PreswapRequirement, native: bool) -> (r: Pool)
        ensures
            r == (Pool { id: PoolId::Address(address), address, class, fee, preswap, native }),
    {
        Pool { id: PoolId::Address(address), address, class, fee, preswap, native }
    }

    pub fn get_address(&self) -> (r: Address)
        ensures
            r == self.address,
    {
        self.address
    }

    pub fn get_pool_id(&self) -> (r: PoolId)
        ensures
            r == self.id,
    {
        self.id
    }

    pub fn get_class(&self) -> (r: PoolClass)
        ensures
            r == self.class,
    {
        self.class
    }

    pub fn get_fee(&self) -> (r: U256)
        ensures
            r == self.fee,
    {
        self.fee
    }
}

/// A loaded pool: its description, the token directions it swaps, and the
/// storage cells that the simulator must treat as read-only.
#[derive(Debug)]
pub struct PoolWrapper {
    pub pool: Pool,
    pub directions: Vec<(Address, Address)>,
    pub read_only_cells: Vec<U256>,
}

pub struct PoolWrapperView {
    pub pool: Pool,
    pub directions: Seq<(Address, Address)>,
}

impl View for PoolWrapper {
    type V = PoolWrapperView;

    open spec fn view(&self) -> PoolWrapperView {
        PoolWrapperView { pool: self.pool, directions: self.directions@ }
    }
}

/// The copy of a vector of plain values.
pub fn copy_vec<T: Copy>(v: &Vec<T>) -> (r: Vec<T>)
    ensures
        r@ == v@,
{
    let mut r: Vec<T> = Vec::new();
    let mut i: usize = 0;
    while i < v.len()
        invariant
            i <= v@.len(),
            r@ == v@.subrange(0, i as int),
        decreases v.len() - i,
    {
        r.push(v[i]);
        i = i + 1;
        assert(r@ =~= v@.subrange(0, i as int));
    }
    assert(v@.subrange(0, i as int) =~= v@);
    r
}

impl PoolWrapper {
    pub fn new(pool: Pool, directions: Vec<(Address, Address)>) -> (r: PoolWrapper)
        ensures
            r@ == (PoolWrapperView { pool, directions: directions@ }),
            r.read_only_cells@.len() == 0,
    {
        PoolWrapper { pool, directions, read_only_cells: Vec::new() }
    }

    /// A two-token pool that swaps both ways: `(token0, token1)`, then `(token1, token0)`.
    pub fn new_pair(pool: Pool, token0: Address, token1: Address) -> (r: PoolWrapper)
        ensures
            r@ == (PoolWrapperView { pool, directions: seq![(token0, token1), (token1, token0)] }),
            r.read_only_cells@.len() == 0,
    {
        let mut directions: Vec<(Address, Address)> = Vec::new();
        directions.push((token0, token1));
        directions.push((token1, token0));
        assert(directions@ =~= seq![(token0, token1), (token1, token0)]);
        PoolWrapper { pool, directions, read_only_cells: Vec::new() }
    }

    pub fn get_pool_id(&self) -> (r: PoolId)
        ensures
            r == self.pool.id,
    {
        self.pool.id
    }

    pub fn get_address(&self) -> (r: Address)
        ensures
            r == self.pool.address,
    {
        self.pool.address
    }

    pub fn get_class(&self) -> (r: PoolClass)
        ensures
            r == self.pool.class,
    {
        self.pool.class
    }

    pub fn get_swap_directions(&self) -> (r: Vec<(Address, Address)>)
        ensures
            r@ == self.directions@,
    {
        copy_vec(&self.directions)
    }

    pub fn get_read_only_cell_vec(&self) -> (r: Vec<U256>)
        ensures
            r@ == self.read_only_cells@,
    {
        copy_vec(&self.read_only_cells)
    }
}

} // verus!
