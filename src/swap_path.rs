//! Swap paths: cycles of pools and the tokens between them.
use vstd::prelude::*;
use crate::primitives::Address;
use crate::pool::{Pool, PoolId, copy_vec};

verus! {

/// A route through `pools`, where pool `k` swaps `tokens[k]` for `tokens[k + 1]`.
#[derive(Debug)]
pub struct SwapPath {
    pub tokens: Vec<Address>,
    pub pools: Vec<Pool>,
    pub disabled: bool,
}

pub struct SwapPathView {
    pub tokens: Seq<Address>,
    pub pools: Seq<Pool>,
    pub disabled: bool,
}

impl View for SwapPath {
    type V = SwapPathView;

    open spec fn view(&self) -> SwapPathView {
        SwapPathView { tokens: self.tokens@, pools: self.pools@, disabled: self.disabled }
    }
}

/// Two paths take the same route: the same pools over the same tokens, in order.
pub open spec fn same_route(p: SwapPathView, q: SwapPathView) -> bool {
    p.tokens == q.tokens && p.pools == q.pools
}

/// Some pool of the path has the identifier `id`.
pub open spec fn path_has_pool(p: SwapPathView, id: PoolId) -> bool {
    exists|k: int| 0 <= k < p.pools.len() && (#[trigger] p.pools[k]).id == id
}

/// No two paths of `s` take the same route.
pub open spec fn routes_unique(s: Seq<SwapPathView>) -> bool {
    forall|i: int, j: int| 0 <= i < s.len() && 0 <= j < s.len() && i != j ==> !same_route(#[trigger] s[i], #[trigger] s[j])
}

/// Some path of `s` takes the route of `p`.
pub open spec fn route_in_seq(s: Seq<SwapPathView>, p: SwapPathView) -> bool {
    exists|k: int| 0 <= k < s.len() && same_route(#[trigger] s[k], p)
}

pub fn same_addresses(a: &Vec<Address>, b: &Vec<Address>) -> (r: bool)
    ensures
        r == (a@ == b@),
{
    if a.len() != b.len() {
        return false;
    }
    let mut i: usize = 0;
    while i < a.len()
        invariant
            a@.len() == b@.len(),
            i <= a@.len(),
            forall|k: int| 0 <= k < i ==> a@[k] == b@[k],
        decreases a.len() - i,
    {
        if a[i] != b[i] {
            return false;
        }
        i = i + 1;
    }
    assert(a@ =~= b@);
    true
}

pub fn same_pools(a: &Vec<Pool>, b: &Vec<Pool>) -> (r: bool)
    ensures
        r == (a@ == b@),
{
    if a.len() != b.len() {
        return false;
    }
    let mut i: usize = 0;
    while i < a.len()
        invariant
            a@.len() == b@.len(),
            i <= a@.len(),
            forall|k: int| 0 <= k < i ==> a@[k] == b@[k],
        decreases a.len() - i,
    {
        if a[i] != b[i] {
            return false;
        }
        i = i + 1;
    }
    assert(a@ =~= b@);
    true
}

impl SwapPath {
    pub fn new(tokens: Vec<Address>, pools: Vec<Pool>) -> (r: SwapPath)
        ensures
            r@ == (SwapPathView { tokens: tokens@, pools: pools@, disabled: false }),
    {
        SwapPath { tokens, pools, disabled: false }
    }

    pub fn pool_count(&self) -> (r: usize)
        ensures
            r == self.pools@.len(),
    {
        self.pools.len()
    }

    pub fn tokens_count(&self) -> (r: usize)
        ensures
            r == self.tokens@.len(),
    {
        self.tokens.len()
    }

    /// Whether a pool of the path has the identifier `id`.
    pub fn contains_pool(&self, id: PoolId) -> (r: bool)
        ensures
            r == path_has_pool(self@, id),
    {
        let mut k: usize = 0;
        while k < self.pools.len()
            invariant
                k <= self.pools@.len(),
                forall|j: int| 0 <= j < k ==> self.pools@[j].id != id,
            decreases self.pools.len() - k,
        {
            if self.pools[k].id == id {
                return true;
            }
            k = k + 1;
        }
        false
    }

    /// Whether `self` and `other` take the same route.
    pub fn same_route_as(&self, other: &SwapPath) -> (r: bool)
        ensures
            r == same_route(self@, other@),
    {
        same_addresses(&self.tokens, &other.tokens) && same_pools(&self.pools, &other.pools)
    }

    /// A copy with the disabled flag set to `disabled`.
    pub fn copy_with_flag(&self, disabled: bool) -> (r: SwapPath)
        ensures
            r@ == (SwapPathView { disabled, ..self@ }),
    {
        SwapPath { tokens: copy_vec(&self.tokens), pools: copy_vec(&self.pools), disabled }
    }
}

} // verus!
