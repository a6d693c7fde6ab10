//! The market: pools, tokens, the token-to-token adjacency that path search
//! walks, and the index of swap paths.
use vstd::prelude::*;
use crate::error::LoomError;
use crate::primitives::Address;
use crate::token::{Token, TokenView};
use crate::pool::{Pool, PoolClass, PoolId, PoolWrapper, PoolWrapperView};
use crate::swap_path::{SwapPath, SwapPathView, same_route, path_has_pool, routes_unique, route_in_seq};

verus! {

/// One swap direction that a pool reported: `pool` swaps `from` for `to`.
#[derive(Clone, Copy, Debug, PartialEq, Eq, Structural)]
pub struct Edge {
    pub from: Address,
    pub to: Address,
    pub pool: PoolId,
}

/// The edges of a loaded pool, one per reported direction, in order.
pub open spec fn wrapper_edges(w: PoolWrapperView) -> Seq<Edge> {
    w.directions.map_values(|d: (Address, Address)| Edge { from: d.0, to: d.1, pool: w.pool.id })
}

/// The edges of the pools, pool after pool.
pub open spec fn all_edges(ws: Seq<PoolWrapperView>) -> Seq<Edge>
    decreases ws.len(),
{
    if ws.len() == 0 {
        Seq::empty()
    } else {
        all_edges(ws.drop_last()) + wrapper_edges(ws.last())
    }
}

/// The pools, in order of their edges, that swap `a` for `b`.
pub open spec fn ttp(edges: Seq<Edge>, a: Address, b: Address) -> Seq<PoolId>
    decreases edges.len(),
{
    if edges.len() == 0 {
        Seq::empty()
    } else {
        let prev = ttp(edges.drop_last(), a, b);
        if edges.last().from == a && edges.last().to == b {
            prev.push(edges.last().pool)
        } else {
            prev
        }
    }
}

/// The tokens, in order of their edges, that `a` swaps to.
pub open spec fn tt(edges: Seq<Edge>, a: Address) -> Seq<Address>
    decreases edges.len(),
{
    if edges.len() == 0 {
        Seq::empty()
    } else {
        let prev = tt(edges.drop_last(), a);
        if edges.last().from == a {
            prev.push(edges.last().to)
        } else {
            prev
        }
    }
}

/// The pools, in order of their edges, that swap `a` for some token.
pub open spec fn tp(edges: Seq<Edge>, a: Address) -> Seq<PoolId>
    decreases edges.len(),
{
    if edges.len() == 0 {
        Seq::empty()
    } else {
        let prev = tp(edges.drop_last(), a);
        if edges.last().from == a {
            prev.push(edges.last().pool)
        } else {
            prev
        }
    }
}

pub proof fn lemma_edge_listed(edges: Seq<Edge>, k: int)
    requires
        0 <= k < edges.len(),
    ensures
        ttp(edges, edges[k].from, edges[k].to).contains(edges[k].pool),
        tt(edges, edges[k].from).contains(edges[k].to),
        tp(edges, edges[k].from).contains(edges[k].pool),
    decreases edges.len(),
{
    let e = edges[k];
    if k == edges.len() - 1 {
        let a = ttp(edges, e.from, e.to);
        assert(a[a.len() - 1] == e.pool);
        let b = tt(edges, e.from);
        assert(b[b.len() - 1] == e.to);
        let c = tp(edges, e.from);
        assert(c[c.len() - 1] == e.pool);
    } else {
        let d = edges.drop_last();
        assert(d[k] == e);
        lemma_edge_listed(d, k);
        let pa = ttp(d, e.from, e.to);
        let ia = choose|i: int| 0 <= i < pa.len() && pa[i] == e.pool;
        assert(ttp(edges, e.from, e.to)[ia] == e.pool);
        let pb = tt(d, e.from);
        let ib = choose|i: int| 0 <= i < pb.len() && pb[i] == e.to;
        assert(tt(edges, e.from)[ib] == e.to);
        let pc = tp(d, e.from);
        let ic = choose|i: int| 0 <= i < pc.len() && pc[i] == e.pool;
        assert(tp(edges, e.from)[ic] == e.pool);
    }
}

pub proof fn lemma_all_edges_has(ws: Seq<PoolWrapperView>, i: int, j: int)
    requires
        0 <= i < ws.len(),
        0 <= j < ws[i].directions.len(),
    ensures
        all_edges(ws).contains(
            Edge { from: ws[i].directions[j].0, to: ws[i].directions[j].1, pool: ws[i].pool.id },
        ),
    decreases ws.len(),
{
    let e = Edge { from: ws[i].directions[j].0, to: ws[i].directions[j].1, pool: ws[i].pool.id };
    let prev = all_edges(ws.drop_last());
    if i == ws.len() - 1 {
        assert(all_edges(ws)[prev.len() + j] == e);
    } else {
        assert(ws.drop_last()[i] == ws[i]);
        lemma_all_edges_has(ws.drop_last(), i, j);
        let k = choose|k: int| 0 <= k < prev.len() && prev[k] == e;
        assert(all_edges(ws)[k] == e);
    }
}

/// The pools, tokens and paths of a market.
pub struct Market {
    pools: Vec<PoolWrapper>,
    pools_disabled: Vec<(PoolId, bool)>,
    tokens: Vec<Token>,
    edges: Vec<Edge>,
    swap_paths: Vec<SwapPath>,
}

impl Market {
    /// The loaded pools, in order of insertion.
    pub closed spec fn pools_view(&self) -> Seq<PoolWrapperView> {
        self.pools@.map_values(|w: PoolWrapper| w@)
    }

    /// The pools' reported directions, in order of insertion.
    pub closed spec fn edges_view(&self) -> Seq<Edge> {
        self.edges@
    }

    /// The tokens, one per address.
    pub closed spec fn tokens_view(&self) -> Seq<TokenView> {
        self.tokens@.map_values(|t: Token| t@)
    }

    /// The disabled flags that were ever set, one per pool identifier.
    pub closed spec fn disabled_view(&self) -> Seq<(PoolId, bool)> {
        self.pools_disabled@
    }

    /// The indexed swap paths.
    pub closed spec fn paths_view(&self) -> Seq<SwapPathView> {
        self.swap_paths@.map_values(|p: SwapPath| p@)
    }

    pub open spec fn has_pool(&self, id: PoolId) -> bool {
        exists|i: int| 0 <= i < self.pools_view().len() && (#[trigger] self.pools_view()[i]).pool.id == id
    }

    /// A pool with identifier `id` is present and of a known class.
    pub open spec fn pool_usable(&self, id: PoolId) -> bool {
        exists|i: int|
            0 <= i < self.pools_view().len() && (#[trigger] self.pools_view()[i]).pool.id == id
                && self.pools_view()[i].pool.class != PoolClass::Unknown
    }

    /// `p` is the record of a present pool of a known class.
    pub open spec fn has_pool_record(&self, p: Pool) -> bool {
        p.class != PoolClass::Unknown && exists|i: int| 0 <= i < self.pools_view().len() && (#[trigger] self.pools_view()[i]).pool == p
    }

    pub open spec fn pool_disabled(&self, id: PoolId) -> bool {
        exists|i: int| 0 <= i < self.disabled_view().len() && #[trigger] self.disabled_view()[i] == (id, true)
    }

    pub open spec fn has_token(&self, a: Address) -> bool {
        exists|i: int| 0 <= i < self.tokens_view().len() && (#[trigger] self.tokens_view()[i]).address == a
    }

    pub open spec fn token_basic(&self, a: Address) -> bool {
        exists|i: int|
            0 <= i < self.tokens_view().len() && (#[trigger] self.tokens_view()[i]).address == a
                && self.tokens_view()[i].basic
    }

    /// A path is disabled exactly when one of its pools is.
    pub open spec fn flag_matches(&self, p: SwapPathView) -> bool {
        p.disabled == exists|k: int| 0 <= k < p.pools.len() && self.pool_disabled(#[trigger] p.pools[k].id)
    }

    pub open spec fn pools_unique(&self) -> bool {
        forall|i: int, j: int|
            0 <= i < self.pools_view().len() && 0 <= j < self.pools_view().len() && i != j
                ==> (#[trigger] self.pools_view()[i]).pool.id != (#[trigger] self.pools_view()[j]).pool.id
    }

    pub open spec fn disabled_unique(&self) -> bool {
        forall|i: int, j: int|
            0 <= i < self.disabled_view().len() && 0 <= j < self.disabled_view().len() && i != j
                ==> (#[trigger] self.disabled_view()[i]).0 != (#[trigger] self.disabled_view()[j]).0
    }

    pub open spec fn tokens_unique(&self) -> bool {
        forall|i: int, j: int|
            0 <= i < self.tokens_view().len() && 0 <= j < self.tokens_view().len() && i != j
                ==> (#[trigger] self.tokens_view()[i]).address != (#[trigger] self.tokens_view()[j]).address
    }

    /// The market's invariant: identifiers and addresses unique, the edge
    /// index in step with the pools, routes unique and path flags in step
    /// with the pools' flags.
    pub open spec fn wf(&self) -> bool {
        &&& self.pools_unique()
        &&& self.edges_view() == all_edges(self.pools_view())
        &&& self.disabled_unique()
        &&& self.tokens_unique()
        &&& routes_unique(self.paths_view())
        &&& forall|k: int| 0 <= k < self.paths_view().len() ==> self.flag_matches(#[trigger] self.paths_view()[k])
    }

    proof fn lemma_wf_tokens_changed(a: &Market, b: &Market)
        requires
            a.wf(),
            b.pools_view() == a.pools_view(),
            b.edges_view() == a.edges_view(),
            b.disabled_view() == a.disabled_view(),
            b.paths_view() == a.paths_view(),
            forall|i: int, j: int|
                0 <= i < b.tokens_view().len() && 0 <= j < b.tokens_view().len() && i != j
                    ==> (#[trigger] b.tokens_view()[i]).address != (#[trigger] b.tokens_view()[j]).address,
        ensures
            b.wf(),
    {
        assert forall|x: PoolId| b.pool_disabled(x) == a.pool_disabled(x) by {
            if a.pool_disabled(x) {
                let i = choose|i: int| 0 <= i < a.disabled_view().len() && #[trigger] a.disabled_view()[i] == (x, true);
                assert(b.disabled_view()[i] == (x, true));
            }
        }
        assert forall|k: int| 0 <= k < b.paths_view().len() implies b.flag_matches(#[trigger] b.paths_view()[k]) by {
            assert(a.flag_matches(a.paths_view()[k]));
        }
    }

    /// An empty market.
    pub fn new() -> (r: Market)
        ensures
            r.wf(),
            r.pools_view().len() == 0,
            r.tokens_view().len() == 0,
            r.disabled_view().len() == 0,
            r.paths_view().len() == 0,
    {
        let r = Market {
            pools: Vec::new(),
            pools_disabled: Vec::new(),
            tokens: Vec::new(),
            edges: Vec::new(),
            swap_paths: Vec::new(),
        };
        assert(r.pools_view() =~= Seq::<PoolWrapperView>::empty());
        assert(r.edges_view() =~= all_edges(r.pools_view()));
        r
    }

    fn find_pool(&self, id: PoolId) -> (r: Option<usize>)
        ensures
            r matches Some(i) ==> i < self.pools_view().len() && self.pools_view()[i as int].pool.id == id,
            r is None ==> !self.has_pool(id),
    {
        let mut i: usize = 0;
        while i < self.pools.len()
            invariant
                i <= self.pools@.len(),
                forall|j: int| 0 <= j < i ==> (#[trigger] self.pools@[j]).pool.id != id,
            decreases self.pools.len() - i,
        {
            if self.pools[i].pool.id == id {
                return Some(i);
            }
            i = i + 1;
        }
        assert(forall|j: int| 0 <= j < self.pools_view().len() ==> self.pools_view()[j] == self.pools@[j]@);
        None
    }

    fn find_token(&self, a: Address) -> (r: Option<usize>)
        ensures
            r matches Some(i) ==> i < self.tokens_view().len() && self.tokens_view()[i as int].address == a,
            r is None ==> !self.has_token(a),
    {
        let mut i: usize = 0;
        while i < self.tokens.len()
            invariant
                i <= self.tokens@.len(),
                forall|j: int| 0 <= j < i ==> (#[trigger] self.tokens@[j]).address != a,
            decreases self.tokens.len() - i,
        {
            if self.tokens[i].address == a {
                return Some(i);
            }
            i = i + 1;
        }
        assert(forall|j: int| 0 <= j < self.tokens_view().len() ==> self.tokens_view()[j] == self.tokens@[j]@);
        None
    }

    fn find_disabled(&self, id: PoolId) -> (r: Option<usize>)
        ensures
            r matches Some(i) ==> i < self.disabled_view().len() && self.disabled_view()[i as int].0 == id,
            r is None ==> forall|j: int| 0 <= j < self.disabled_view().len() ==> (#[trigger] self.disabled_view()[j]).0 != id,
    {
        let mut i: usize = 0;
        while i < self.pools_disabled.len()
            invariant
                i <= self.pools_disabled@.len(),
                forall|j: int| 0 <= j < i ==> (#[trigger] self.pools_disabled@[j]).0 != id,
            decreases self.pools_disabled.len() - i,
        {
            if self.pools_disabled[i].0 == id {
                return Some(i);
            }
            i = i + 1;
        }
        None
    }

    /// Adds a token, or replaces the one with the same address; a token that
    /// was basic stays basic.
    pub fn add_token(&mut self, token: Token) -> (r: Result<(), LoomError>)
        requires
            old(self).wf(),
        ensures
            final(self).wf(),
            r is Ok,
            token_added(old(self), token@, final(self)),
            final(self).tokens_view() == with_token(old(self).tokens_view(), token@),
            final(self).pools_view() == old(self).pools_view(),
            final(self).edges_view() == old(self).edges_view(),
            final(self).disabled_view() == old(self).disabled_view(),
            final(self).paths_view() == old(self).paths_view(),
    {
        let ghost old_tokens = self.tokens_view();
        match self.find_token(token.address) {
            Some(i) => {
                let was_basic = self.tokens[i].basic;
                let merged = Token { basic: token.basic || was_basic, ..token };
                self.tokens.set(i, merged);
                assert(self.tokens_view() =~= old_tokens.update(
                    i as int,
                    TokenView { basic: token.basic || old_tokens[i as int].basic, ..token@ },
                ));
                proof {
                    let c = choose|c: int| 0 <= c < old_tokens.len() && (#[trigger] old_tokens[c]).address == token.address;
                    if c != i {
                        assert(old_tokens[c].address != old_tokens[i as int].address);
                    }
                }
                assert forall|x: int, y: int|
                    0 <= x < self.tokens_view().len() && 0 <= y < self.tokens_view().len() && x != y
                        implies (#[trigger] self.tokens_view()[x]).address != (#[trigger] self.tokens_view()[y]).address by {
                    assert(old_tokens[x].address == self.tokens_view()[x].address);
                    assert(old_tokens[y].address == self.tokens_view()[y].address);
                }
            },
            None => {
                let ghost tv = token@;
                self.tokens.push(token);
                assert(self.tokens_view() =~= old_tokens.push(tv));
                assert forall|x: int, y: int|
                    0 <= x < self.tokens_view().len() && 0 <= y < self.tokens_view().len() && x != y
                        implies (#[trigger] self.tokens_view()[x]).address != (#[trigger] self.tokens_view()[y]).address by {
                    if x < old_tokens.len() && y < old_tokens.len() {
                        assert(old_tokens[x] == self.tokens_view()[x]);
                        assert(old_tokens[y] == self.tokens_view()[y]);
                    } else if x < old_tokens.len() {
                        assert(old_tokens[x] == self.tokens_view()[x]);
                    } else {
                        assert(old_tokens[y] == self.tokens_view()[y]);
                    }
                }
            },
        }
        proof {
            Market::lemma_wf_tokens_changed(old(self), self);
        }
        Ok(())
    }

    /// Whether the token at `address` is known and basic.
    pub fn is_basic_token(&self, address: &Address) -> (r: bool)
        requires
            self.wf(),
        ensures
            r == self.token_basic(*address),
    {
        match self.find_token(*address) {
            Some(i) => {
                let b = self.tokens[i].basic;
                proof {
                    assert(self.tokens_view()[i as int] == self.tokens@[i as int]@);
                    if !b && self.token_basic(*address) {
                        let j = choose|j: int|
                            0 <= j < self.tokens_view().len() && (#[trigger] self.tokens_view()[j]).address
                                == *address && self.tokens_view()[j].basic;
                        assert(j == i);
                    }
                }
                b
            },
            None => false,
        }
    }

    /// Adds a loaded pool and one edge per direction it reports; fails with
    /// `Duplicate`, and changes nothing, when a pool with its identifier is
    /// already present.
    pub fn add_pool(&mut self, pool: PoolWrapper) -> (r: Result<(), LoomError>)
        requires
            old(self).wf(),
        ensures
            final(self).wf(),
            old(self).has_pool(pool.pool.id) ==> r == Err::<(), LoomError>(LoomError::Duplicate) && *final(self) == *old(self),
            !old(self).has_pool(pool.pool.id) ==> r is Ok && pool_added(old(self), pool@, final(self)),
    {
        if self.find_pool(pool.pool.id).is_some() {
            return Err(LoomError::Duplicate);
        }
        let ghost old_edges = self.edges@;
        let ghost w = pool@;
        let mut j: usize = 0;
        while j < pool.directions.len()
            invariant
                j <= pool.directions@.len(),
                w == pool@,
                self.edges@ == old_edges + wrapper_edges(w).subrange(0, j as int),
                self.pools == old(self).pools,
                self.tokens == old(self).tokens,
                self.pools_disabled == old(self).pools_disabled,
                self.swap_paths == old(self).swap_paths,
            decreases pool.directions.len() - j,
        {
            let (from, to) = pool.directions[j];
            self.edges.push(Edge { from, to, pool: pool.pool.id });
            j = j + 1;
            assert(self.edges@ =~= old_edges + wrapper_edges(w).subrange(0, j as int));
        }
        assert(wrapper_edges(w).subrange(0, j as int) =~= wrapper_edges(w));
        let ghost old_pools = self.pools_view();
        self.pools.push(pool);
        proof {
            assert(self.pools_view() =~= old_pools.push(w));
            assert(self.pools_view().drop_last() =~= old_pools);
            assert forall|x: int, y: int|
                0 <= x < self.pools_view().len() && 0 <= y < self.pools_view().len() && x != y
                    implies (#[trigger] self.pools_view()[x]).pool.id != (#[trigger] self.pools_view()[y]).pool.id by {
                if x < old_pools.len() && y < old_pools.len() {
                    assert(old_pools[x] == self.pools_view()[x]);
                    assert(old_pools[y] == self.pools_view()[y]);
                } else if x < old_pools.len() {
                    assert(old_pools[x] == self.pools_view()[x]);
                } else {
                    assert(old_pools[y] == self.pools_view()[y]);
                }
            }
            assert forall|x: PoolId| self.pool_disabled(x) == old(self).pool_disabled(x) by {
                if old(self).pool_disabled(x) {
                    let i = choose|i: int| 0 <= i < old(self).disabled_view().len() && #[trigger] old(self).disabled_view()[i] == (x, true);
                    assert(self.disabled_view()[i] == (x, true));
                }
            }
            assert forall|k: int| 0 <= k < self.paths_view().len() implies self.flag_matches(#[trigger] self.paths_view()[k]) by {
                assert(old(self).flag_matches(old(self).paths_view()[k]));
            }
        }
        Ok(())
    }

    /// Whether a pool with identifier `address` is present, whatever its class.
    pub fn is_pool(&self, address: &PoolId) -> (r: bool)
        ensures
            r == self.has_pool(*address),
    {
        self.find_pool(*address).is_some()
    }

    /// The pool with identifier `address`, unless it is absent or of class `Unknown`.
    pub fn get_pool(&self, address: &PoolId) -> (r: Option<Pool>)
        requires
            self.wf(),
        ensures
            r matches Some(p) ==> p.id == *address && self.has_pool_record(p),
            r is None <==> !self.pool_usable(*address),
    {
        match self.find_pool(*address) {
            Some(i) => {
                let p = self.pools[i].pool;
                assert(self.pools_view()[i as int] == self.pools@[i as int]@);
                if p.class == PoolClass::Unknown {
                    proof {
                        if self.pool_usable(*address) {
                            let k = choose|k: int|
                                0 <= k < self.pools_view().len() && (#[trigger] self.pools_view()[k]).pool.id == *address
                                    && self.pools_view()[k].pool.class != PoolClass::Unknown;
                            assert(k == i);
                        }
                    }
                    None
                } else {
                    Some(p)
                }
            },
            None => None,
        }
    }

    /// The pool records, in order of insertion.
    pub fn pools(&self) -> (r: Vec<Pool>)
        ensures
            r@ == self.pools_view().map_values(|w: PoolWrapperView| w.pool),
    {
        let mut r: Vec<Pool> = Vec::new();
        let mut i: usize = 0;
        while i < self.pools.len()
            invariant
                i <= self.pools@.len(),
                r@ == self.pools_view().map_values(|w: PoolWrapperView| w.pool).subrange(0, i as int),
            decreases self.pools.len() - i,
        {
            r.push(self.pools[i].pool);
            i = i + 1;
            assert(r@ =~= self.pools_view().map_values(|w: PoolWrapperView| w.pool).subrange(0, i as int));
        }
        assert(r@ =~= self.pools_view().map_values(|w: PoolWrapperView| w.pool));
        r
    }

    /// The pools that swap `token_from_address` for `token_to_address`, in
    /// insertion order, or `None` when no pool does.
    pub fn get_token_token_pools(&self, token_from_address: &Address, token_to_address: &Address) -> (r: Option<Vec<PoolId>>)
        ensures
            r matches Some(v) ==> v@ == ttp(self.edges_view(), *token_from_address, *token_to_address) && v@.len() > 0,
            r is None ==> ttp(self.edges_view(), *token_from_address, *token_to_address).len() == 0,
    {
        let mut v: Vec<PoolId> = Vec::new();
        let mut i: usize = 0;
        while i < self.edges.len()
            invariant
                i <= self.edges@.len(),
                v@ == ttp(self.edges@.subrange(0, i as int), *token_from_address, *token_to_address),
            decreases self.edges.len() - i,
        {
            let e = self.edges[i];
            assert(self.edges@.subrange(0, i + 1 as int).drop_last() =~= self.edges@.subrange(0, i as int));
            if e.from == *token_from_address && e.to == *token_to_address {
                v.push(e.pool);
            }
            i = i + 1;
        }
        assert(self.edges@.subrange(0, i as int) =~= self.edges@);
        if v.len() == 0 {
            None
        } else {
            Some(v)
        }
    }

    /// The tokens that `token_from_address` swaps to, one per edge, in
    /// insertion order, or `None` when there are none.
    pub fn get_token_tokens(&self, token_from_address: &Address) -> (r: Option<Vec<Address>>)
        ensures
            r matches Some(v) ==> v@ == tt(self.edges_view(), *token_from_address) && v@.len() > 0,
            r is None ==> tt(self.edges_view(), *token_from_address).len() == 0,
    {
        let mut v: Vec<Address> = Vec::new();
        let mut i: usize = 0;
        while i < self.edges.len()
            invariant
                i <= self.edges@.len(),
                v@ == tt(self.edges@.subrange(0, i as int), *token_from_address),
            decreases self.edges.len() - i,
        {
            let e = self.edges[i];
            assert(self.edges@.subrange(0, i + 1 as int).drop_last() =~= self.edges@.subrange(0, i as int));
            if e.from == *token_from_address {
                v.push(e.to);
            }
            i = i + 1;
        }
        assert(self.edges@.subrange(0, i as int) =~= self.edges@);
        if v.len() == 0 {
            None
        } else {
            Some(v)
        }
    }

    /// The pools that swap `token_from_address` for some token, one per
    /// edge, in insertion order, or `None` when there are none.
    pub fn get_token_pools(&self, token_from_address: &Address) -> (r: Option<Vec<PoolId>>)
        ensures
            r matches Some(v) ==> v@ == tp(self.edges_view(), *token_from_address) && v@.len() > 0,
            r is None ==> tp(self.edges_view(), *token_from_address).len() == 0,
    {
        let mut v: Vec<PoolId> = Vec::new();
        let mut i: usize = 0;
        while i < self.edges.len()
            invariant
                i <= self.edges@.len(),
                v@ == tp(self.edges@.subrange(0, i as int), *token_from_address),
            decreases self.edges.len() - i,
        {
            let e = self.edges[i];
            assert(self.edges@.subrange(0, i + 1 as int).drop_last() =~= self.edges@.subrange(0, i as int));
            if e.from == *token_from_address {
                v.push(e.pool);
            }
            i = i + 1;
        }
        assert(self.edges@.subrange(0, i as int) =~= self.edges@);
        if v.len() == 0 {
            None
        } else {
            Some(v)
        }
    }


    /// Whether the pool with identifier `address` is disabled.
    pub fn is_pool_disabled(&self, address: &PoolId) -> (r: bool)
        requires
            self.disabled_unique(),
        ensures
            r == self.pool_disabled(*address),
    {
        match self.find_disabled(*address) {
            Some(i) => {
                let flag = self.pools_disabled[i].1;
                proof {
                    if !flag && self.pool_disabled(*address) {
                        let j = choose|j: int| 0 <= j < self.disabled_view().len() && #[trigger] self.disabled_view()[j] == (*address, true);
                        assert(j != i);
                    }
                }
                flag
            },
            None => {
                proof {
                    if self.pool_disabled(*address) {
                        let j = choose|j: int| 0 <= j < self.disabled_view().len() && #[trigger] self.disabled_view()[j] == (*address, true);
                        assert(self.disabled_view()[j].0 == *address);
                    }
                }
                false
            },
        }
    }

    /// Whether some pool of `path` is disabled.
    fn any_pool_disabled(&self, path: &SwapPath) -> (r: bool)
        requires
            self.disabled_unique(),
        ensures
            r == exists|k: int| 0 <= k < path@.pools.len() && self.pool_disabled(#[trigger] path@.pools[k].id),
    {
        let mut k: usize = 0;
        while k < path.pools.len()
            invariant
                self.disabled_unique(),
                k <= path.pools@.len(),
                forall|j: int| 0 <= j < k ==> !self.pool_disabled(#[trigger] path@.pools[j].id),
            decreases path.pools.len() - k,
        {
            if self.is_pool_disabled(&path.pools[k].id) {
                return true;
            }
            k = k + 1;
        }
        false
    }

    /// Sets the disabled flag of pool `address`, and marks each indexed path
    /// disabled exactly when one of its pools is disabled.
    pub fn set_pool_disabled(&mut self, address: PoolId, disabled: bool)
        requires
            old(self).wf(),
        ensures
            final(self).wf(),
            final(self).pools_view() == old(self).pools_view(),
            final(self).edges_view() == old(self).edges_view(),
            final(self).tokens_view() == old(self).tokens_view(),
            final(self).pool_disabled(address) == disabled,
            forall|x: PoolId| x != address ==> final(self).pool_disabled(x) == old(self).pool_disabled(x),
            final(self).paths_view().len() == old(self).paths_view().len(),
            forall|k: int| 0 <= k < final(self).paths_view().len() ==> same_route(
                #[trigger] final(self).paths_view()[k],
                old(self).paths_view()[k],
            ),
    {
        let ghost old_d = self.disabled_view();
        match self.find_disabled(address) {
            Some(i) => {
                self.pools_disabled.set(i, (address, disabled));
                proof {
                    let d = self.disabled_view();
                    assert(d == old_d.update(i as int, (address, disabled)));
                    assert(old_d[i as int].0 == address);
                    assert forall|x: int, y: int|
                        0 <= x < d.len() && 0 <= y < d.len() && x != y implies (#[trigger] d[x]).0 != (#[trigger] d[y]).0 by {
                        assert(old_d[x].0 == d[x].0 && old_d[y].0 == d[y].0);
                    }
                    assert forall|x: PoolId| x != address implies self.pool_disabled(x) == old(self).pool_disabled(x) by {
                        if old(self).pool_disabled(x) {
                            let j = choose|j: int| 0 <= j < old_d.len() && #[trigger] old_d[j] == (x, true);
                            assert(j != i);
                            assert(d[j] == (x, true));
                        }
                        if self.pool_disabled(x) {
                            let j = choose|j: int| 0 <= j < d.len() && #[trigger] d[j] == (x, true);
                            assert(j != i);
                            assert(old_d[j] == (x, true));
                        }
                    }
                    if disabled {
                        assert(d[i as int] == (address, true));
                    } else if self.pool_disabled(address) {
                        let j = choose|j: int| 0 <= j < d.len() && #[trigger] d[j] == (address, true);
                        assert(j != i);
                        assert(old_d[j].0 == address);
                    }
                }
            },
            None => {
                self.pools_disabled.push((address, disabled));
                proof {
                    let d = self.disabled_view();
                    assert(d == old_d.push((address, disabled)));
                    assert forall|x: int, y: int|
                        0 <= x < d.len() && 0 <= y < d.len() && x != y implies (#[trigger] d[x]).0 != (#[trigger] d[y]).0 by {
                        if x < old_d.len() && y < old_d.len() {
                            assert(old_d[x].0 == d[x].0 && old_d[y].0 == d[y].0);
                        } else if x < old_d.len() {
                            assert(old_d[x].0 == d[x].0);
                        } else {
                            assert(old_d[y].0 == d[y].0);
                        }
                    }
                    assert forall|x: PoolId| x != address implies self.pool_disabled(x) == old(self).pool_disabled(x) by {
                        if old(self).pool_disabled(x) {
                            let j = choose|j: int| 0 <= j < old_d.len() && #[trigger] old_d[j] == (x, true);
                            assert(d[j] == (x, true));
                        }
                        if self.pool_disabled(x) {
                            let j = choose|j: int| 0 <= j < d.len() && #[trigger] d[j] == (x, true);
                            assert(old_d[j] == (x, true));
                        }
                    }
                    if disabled {
                        assert(d[old_d.len() as int] == (address, true));
                    } else if self.pool_disabled(address) {
                        let j = choose|j: int| 0 <= j < d.len() && #[trigger] d[j] == (address, true);
                        if j < old_d.len() {
                            assert(old_d[j].0 == address);
                        }
                    }
                }
            },
        }
        let ghost old_paths = self.paths_view();
        let mut k: usize = 0;
        while k < self.swap_paths.len()
            invariant
                k <= self.swap_paths@.len(),
                self.swap_paths@.len() == old_paths.len(),
                self.pools == old(self).pools,
                self.edges == old(self).edges,
                self.tokens == old(self).tokens,
                self.disabled_unique(),
                self.pools_unique(),
                self.edges_view() == all_edges(self.pools_view()),
                self.tokens_unique(),
                routes_unique(old_paths),
                self.pool_disabled(address) == disabled,
                forall|x: PoolId| x != address ==> self.pool_disabled(x) == old(self).pool_disabled(x),
                forall|j: int| 0 <= j < old_paths.len() ==> same_route(#[trigger] self.paths_view()[j], old_paths[j]),
                forall|j: int| 0 <= j < k ==> self.flag_matches(#[trigger] self.paths_view()[j]),
            decreases self.swap_paths.len() - k,
        {
            proof {
                assert(routes_unique(self.paths_view())) by {
                    assert forall|x: int, y: int| 0 <= x < self.paths_view().len() && 0 <= y < self.paths_view().len() && x != y
                        implies !same_route(#[trigger] self.paths_view()[x], #[trigger] self.paths_view()[y]) by {
                        assert(same_route(self.paths_view()[x], old_paths[x]));
                        assert(same_route(self.paths_view()[y], old_paths[y]));
                    }
                }
            }
            let ghost before = self.paths_view();
            let ghost before_d = self.disabled_view();
            let ghost s0 = *self;
            let ghost prev = self.paths_view()[k as int];
            assert(prev == self.swap_paths@[k as int]@);
            let flag = self.any_pool_disabled(&self.swap_paths[k]);
            let np = self.swap_paths[k].copy_with_flag(flag);
            assert(same_route(np@, prev));
            self.swap_paths.set(k, np);
            assert(self.paths_view()[k as int] == np@);
            assert(self.disabled_view() == before_d);
            assert forall|x: PoolId| self.pool_disabled(x) == s0.pool_disabled(x) by {
                if s0.pool_disabled(x) {
                    let j = choose|j: int| 0 <= j < before_d.len() && #[trigger] before_d[j] == (x, true);
                    assert(self.disabled_view()[j] == (x, true));
                }
            }
            proof {
                assert forall|j: int| 0 <= j < old_paths.len() implies same_route(#[trigger] self.paths_view()[j], old_paths[j]) by {
                    if j != k {
                        assert(self.paths_view()[j] == before[j]);
                    }
                }
                assert forall|j: int| 0 <= j < k + 1 implies self.flag_matches(#[trigger] self.paths_view()[j]) by {
                    if j < k {
                        assert(self.paths_view()[j] == before[j]);
                        assert(s0.flag_matches(before[j]));
                    }
                }
            }
            k = k + 1;
        }
        proof {
            assert forall|x: int, y: int| 0 <= x < self.paths_view().len() && 0 <= y < self.paths_view().len() && x != y
                implies !same_route(#[trigger] self.paths_view()[x], #[trigger] self.paths_view()[y]) by {
                assert(same_route(self.paths_view()[x], old_paths[x]));
                assert(same_route(self.paths_view()[y], old_paths[y]));
            }
        }
    }


    /// The token at `address`, if known.
    pub fn get_token(&self, address: &Address) -> (r: Option<Token>)
        ensures
            r matches Some(t) ==> exists|i: int|
                0 <= i < self.tokens_view().len() && #[trigger] self.tokens_view()[i] == t@ && t@.address == *address,
            r is None <==> !self.has_token(*address),
    {
        match self.find_token(*address) {
            Some(i) => {
                let t = self.tokens[i].duplicate();
                assert(self.tokens_view()[i as int] == t@);
                Some(t)
            },
            None => None,
        }
    }

    /// The token at `address`, or a new plain token there when it is unknown.
    pub fn get_token_or_default(&self, address: &Address) -> (r: Token)
        ensures
            r@.address == *address,
            self.has_token(*address) ==> exists|i: int|
                0 <= i < self.tokens_view().len() && #[trigger] self.tokens_view()[i] == r@,
            !self.has_token(*address) ==> r@ == (TokenView { address: *address, decimals: None, basic: false, middle: false }),
    {
        match self.get_token(address) {
            Some(t) => t,
            None => Token::new(*address),
        }
    }

    fn find_route(&self, path: &SwapPath) -> (r: bool)
        ensures
            r == exists|k: int| 0 <= k < self.paths_view().len() && same_route(#[trigger] self.paths_view()[k], path@),
    {
        let mut k: usize = 0;
        while k < self.swap_paths.len()
            invariant
                k <= self.swap_paths@.len(),
                forall|j: int| 0 <= j < k ==> !same_route(#[trigger] self.paths_view()[j], path@),
            decreases self.swap_paths.len() - k,
        {
            assert(self.paths_view()[k as int] == self.swap_paths@[k as int]@);
            if self.swap_paths[k].same_route_as(path) {
                return true;
            }
            k = k + 1;
        }
        false
    }

    /// Indexes each path whose route is not indexed yet; its disabled flag
    /// says whether one of its pools is disabled.
    pub fn add_paths(&mut self, paths: Vec<SwapPath>)
        requires
            old(self).wf(),
        ensures
            final(self).wf(),
            final(self).pools_view() == old(self).pools_view(),
            final(self).edges_view() == old(self).edges_view(),
            final(self).tokens_view() == old(self).tokens_view(),
            final(self).disabled_view() == old(self).disabled_view(),
            final(self).paths_view().subrange(0, old(self).paths_view().len() as int) == old(self).paths_view(),
            forall|i: int| 0 <= i < paths@.len() ==> route_in_seq(final(self).paths_view(), #[trigger] paths@[i]@),
            forall|k: int| old(self).paths_view().len() <= k < final(self).paths_view().len() ==> route_in_seq(
                paths@.map_values(|p: SwapPath| p@),
                #[trigger] final(self).paths_view()[k],
            ),
    {
        let ghost old_paths = self.paths_view();
        let mut i: usize = 0;
        while i < paths.len()
            invariant
                i <= paths@.len(),
                self.wf(),
                self.pools_view() == old(self).pools_view(),
                self.edges_view() == old(self).edges_view(),
                self.tokens_view() == old(self).tokens_view(),
                self.disabled_view() == old(self).disabled_view(),
                self.paths_view().len() >= old_paths.len(),
                self.paths_view().subrange(0, old_paths.len() as int) == old_paths,
                forall|j: int| 0 <= j < i ==> route_in_seq(self.paths_view(), #[trigger] paths@[j]@),
                forall|k: int| old_paths.len() <= k < self.paths_view().len() ==> route_in_seq(
                    paths@.map_values(|p: SwapPath| p@),
                    #[trigger] self.paths_view()[k],
                ),
            decreases paths.len() - i,
        {
            let path = &paths[i];
            if self.find_route(path) {
                proof {
                    let k = choose|k: int| 0 <= k < self.paths_view().len() && same_route(#[trigger] self.paths_view()[k], path@);
                    assert(route_in_seq(self.paths_view(), paths@[i as int]@));
                }
            } else {
                let flag = self.any_pool_disabled(path);
                let np = path.copy_with_flag(flag);
                let ghost s0 = *self;
                let ghost before = self.paths_view();
                self.swap_paths.push(np);
                proof {
                    assert(self.paths_view() =~= before.push(np@));
                    assert(self.disabled_view() == s0.disabled_view());
                    assert forall|x: PoolId| self.pool_disabled(x) == s0.pool_disabled(x) by {
                        if s0.pool_disabled(x) {
                            let j = choose|j: int| 0 <= j < s0.disabled_view().len() && #[trigger] s0.disabled_view()[j] == (x, true);
                            assert(self.disabled_view()[j] == (x, true));
                        }
                    }
                    assert forall|k: int| 0 <= k < self.paths_view().len() implies self.flag_matches(#[trigger] self.paths_view()[k]) by {
                        if k < before.len() {
                            assert(s0.flag_matches(before[k]));
                        }
                    }
                    assert forall|x: int, y: int| 0 <= x < self.paths_view().len() && 0 <= y < self.paths_view().len() && x != y
                        implies !same_route(#[trigger] self.paths_view()[x], #[trigger] self.paths_view()[y]) by {
                        if x < before.len() && y < before.len() {
                            assert(before[x] == self.paths_view()[x] && before[y] == self.paths_view()[y]);
                        } else if x < before.len() {
                            assert(before[x] == self.paths_view()[x]);
                        } else {
                            assert(before[y] == self.paths_view()[y]);
                        }
                    }
                    assert(self.paths_view().subrange(0, old_paths.len() as int) =~= old_paths) by {
                        assert(before.subrange(0, old_paths.len() as int) == old_paths);
                    }
                    assert forall|j: int| 0 <= j < i + 1 implies route_in_seq(self.paths_view(), #[trigger] paths@[j]@) by {
                        if j < i {
                            assert(route_in_seq(before, paths@[j]@));
                            let k = choose|k: int| 0 <= k < before.len() && same_route(#[trigger] before[k], paths@[j]@);
                            assert(self.paths_view()[k] == before[k]);
                        } else {
                            assert(same_route(self.paths_view()[before.len() as int], paths@[j]@));
                        }
                    }
                    assert forall|k: int| old_paths.len() <= k < self.paths_view().len() implies route_in_seq(
                        paths@.map_values(|p: SwapPath| p@),
                        #[trigger] self.paths_view()[k],
                    ) by {
                        if k < before.len() {
                            assert(self.paths_view()[k] == before[k]);
                            assert(route_in_seq(paths@.map_values(|p: SwapPath| p@), before[k]));
                        } else {
                            assert(same_route(paths@.map_values(|p: SwapPath| p@)[i as int], self.paths_view()[k]));
                        }
                    }
                }
            }
            i = i + 1;
        }
    }

    /// Copies of the indexed paths that go through pool `pool_address`, or
    /// `None` when none does.
    pub fn get_pool_paths(&self, pool_address: &PoolId) -> (r: Option<Vec<SwapPath>>)
        ensures
            r matches Some(v) ==> v@.len() > 0 && v@.map_values(|p: SwapPath| p@) == paths_through(self.paths_view(), *pool_address),
            r is None ==> paths_through(self.paths_view(), *pool_address).len() == 0,
    {
        let mut v: Vec<SwapPath> = Vec::new();
        let mut k: usize = 0;
        while k < self.swap_paths.len()
            invariant
                k <= self.swap_paths@.len(),
                v@.map_values(|p: SwapPath| p@) == paths_through(self.paths_view().subrange(0, k as int), *pool_address),
            decreases self.swap_paths.len() - k,
        {
            assert(self.paths_view().subrange(0, k + 1 as int).drop_last() =~= self.paths_view().subrange(0, k as int));
            assert(self.paths_view()[k as int] == self.swap_paths@[k as int]@);
            if self.swap_paths[k].contains_pool(*pool_address) {
                let c = self.swap_paths[k].copy_with_flag(self.swap_paths[k].disabled);
                let ghost before = v@.map_values(|p: SwapPath| p@);
                v.push(c);
                assert(v@.map_values(|p: SwapPath| p@) =~= before.push(c@));
            }
            k = k + 1;
        }
        assert(self.paths_view().subrange(0, k as int) =~= self.paths_view());
        if v.len() == 0 {
            None
        } else {
            Some(v)
        }
    }

    /// Copies of all indexed paths.
    pub fn swap_paths(&self) -> (r: Vec<SwapPath>)
        ensures
            r@.map_values(|p: SwapPath| p@) == self.paths_view(),
    {
        let mut v: Vec<SwapPath> = Vec::new();
        let mut k: usize = 0;
        while k < self.swap_paths.len()
            invariant
                k <= self.swap_paths@.len(),
                v@.map_values(|p: SwapPath| p@) == self.paths_view().subrange(0, k as int),
            decreases self.swap_paths.len() - k,
        {
            let c = self.swap_paths[k].copy_with_flag(self.swap_paths[k].disabled);
            assert(self.paths_view()[k as int] == c@);
            let ghost before = v@.map_values(|p: SwapPath| p@);
            v.push(c);
            assert(v@.map_values(|p: SwapPath| p@) =~= before.push(c@));
            assert(v@.map_values(|p: SwapPath| p@) =~= self.paths_view().subrange(0, k + 1 as int));
            k = k + 1;
        }
        assert(self.paths_view().subrange(0, k as int) =~= self.paths_view());
        v
    }

    /// The path over the known tokens at `token_address_vec` and the usable
    /// pools with identifiers `pool_address_vec`; `NotFound` when a token is
    /// unknown or a pool is absent or of class `Unknown`.
    pub fn swap_path(&self, token_address_vec: Vec<Address>, pool_address_vec: Vec<PoolId>) -> (r: Result<SwapPath, LoomError>)
        requires
            self.wf(),
        ensures
            r is Ok <==> (forall|i: int| 0 <= i < token_address_vec@.len() ==> self.has_token(#[trigger] token_address_vec@[i]))
                && (forall|i: int| 0 <= i < pool_address_vec@.len() ==> self.pool_usable(#[trigger] pool_address_vec@[i])),
            r is Err ==> r == Err::<SwapPath, LoomError>(LoomError::NotFound),
            r matches Ok(p) ==> p@.tokens == token_address_vec@ && !p@.disabled && p@.pools.len() == pool_address_vec@.len()
                && forall|i: int| 0 <= i < p@.pools.len() ==> (#[trigger] p@.pools[i]).id == pool_address_vec@[i]
                    && self.has_pool_record(p@.pools[i]),
    {
        let mut i: usize = 0;
        while i < token_address_vec.len()
            invariant
                i <= token_address_vec@.len(),
                forall|j: int| 0 <= j < i ==> self.has_token(#[trigger] token_address_vec@[j]),
            decreases token_address_vec.len() - i,
        {
            if self.find_token(token_address_vec[i]).is_none() {
                return Err(LoomError::NotFound);
            }
            i = i + 1;
        }
        let mut pools: Vec<Pool> = Vec::new();
        let mut k: usize = 0;
        while k < pool_address_vec.len()
            invariant
                self.wf(),
                k <= pool_address_vec@.len(),
                pools@.len() == k,
                forall|j: int| 0 <= j < k ==> (#[trigger] pools@[j]).id == pool_address_vec@[j] && self.has_pool_record(pools@[j]),
                forall|j: int| 0 <= j < k ==> self.pool_usable(#[trigger] pool_address_vec@[j]),
            decreases pool_address_vec.len() - k,
        {
            match self.get_pool(&pool_address_vec[k]) {
                Some(p) => {
                    pools.push(p);
                },
                None => {
                    return Err(LoomError::NotFound);
                },
            }
            k = k + 1;
        }
        Ok(SwapPath::new(token_address_vec, pools))
    }

    /// The number of pool entries of `token_address`.
    pub fn get_token_pools_len(&self, token_address: &Address) -> (r: usize)
        ensures
            r == tp(self.edges_view(), *token_address).len(),
    {
        match self.get_token_pools(token_address) {
            Some(v) => v.len(),
            None => 0,
        }
    }
}


/// The paths of `s` that go through pool `id`, in order.
pub open spec fn paths_through(s: Seq<SwapPathView>, id: PoolId) -> Seq<SwapPathView>
    decreases s.len(),
{
    if s.len() == 0 {
        Seq::empty()
    } else if path_has_pool(s.last(), id) {
        paths_through(s.drop_last(), id).push(s.last())
    } else {
        paths_through(s.drop_last(), id)
    }
}

/// The tokens `s` with `t` added: replacing the token at its address,
/// which stays basic if it was, or appended.
pub open spec fn with_token(s: Seq<TokenView>, t: TokenView) -> Seq<TokenView> {
    if exists|i: int| 0 <= i < s.len() && (#[trigger] s[i]).address == t.address {
        let i = choose|i: int| 0 <= i < s.len() && (#[trigger] s[i]).address == t.address;
        s.update(i, TokenView { basic: t.basic || s[i].basic, ..t })
    } else {
        s.push(t)
    }
}

/// The tokens `s` with each of `ts` added in turn.
pub open spec fn with_tokens(s: Seq<TokenView>, ts: Seq<TokenView>) -> Seq<TokenView>
    decreases ts.len(),
{
    if ts.len() == 0 {
        s
    } else {
        with_token(with_tokens(s, ts.drop_last()), ts.last())
    }
}

/// `new` is `old` with token `t` added: replacing the token at its address,
/// which stays basic if it was, or appended.
pub open spec fn token_added(old: &Market, t: TokenView, new: &Market) -> bool {
    &&& old.has_token(t.address) ==> exists|i: int|
        0 <= i < old.tokens_view().len() && (#[trigger] old.tokens_view()[i]).address == t.address
            && new.tokens_view() == old.tokens_view().update(i, TokenView { basic: t.basic || old.tokens_view()[i].basic, ..t })
    &&& !old.has_token(t.address) ==> new.tokens_view() == old.tokens_view().push(t)
}

/// An added token is known, and basic if it was given as basic.
pub proof fn lemma_token_kept(m0: &Market, m1: &Market, t: TokenView)
    requires
        token_added(m0, t, m1),
    ensures
        m1.has_token(t.address),
        t.basic ==> m1.token_basic(t.address),
{
    if m0.has_token(t.address) {
        let i = choose|i: int|
            0 <= i < m0.tokens_view().len() && (#[trigger] m0.tokens_view()[i]).address == t.address
                && m1.tokens_view() == m0.tokens_view().update(i, TokenView { basic: t.basic || m0.tokens_view()[i].basic, ..t });
        assert(m1.tokens_view()[i].address == t.address);
    } else {
        assert(m1.tokens_view()[m0.tokens_view().len() as int] == t);
    }
}

/// Adding a token keeps every known token known, and every basic one basic.
pub proof fn lemma_token_stays(m0: &Market, m1: &Market, t: TokenView, a: Address)
    requires
        token_added(m0, t, m1),
    ensures
        m0.has_token(a) ==> m1.has_token(a),
        m0.token_basic(a) ==> m1.token_basic(a),
{
    if m0.has_token(a) {
        let j = choose|j: int| 0 <= j < m0.tokens_view().len() && (#[trigger] m0.tokens_view()[j]).address == a;
        let jb = if m0.token_basic(a) {
            choose|j: int| 0 <= j < m0.tokens_view().len() && (#[trigger] m0.tokens_view()[j]).address == a && m0.tokens_view()[j].basic
        } else {
            j
        };
        if m0.has_token(t.address) {
            let i = choose|i: int|
                0 <= i < m0.tokens_view().len() && (#[trigger] m0.tokens_view()[i]).address == t.address
                    && m1.tokens_view() == m0.tokens_view().update(i, TokenView { basic: t.basic || m0.tokens_view()[i].basic, ..t });
            assert(m1.tokens_view()[j].address == a);
            assert(m1.tokens_view()[jb].address == a);
            if m0.token_basic(a) {
                assert(m1.tokens_view()[jb].basic);
            }
        } else {
            assert(m1.tokens_view()[j] == m0.tokens_view()[j]);
            assert(m1.tokens_view()[jb] == m0.tokens_view()[jb]);
        }
    }
}

/// `new` is `old` with the pool `w` appended, and its edges after the old ones.
pub open spec fn pool_added(old: &Market, w: PoolWrapperView, new: &Market) -> bool {
    &&& new.pools_view() == old.pools_view().push(w)
    &&& new.edges_view() == old.edges_view() + wrapper_edges(w)
    &&& new.tokens_view() == old.tokens_view()
    &&& new.disabled_view() == old.disabled_view()
    &&& new.paths_view() == old.paths_view()
}

} // verus!

verus! {

/// Every direction `(a, b)` that a pool of the market reports is indexed:
/// the pool is among the pools from `a` to `b` and among the pools of `a`,
/// and `b` is among the tokens that `a` reaches.
pub proof fn lemma_directions_indexed(m: &Market, i: int, j: int)
    requires
        m.wf(),
        0 <= i < m.pools_view().len(),
        0 <= j < m.pools_view()[i].directions.len(),
    ensures
        ttp(m.edges_view(), m.pools_view()[i].directions[j].0, m.pools_view()[i].directions[j].1).contains(
            m.pools_view()[i].pool.id,
        ),
        tt(m.edges_view(), m.pools_view()[i].directions[j].0).contains(m.pools_view()[i].directions[j].1),
        tp(m.edges_view(), m.pools_view()[i].directions[j].0).contains(m.pools_view()[i].pool.id),
{
    let ws = m.pools_view();
    let e = Edge { from: ws[i].directions[j].0, to: ws[i].directions[j].1, pool: ws[i].pool.id };
    lemma_all_edges_has(ws, i, j);
    let k = choose|k: int| 0 <= k < m.edges_view().len() && m.edges_view()[k] == e;
    lemma_edge_listed(m.edges_view(), k);
}

/// A disabled pool disables every indexed path through it.
pub proof fn lemma_disabled_pool_disables_paths(m: &Market, id: PoolId, k: int)
    requires
        m.wf(),
        m.pool_disabled(id),
        0 <= k < m.paths_view().len(),
        path_has_pool(m.paths_view()[k], id),
    ensures
        m.paths_view()[k].disabled,
{
    let p = m.paths_view()[k];
    assert(m.flag_matches(p));
    let j = choose|j: int| 0 <= j < p.pools.len() && (#[trigger] p.pools[j]).id == id;
    assert(m.pool_disabled(p.pools[j].id));
}

/// After a pool has been added, the market holds its identifier, so adding
/// the same pool again fails with `Duplicate` and leaves the market as it is.
pub proof fn lemma_add_pool_twice(m0: &Market, w: PoolWrapperView, m1: &Market)
    requires
        m0.wf(),
        pool_added(m0, w, m1),
    ensures
        m1.has_pool(w.pool.id),
{
    assert(m1.pools_view()[m0.pools_view().len() as int] == w);
}

} // verus!

verus! {

/// A pool listed from `a` to `b` has an edge for that direction.
pub proof fn lemma_ttp_edge(edges: Seq<Edge>, a: Address, b: Address, id: PoolId)
    requires
        ttp(edges, a, b).contains(id),
    ensures
        exists|k: int| 0 <= k < edges.len() && #[trigger] edges[k] == (Edge { from: a, to: b, pool: id }),
    decreases edges.len(),
{
    let prev = ttp(edges.drop_last(), a, b);
    if prev.contains(id) {
        lemma_ttp_edge(edges.drop_last(), a, b, id);
        let k = choose|k: int| 0 <= k < edges.drop_last().len() && #[trigger] edges.drop_last()[k] == (Edge { from: a, to: b, pool: id });
        assert(edges[k] == edges.drop_last()[k]);
    } else {
        let t = ttp(edges, a, b);
        let x = choose|x: int| 0 <= x < t.len() && t[x] == id;
        assert(edges[edges.len() - 1] == (Edge { from: a, to: b, pool: id }));
    }
}

/// Every edge comes from a direction that its pool reported.
pub proof fn lemma_edge_reported(ws: Seq<PoolWrapperView>, k: int)
    requires
        0 <= k < all_edges(ws).len(),
    ensures
        exists|i: int, j: int|
            0 <= i < ws.len() && 0 <= j < ws[i].directions.len() && (#[trigger] ws[i]).pool.id == all_edges(ws)[k].pool
                && #[trigger] ws[i].directions[j] == (all_edges(ws)[k].from, all_edges(ws)[k].to),
    decreases ws.len(),
{
    let prev = all_edges(ws.drop_last());
    let e = all_edges(ws)[k];
    if k < prev.len() {
        assert(prev[k] == e);
        lemma_edge_reported(ws.drop_last(), k);
        let (i, j) = choose|i: int, j: int|
            0 <= i < ws.drop_last().len() && 0 <= j < ws.drop_last()[i].directions.len() && (#[trigger] ws.drop_last()[i]).pool.id
                == prev[k].pool && #[trigger] ws.drop_last()[i].directions[j] == (prev[k].from, prev[k].to);
        assert(ws[i] == ws.drop_last()[i]);
    } else {
        let j = k - prev.len();
        let i = ws.len() - 1;
        assert(wrapper_edges(ws.last())[j] == e);
        assert(ws[i].directions[j] == (e.from, e.to));
    }
}

/// A pool of the market listed from `a` to `b` reports that direction.
pub proof fn lemma_listed_pool_reports(m: &Market, a: Address, b: Address, q: Pool)
    requires
        m.wf(),
        m.has_pool_record(q),
        ttp(m.edges_view(), a, b).contains(q.id),
    ensures
        exists|i: int| 0 <= i < m.pools_view().len() && (#[trigger] m.pools_view()[i]).pool == q && m.pools_view()[i].directions.contains((a, b)),
{
    lemma_ttp_edge(m.edges_view(), a, b, q.id);
    let k = choose|k: int| 0 <= k < m.edges_view().len() && #[trigger] m.edges_view()[k] == (Edge { from: a, to: b, pool: q.id });
    lemma_edge_reported(m.pools_view(), k);
    let ws = m.pools_view();
    let (i, j) = choose|i: int, j: int|
        0 <= i < ws.len() && 0 <= j < ws[i].directions.len() && (#[trigger] ws[i]).pool.id == all_edges(ws)[k].pool
            && #[trigger] ws[i].directions[j] == (all_edges(ws)[k].from, all_edges(ws)[k].to);
    let i0 = choose|i0: int| 0 <= i0 < ws.len() && (#[trigger] ws[i0]).pool == q;
    if i != i0 {
        assert(ws[i].pool.id != ws[i0].pool.id);
    }
    assert(ws[i].directions[j] == (a, b));
}

} // verus!
