//! The decisions of the pool loader: which tasks to fetch, and how a fetched
//! pool joins the market. The fetching itself runs outside the library.
use vstd::prelude::*;
use crate::error::LoomError;
use crate::primitives::Address;
use crate::pool::{Pool, PoolClass, PoolId, PoolWrapper};
use crate::market::{Market, wrapper_edges};
use crate::swap_path::{SwapPathView, path_has_pool, same_route, route_in_seq};
use crate::path_builder::{out_ok, views, built_from, cycle_through, dirs_view, complete, dir_covered, hop_listed};

verus! {

/// The most fetches in flight at once.
pub const MAX_CONCURRENT_TASKS: usize = 20;

/// What to do with a loader task.
#[derive(Clone, Copy, Debug, PartialEq, Eq, Structural)]
pub enum LoaderAction {
    /// Fetch the pool: its identifier was not seen before.
    Fetch(PoolId, PoolClass),
    /// Drop the task: the pool was accepted before.
    Skip,
}

/// The pools that the loader has accepted for fetching, and whether a pool
/// whose fetch failed may be accepted again.
pub struct PoolLoaderState {
    processed_pools: Vec<PoolId>,
    retry_failed: bool,
}

impl PoolLoaderState {
    pub closed spec fn processed(&self) -> Seq<PoolId> {
        self.processed_pools@
    }

    pub closed spec fn retries_failed(&self) -> bool {
        self.retry_failed
    }

    /// A loader that accepts each pool once, whether its fetch succeeds or not.
    pub fn new() -> (r: PoolLoaderState)
        ensures
            r.processed() == Seq::<PoolId>::empty(),
            !r.retries_failed(),
    {
        PoolLoaderState { processed_pools: Vec::new(), retry_failed: false }
    }

    /// A loader that, when `retry_failed` holds, forgets a pool whose fetch
    /// failed, so that a later task for it is accepted again.
    pub fn with_retry(retry_failed: bool) -> (r: PoolLoaderState)
        ensures
            r.processed() == Seq::<PoolId>::empty(),
            r.retries_failed() == retry_failed,
    {
        PoolLoaderState { processed_pools: Vec::new(), retry_failed }
    }

    /// Reports a failed fetch: with retries on, the pool is forgotten and
    /// every other pool stays accepted; otherwise nothing changes.
    pub fn on_fetch_failed(&mut self, pool_id: PoolId)
        ensures
            final(self).retries_failed() == old(self).retries_failed(),
            !old(self).retries_failed() ==> final(self).processed() == old(self).processed(),
            old(self).retries_failed() ==> !final(self).processed().contains(pool_id) && forall|x: PoolId|
                x != pool_id ==> (#[trigger] final(self).processed().contains(x) <==> old(self).processed().contains(x)),
    {
        if !self.retry_failed {
            return;
        }
        let mut kept: Vec<PoolId> = Vec::new();
        let mut k: usize = 0;
        while k < self.processed_pools.len()
            invariant
                k <= self.processed_pools@.len(),
                forall|x: PoolId| #[trigger] kept@.contains(x) <==> (x != pool_id && self.processed_pools@.subrange(0, k as int).contains(x)),
            decreases self.processed_pools.len() - k,
        {
            let id = self.processed_pools[k];
            let ghost before = kept@;
            let ghost pre = self.processed_pools@.subrange(0, k as int);
            let ghost post = self.processed_pools@.subrange(0, k + 1 as int);
            assert(post =~= pre.push(id));
            if id != pool_id {
                kept.push(id);
            }
            proof {
                assert forall|x: PoolId| #[trigger] kept@.contains(x) <==> (x != pool_id && post.contains(x)) by {
                    if post.contains(x) && !pre.contains(x) {
                        let y = choose|y: int| 0 <= y < post.len() && post[y] == x;
                        assert(y == k);
                    }
                    if pre.contains(x) {
                        let y = choose|y: int| 0 <= y < pre.len() && pre[y] == x;
                        assert(post[y] == x);
                    }
                    if kept@.contains(x) && !before.contains(x) {
                        let y = choose|y: int| 0 <= y < kept@.len() && kept@[y] == x;
                        assert(y == before.len());
                    }
                    if before.contains(x) {
                        let y = choose|y: int| 0 <= y < before.len() && before[y] == x;
                        assert(kept@[y] == x);
                    }
                    if id != pool_id && x == id {
                        assert(kept@[before.len() as int] == x);
                        assert(post[k as int] == x);
                    }
                }
            }
            k = k + 1;
        }
        assert(self.processed_pools@.subrange(0, k as int) =~= self.processed_pools@);
        self.processed_pools = kept;
    }

    pub fn is_processed(&self, pool_id: PoolId) -> (r: bool)
        ensures
            r == self.processed().contains(pool_id),
    {
        let mut k: usize = 0;
        while k < self.processed_pools.len()
            invariant
                k <= self.processed_pools@.len(),
                forall|j: int| 0 <= j < k ==> self.processed_pools@[j] != pool_id,
            decreases self.processed_pools.len() - k,
        {
            if self.processed_pools[k] == pool_id {
                assert(self.processed()[k as int] == pool_id);
                return true;
            }
            k = k + 1;
        }
        false
    }

    /// Accepts a pool the first time its identifier comes, and drops it after.
    pub fn on_task(&mut self, pool_id: PoolId, pool_class: PoolClass) -> (r: LoaderAction)
        ensures
            final(self).retries_failed() == old(self).retries_failed(),
            old(self).processed().contains(pool_id) ==> r == LoaderAction::Skip && final(self).processed() == old(self).processed(),
            !old(self).processed().contains(pool_id) ==> task_accepted(old(self), pool_id, final(self)) && r == LoaderAction::Fetch(
                pool_id,
                pool_class,
            ),
    {
        if self.is_processed(pool_id) {
            LoaderAction::Skip
        } else {
            self.processed_pools.push(pool_id);
            LoaderAction::Fetch(pool_id, pool_class)
        }
    }

    /// The tasks of a batch to fetch: in batch order, the first task of
    /// each pool that was not accepted before; their pools become accepted.
    pub fn on_tasks(&mut self, tasks: &Vec<(PoolId, PoolClass)>) -> (r: Vec<(PoolId, PoolClass)>)
        ensures
            final(self).retries_failed() == old(self).retries_failed(),
            r@ == accepted_tasks(old(self).processed(), tasks@),
            final(self).processed() == old(self).processed() + task_ids(r@),
    {
        let ghost old_p = self.processed();
        let mut out: Vec<(PoolId, PoolClass)> = Vec::new();
        let mut k: usize = 0;
        proof {
            assert(tasks@.subrange(0, 0) =~= Seq::<(PoolId, PoolClass)>::empty());
            assert(task_ids(out@) =~= Seq::<PoolId>::empty());
            assert(old_p + task_ids(out@) =~= old_p);
        }
        while k < tasks.len()
            invariant
                k <= tasks@.len(),
                self.retries_failed() == old(self).retries_failed(),
                old_p == old(self).processed(),
                out@ == accepted_tasks(old_p, tasks@.subrange(0, k as int)),
                self.processed() == old_p + task_ids(out@),
            decreases tasks.len() - k,
        {
            let (id, class) = tasks[k];
            let ghost pre = tasks@.subrange(0, k as int);
            let ghost post = tasks@.subrange(0, k + 1 as int);
            proof {
                assert(post.drop_last() =~= pre);
                assert(post.last() == (id, class));
                lemma_concat_contains(old_p, task_ids(out@), id);
            }
            let ghost before = out@;
            match self.on_task(id, class) {
                LoaderAction::Fetch(i, c) => {
                    out.push((i, c));
                    proof {
                        assert(task_ids(out@) =~= task_ids(before).push(id));
                        assert(self.processed() =~= old_p + task_ids(out@));
                    }
                },
                LoaderAction::Skip => {},
            }
            k = k + 1;
        }
        assert(tasks@.subrange(0, k as int) =~= tasks@);
        out
    }
}

/// The pools of a sequence of tasks.
pub open spec fn task_ids(s: Seq<(PoolId, PoolClass)>) -> Seq<PoolId> {
    s.map_values(|t: (PoolId, PoolClass)| t.0)
}

/// The tasks of a batch to fetch: in batch order, the first task of each
/// pool that is neither in `processed` nor taken earlier in the batch.
pub open spec fn accepted_tasks(processed: Seq<PoolId>, tasks: Seq<(PoolId, PoolClass)>) -> Seq<(PoolId, PoolClass)>
    decreases tasks.len(),
{
    if tasks.len() == 0 {
        Seq::empty()
    } else {
        let prev = accepted_tasks(processed, tasks.drop_last());
        if processed.contains(tasks.last().0) || task_ids(prev).contains(tasks.last().0) {
            prev
        } else {
            prev.push(tasks.last())
        }
    }
}

proof fn lemma_concat_contains(a: Seq<PoolId>, b: Seq<PoolId>, x: PoolId)
    ensures
        (a + b).contains(x) <==> (a.contains(x) || b.contains(x)),
{
    if (a + b).contains(x) {
        let i = choose|i: int| 0 <= i < (a + b).len() && (a + b)[i] == x;
        if i >= a.len() {
            assert(b[i - a.len()] == x);
        }
    }
    if a.contains(x) {
        let i = choose|i: int| 0 <= i < a.len() && a[i] == x;
        assert((a + b)[i] == x);
    }
    if b.contains(x) {
        let i = choose|i: int| 0 <= i < b.len() && b[i] == x;
        assert((a + b)[a.len() + i] == x);
    }
}

/// Every accepted task comes from the batch.
proof fn lemma_accepted_from(p: Seq<PoolId>, s: Seq<(PoolId, PoolClass)>, t: (PoolId, PoolClass))
    requires
        accepted_tasks(p, s).contains(t),
    ensures
        s.contains(t),
    decreases s.len(),
{
    let prev = accepted_tasks(p, s.drop_last());
    if prev.contains(t) {
        lemma_accepted_from(p, s.drop_last(), t);
        let i = choose|i: int| 0 <= i < s.drop_last().len() && s.drop_last()[i] == t;
        assert(s[i] == t);
    } else {
        let r = accepted_tasks(p, s);
        let i = choose|i: int| 0 <= i < r.len() && r[i] == t;
        assert(r == prev.push(s.last()));
        assert(i == prev.len());
        assert(s[s.len() - 1] == t);
    }
}

/// A task whose pool was not accepted before and that is the first of its
/// pool in the batch is handed out for fetching.
pub proof fn lemma_new_task_fetched(p: Seq<PoolId>, tasks: Seq<(PoolId, PoolClass)>, i: int)
    requires
        0 <= i < tasks.len(),
        !p.contains(tasks[i].0),
        forall|j: int| 0 <= j < i ==> tasks[j].0 != tasks[i].0,
    ensures
        accepted_tasks(p, tasks).contains(tasks[i]),
{
    lemma_new_task_fetched_prefix(p, tasks, i, tasks.len() as int);
    assert(tasks.subrange(0, tasks.len() as int) =~= tasks);
}

proof fn lemma_new_task_fetched_prefix(p: Seq<PoolId>, tasks: Seq<(PoolId, PoolClass)>, i: int, n: int)
    requires
        0 <= i < n <= tasks.len(),
        !p.contains(tasks[i].0),
        forall|j: int| 0 <= j < i ==> tasks[j].0 != tasks[i].0,
    ensures
        accepted_tasks(p, tasks.subrange(0, n)).contains(tasks[i]),
    decreases n,
{
    let s = tasks.subrange(0, n);
    assert(s.drop_last() =~= tasks.subrange(0, n - 1));
    let prev = accepted_tasks(p, tasks.subrange(0, n - 1));
    if n == i + 1 {
        if task_ids(prev).contains(tasks[i].0) {
            let x = choose|x: int| 0 <= x < task_ids(prev).len() && task_ids(prev)[x] == tasks[i].0;
            assert(prev.contains(prev[x]));
            lemma_accepted_from(p, tasks.subrange(0, n - 1), prev[x]);
            let y = choose|y: int| 0 <= y < tasks.subrange(0, n - 1).len() && #[trigger] tasks.subrange(0, n - 1)[y] == prev[x];
            assert(tasks[y].0 == tasks[i].0);
        }
        let r = accepted_tasks(p, s);
        assert(r[r.len() - 1] == tasks[i]);
    } else {
        lemma_new_task_fetched_prefix(p, tasks, i, n - 1);
        let x = choose|x: int| 0 <= x < prev.len() && prev[x] == tasks[i];
        assert(accepted_tasks(p, s)[x] == tasks[i]);
    }
}


/// Whether a path is a cycle through a seed depends on the pools, edges,
/// flags and tokens of the market, not on its paths.
pub proof fn lemma_cycle_same_market(m1: &Market, m2: &Market, seed: Pool, a: Address, b: Address, p: SwapPathView)
    requires
        m1.pools_view() == m2.pools_view(),
        m1.edges_view() == m2.edges_view(),
        m1.disabled_view() == m2.disabled_view(),
        m1.tokens_view() == m2.tokens_view(),
        cycle_through(m2, seed, a, b, p),
    ensures
        cycle_through(m1, seed, a, b, p),
{
    assert forall|q: Pool| m1.has_pool_record(q) == m2.has_pool_record(q) by {
        if m2.has_pool_record(q) {
            let i = choose|i: int| 0 <= i < m2.pools_view().len() && (#[trigger] m2.pools_view()[i]).pool == q;
            assert(m1.pools_view()[i].pool == q);
        }
        if m1.has_pool_record(q) {
            let i = choose|i: int| 0 <= i < m1.pools_view().len() && (#[trigger] m1.pools_view()[i]).pool == q;
            assert(m2.pools_view()[i].pool == q);
        }
    }
    assert forall|id: PoolId| m1.pool_disabled(id) == m2.pool_disabled(id) by {
        if m2.pool_disabled(id) {
            let i = choose|i: int| 0 <= i < m2.disabled_view().len() && #[trigger] m2.disabled_view()[i] == (id, true);
            assert(m1.disabled_view()[i] == (id, true));
        }
        if m1.pool_disabled(id) {
            let i = choose|i: int| 0 <= i < m1.disabled_view().len() && #[trigger] m1.disabled_view()[i] == (id, true);
            assert(m2.disabled_view()[i] == (id, true));
        }
    }
    assert forall|t: Address| m1.token_basic(t) == m2.token_basic(t) by {
        if m2.token_basic(t) {
            let i = choose|i: int| 0 <= i < m2.tokens_view().len() && (#[trigger] m2.tokens_view()[i]).address == t && m2.tokens_view()[i].basic;
            assert(m1.tokens_view()[i].address == t);
        }
        if m1.token_basic(t) {
            let i = choose|i: int| 0 <= i < m1.tokens_view().len() && (#[trigger] m1.tokens_view()[i]).address == t && m1.tokens_view()[i].basic;
            assert(m2.tokens_view()[i].address == t);
        }
    }
    assert forall|f: Address, t: Address, q: Pool| hop_listed(m1, f, t, q) == hop_listed(m2, f, t, q) by {}
}

/// `new` is `old` with `id` accepted.
pub open spec fn task_accepted(old: &PoolLoaderState, id: PoolId, new: &PoolLoaderState) -> bool {
    new.processed() == old.processed().push(id)
}

/// Once a pool is accepted, a second task for it is dropped: at most one
/// fetch starts per pool.
pub proof fn lemma_task_accepted_once(s0: &PoolLoaderState, id: PoolId, s1: &PoolLoaderState)
    requires
        task_accepted(s0, id, s1),
    ensures
        s1.processed().contains(id),
{
    assert(s1.processed()[s0.processed().len() as int] == id);
}

/// Adds a fetched pool to the market (a pool that is already there is kept
/// as it is), builds the cycles through it from its directions, and indexes
/// them. Every newly indexed path goes through the pool.
pub fn add_pool_and_paths(market: &mut Market, pool: PoolWrapper) -> (r: Result<(), LoomError>)
    requires
        old(market).wf(),
    ensures
        final(market).wf(),
        r is Ok,
        final(market).has_pool(pool.pool.id),
        !old(market).has_pool(pool.pool.id) ==> final(market).pools_view() == old(market).pools_view().push(pool@)
            && final(market).edges_view() == old(market).edges_view() + wrapper_edges(pool@),
        old(market).has_pool(pool.pool.id) ==> final(market).pools_view() == old(market).pools_view()
            && final(market).edges_view() == old(market).edges_view(),
        final(market).tokens_view() == old(market).tokens_view(),
        final(market).disabled_view() == old(market).disabled_view(),
        final(market).paths_view().subrange(0, old(market).paths_view().len() as int) == old(market).paths_view(),
        forall|k: int| old(market).paths_view().len() <= k < final(market).paths_view().len() ==> path_has_pool(
            #[trigger] final(market).paths_view()[k],
            pool.pool.id,
        ),
        forall|j: int, p: SwapPathView| 0 <= j < pool.directions@.len() && #[trigger] cycle_through(
            final(market),
            pool.pool,
            pool.directions@[j].0,
            pool.directions@[j].1,
            p,
        ) ==> route_in_seq(final(market).paths_view(), p),
{
    let seed = pool.pool;
    let directions = pool.get_swap_directions();
    let mut seeds: Vec<(Pool, Vec<(Address, Address)>)> = Vec::new();
    seeds.push((seed, directions));
    let _ = market.add_pool(pool);
    let ghost mid = *market;
    assert(market.has_pool(seed.id)) by {
        if !old(market).has_pool(seed.id) {
            assert(market.pools_view()[old(market).pools_view().len() as int].pool == seed);
        }
    }
    let paths = market.build_swap_path_vec(&seeds)?;
    let ghost dirs = dirs_view(seeds@);
    let ghost pv = views(paths@);
    proof {
        assert(dirs.len() == 1 && dirs[0].0 == seed);
        assert forall|k: int| 0 <= k < pv.len() implies path_has_pool(#[trigger] pv[k], seed.id) by {
            assert(built_from(&mid, dirs, pv[k]));
            let (i, j) = choose|i: int, j: int|
                0 <= i < dirs.len() && 0 <= j < dirs[i].1.len() && cycle_through(&mid, dirs[i].0, #[trigger] dirs[i].1[j].0, dirs[i].1[j].1, pv[k]);
            let s = choose|s: int|
                0 <= s < pv[k].pools.len() && pv[k].pools[s] == seed && pv[k].tokens[s] == dirs[i].1[j].0 && pv[k].tokens[s + 1] == dirs[i].1[j].1
                    && forall|x: int| 0 <= x < pv[k].pools.len() && x != s ==> crate::path_builder::hop_listed(&mid, pv[k].tokens[x], pv[k].tokens[x + 1], #[trigger] pv[k].pools[x]);
            assert(pv[k].pools[s].id == seed.id);
        }
    }
    market.add_paths(paths);
    proof {
        assert(dirs[0].1 == directions@);
        assert forall|j: int, p: SwapPathView| 0 <= j < directions@.len() && #[trigger] cycle_through(
            market,
            seed,
            directions@[j].0,
            directions@[j].1,
            p,
        ) implies route_in_seq(market.paths_view(), p) by {
            lemma_cycle_same_market(&mid, market, seed, directions@[j].0, directions@[j].1, p);
            assert(complete(&mid, dirs, pv));
            assert(dir_covered(&mid, pv, dirs[0].0, dirs[0].1[j].0, dirs[0].1[j].1));
            assert(route_in_seq(pv, p));
            let x = choose|x: int| 0 <= x < pv.len() && same_route(#[trigger] pv[x], p);
            assert(route_in_seq(market.paths_view(), pv[x]));
            let y = choose|y: int| 0 <= y < market.paths_view().len() && same_route(#[trigger] market.paths_view()[y], pv[x]);
            assert(same_route(market.paths_view()[y], p));
        }
        assert forall|k: int| old(market).paths_view().len() <= k < market.paths_view().len() implies path_has_pool(
            #[trigger] market.paths_view()[k],
            seed.id,
        ) by {
            assert(mid.paths_view() == old(market).paths_view());
            assert(route_in_seq(pv, market.paths_view()[k]));
            let x = choose|x: int| 0 <= x < pv.len() && same_route(#[trigger] pv[x], market.paths_view()[k]);
            assert(path_has_pool(pv[x], seed.id));
            let s = choose|s: int| 0 <= s < pv[x].pools.len() && (#[trigger] pv[x].pools[s]).id == seed.id;
            assert(market.paths_view()[k].pools[s].id == seed.id);
        }
    }
    Ok(())
}

} // verus!
