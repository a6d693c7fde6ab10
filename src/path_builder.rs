//! Enumeration of the cycles of two or three hops that start and end at a
//! basic token and take a given pool in a given direction.
use vstd::prelude::*;
use crate::error::LoomError;
use crate::primitives::Address;
use crate::pool::{Pool, PoolId};
use crate::market::{Market, ttp, tt};
use crate::swap_path::{SwapPath, SwapPathView, routes_unique, route_in_seq, same_route};

verus! {

/// Pool `p` is usable for the hop from `from` to `to`: present, of a known
/// class, enabled, and reporting that direction.
pub open spec fn hop_listed(m: &Market, from: Address, to: Address, p: Pool) -> bool {
    &&& m.has_pool_record(p)
    &&& ttp(m.edges_view(), from, to).contains(p.id)
    &&& !m.pool_disabled(p.id)
}

/// `path` is a cycle of two or three hops from a basic token back to it,
/// over distinct tokens and distinct pools, that takes `seed` from `a` to
/// `b` and usable pools for its other hops.
pub open spec fn cycle_through(m: &Market, seed: Pool, a: Address, b: Address, path: SwapPathView) -> bool {
    let n = path.pools.len();
    &&& n == 2 || n == 3
    &&& path.tokens.len() == n + 1
    &&& path.tokens[0] == path.tokens[n as int]
    &&& m.token_basic(path.tokens[0])
    &&& !path.disabled
    &&& forall|x: int, y: int| 0 <= x < y < n ==> (#[trigger] path.tokens[x]) != (#[trigger] path.tokens[y])
    &&& forall|x: int, y: int| 0 <= x < y < n ==> (#[trigger] path.pools[x]).id != (#[trigger] path.pools[y]).id
    &&& exists|s: int|
        0 <= s < n && path.pools[s] == seed && path.tokens[s] == a && path.tokens[s + 1] == b && forall|k: int|
            0 <= k < n && k != s ==> hop_listed(m, path.tokens[k], path.tokens[k + 1], #[trigger] path.pools[k])
}

/// `path` is such a cycle for one of the seed pools and one of its directions.
pub open spec fn built_from(m: &Market, dirs: Seq<(Pool, Seq<(Address, Address)>)>, path: SwapPathView) -> bool {
    exists|i: int, j: int|
        0 <= i < dirs.len() && 0 <= j < dirs[i].1.len() && cycle_through(
            m,
            dirs[i].0,
            #[trigger] dirs[i].1[j].0,
            dirs[i].1[j].1,
            path,
        )
}

pub open spec fn dirs_view(d: Seq<(Pool, Vec<(Address, Address)>)>) -> Seq<(Pool, Seq<(Address, Address)>)> {
    d.map_values(|e: (Pool, Vec<(Address, Address)>)| (e.0, e.1@))
}

pub open spec fn out_ok(m: &Market, dirs: Seq<(Pool, Seq<(Address, Address)>)>, out: Seq<SwapPathView>) -> bool {
    &&& routes_unique(out)
    &&& forall|k: int| 0 <= k < out.len() ==> built_from(m, dirs, #[trigger] out[k])
}

pub open spec fn views(v: Seq<SwapPath>) -> Seq<SwapPathView> {
    v.map_values(|p: SwapPath| p@)
}

pub open spec fn route_view(tokens: Seq<Address>, pools: Seq<Pool>) -> SwapPathView {
    SwapPathView { tokens, pools, disabled: false }
}

proof fn lemma_two_hop(m: &Market, seed: Pool, a: Address, b: Address, q: Pool, seed_first: bool)
    requires
        a != b,
        seed.id != q.id,
        seed_first ==> m.token_basic(a),
        !seed_first ==> m.token_basic(b),
        hop_listed(m, b, a, q),
    ensures
        seed_first ==> cycle_through(m, seed, a, b, route_view(seq![a, b, a], seq![seed, q])),
        !seed_first ==> cycle_through(m, seed, a, b, route_view(seq![b, a, b], seq![q, seed])),
{
    if seed_first {
        let p = route_view(seq![a, b, a], seq![seed, q]);
        assert(p.pools[0] == seed && p.tokens[0] == a && p.tokens[1] == b);
        assert(forall|k: int| 0 <= k < 2 && k != 0 ==> hop_listed(m, p.tokens[k], p.tokens[k + 1], #[trigger] p.pools[k]));
    } else {
        let p = route_view(seq![b, a, b], seq![q, seed]);
        assert(p.pools[1] == seed && p.tokens[1] == a && p.tokens[2] == b);
        assert(forall|k: int| 0 <= k < 2 && k != 1 ==> hop_listed(m, p.tokens[k], p.tokens[k + 1], #[trigger] p.pools[k]));
    }
}

/// The seed first (`[a, b, c, a]`, when `a` is basic) or last
/// (`[b, c, a, b]`, when `b` is basic), with `q1` from `b` to `c` and `q2`
/// from `c` to `a`.
proof fn lemma_three_hop_end(m: &Market, seed: Pool, a: Address, b: Address, c: Address, q1: Pool, q2: Pool, seed_first: bool)
    requires
        a != b && b != c && a != c,
        seed.id != q1.id && seed.id != q2.id && q1.id != q2.id,
        seed_first ==> m.token_basic(a),
        !seed_first ==> m.token_basic(b),
        hop_listed(m, b, c, q1),
        hop_listed(m, c, a, q2),
    ensures
        seed_first ==> cycle_through(m, seed, a, b, route_view(seq![a, b, c, a], seq![seed, q1, q2])),
        !seed_first ==> cycle_through(m, seed, a, b, route_view(seq![b, c, a, b], seq![q1, q2, seed])),
{
    if seed_first {
        let p = route_view(seq![a, b, c, a], seq![seed, q1, q2]);
        assert(p.pools[0] == seed && p.tokens[0] == a && p.tokens[1] == b);
        assert(forall|k: int| 0 <= k < 3 && k != 0 ==> hop_listed(m, p.tokens[k], p.tokens[k + 1], #[trigger] p.pools[k]));
    } else {
        let p = route_view(seq![b, c, a, b], seq![q1, q2, seed]);
        assert(p.pools[2] == seed && p.tokens[2] == a && p.tokens[3] == b);
        assert(forall|k: int| 0 <= k < 3 && k != 2 ==> hop_listed(m, p.tokens[k], p.tokens[k + 1], #[trigger] p.pools[k]));
    }
}

/// The seed in the middle: `[x, a, b, x]` with `q1` from `x` to `a` and `q2`
/// from `b` to `x`.
proof fn lemma_three_hop_middle(m: &Market, seed: Pool, a: Address, b: Address, x: Address, q1: Pool, q2: Pool)
    requires
        a != b && b != x && a != x,
        seed.id != q1.id && seed.id != q2.id && q1.id != q2.id,
        m.token_basic(x),
        hop_listed(m, x, a, q1),
        hop_listed(m, b, x, q2),
    ensures
        cycle_through(m, seed, a, b, route_view(seq![x, a, b, x], seq![q1, seed, q2])),
{
    let p = route_view(seq![x, a, b, x], seq![q1, seed, q2]);
    assert(p.pools[1] == seed && p.tokens[1] == a && p.tokens[2] == b);
    assert(forall|k: int| 0 <= k < 3 && k != 1 ==> hop_listed(m, p.tokens[k], p.tokens[k + 1], #[trigger] p.pools[k]));
}

fn three(a: Address, b: Address, c: Address) -> (r: Vec<Address>)
    ensures
        r@ == seq![a, b, c],
{
    let mut r: Vec<Address> = Vec::new();
    r.push(a);
    r.push(b);
    r.push(c);
    assert(r@ =~= seq![a, b, c]);
    r
}

fn four(a: Address, b: Address, c: Address, d: Address) -> (r: Vec<Address>)
    ensures
        r@ == seq![a, b, c, d],
{
    let mut r: Vec<Address> = Vec::new();
    r.push(a);
    r.push(b);
    r.push(c);
    r.push(d);
    assert(r@ =~= seq![a, b, c, d]);
    r
}

fn two_pools(p: Pool, q: Pool) -> (r: Vec<Pool>)
    ensures
        r@ == seq![p, q],
{
    let mut r: Vec<Pool> = Vec::new();
    r.push(p);
    r.push(q);
    assert(r@ =~= seq![p, q]);
    r
}

fn three_pools(p: Pool, q: Pool, u: Pool) -> (r: Vec<Pool>)
    ensures
        r@ == seq![p, q, u],
{
    let mut r: Vec<Pool> = Vec::new();
    r.push(p);
    r.push(q);
    r.push(u);
    assert(r@ =~= seq![p, q, u]);
    r
}

/// `b` extends `a`.
pub open spec fn grows(a: Seq<SwapPathView>, b: Seq<SwapPathView>) -> bool {
    b.len() >= a.len() && b.subrange(0, a.len() as int) == a
}

proof fn lemma_route_in_grows(a: Seq<SwapPathView>, b: Seq<SwapPathView>, c: SwapPathView)
    requires
        grows(a, b),
        route_in_seq(a, c),
    ensures
        route_in_seq(b, c),
{
    let k = choose|k: int| 0 <= k < a.len() && same_route(#[trigger] a[k], c);
    assert(b.subrange(0, a.len() as int)[k] == b[k]);
}

proof fn lemma_grows_trans(a: Seq<SwapPathView>, b: Seq<SwapPathView>, c: Seq<SwapPathView>)
    requires
        grows(a, b),
        grows(b, c),
    ensures
        grows(a, c),
{
    assert forall|x: int| 0 <= x < a.len() implies #[trigger] c.subrange(0, a.len() as int)[x] == a[x] by {
        assert(c.subrange(0, b.len() as int)[x] == c[x]);
        assert(b.subrange(0, a.len() as int)[x] == b[x]);
    }
    assert(c.subrange(0, a.len() as int) =~= a);
}

proof fn lemma_grows_refl(a: Seq<SwapPathView>)
    ensures
        grows(a, a),
{
    assert(a.subrange(0, a.len() as int) =~= a);
}

proof fn lemma_ttp_in_tt(edges: Seq<crate::market::Edge>, a: Address, b: Address, id: PoolId)
    requires
        ttp(edges, a, b).contains(id),
    ensures
        tt(edges, a).contains(b),
    decreases edges.len(),
{
    if edges.len() > 0 {
        let last = edges.last();
        if last.from == a && last.to == b {
            let t = tt(edges, a);
            assert(t[t.len() - 1] == b);
        } else {
            lemma_ttp_in_tt(edges.drop_last(), a, b, id);
            let t0 = tt(edges.drop_last(), a);
            let x = choose|x: int| 0 <= x < t0.len() && #[trigger] t0[x] == b;
            assert(tt(edges, a)[x] == b);
        }
    }
}

/// The two-hop cycles through `seed` from `a` to `b` over `q` are in `out`.
pub open spec fn two_case(m: &Market, out: Seq<SwapPathView>, seed: Pool, a: Address, b: Address, q: Pool) -> bool {
    (hop_listed(m, b, a, q) && q.id != seed.id) ==> (m.token_basic(a) ==> route_in_seq(out, route_view(seq![a, b, a], seq![seed, q])))
        && (m.token_basic(b) ==> route_in_seq(out, route_view(seq![b, a, b], seq![q, seed])))
}

/// The three-hop cycles with `seed` at an end, over `c`, `q1` and `q2`, are in `out`.
pub open spec fn end_case(m: &Market, out: Seq<SwapPathView>, seed: Pool, a: Address, b: Address, c: Address, q1: Pool, q2: Pool) -> bool {
    (c != a && c != b && hop_listed(m, b, c, q1) && hop_listed(m, c, a, q2) && seed.id != q1.id && seed.id != q2.id && q1.id != q2.id)
        ==> (m.token_basic(a) ==> route_in_seq(out, route_view(seq![a, b, c, a], seq![seed, q1, q2])))
        && (m.token_basic(b) ==> route_in_seq(out, route_view(seq![b, c, a, b], seq![q1, q2, seed])))
}

/// The three-hop cycle with `seed` in the middle, over `x`, `q1` and `q2`, is in `out`.
pub open spec fn mid_case(m: &Market, out: Seq<SwapPathView>, seed: Pool, a: Address, b: Address, x: Address, q1: Pool, q2: Pool) -> bool {
    (x != a && x != b && m.token_basic(x) && hop_listed(m, x, a, q1) && hop_listed(m, b, x, q2) && seed.id != q1.id && seed.id
        != q2.id && q1.id != q2.id) ==> route_in_seq(out, route_view(seq![x, a, b, x], seq![q1, seed, q2]))
}

/// Every cycle through a seed pool in one of its directions is in `out`.
pub open spec fn complete(m: &Market, dirs: Seq<(Pool, Seq<(Address, Address)>)>, out: Seq<SwapPathView>) -> bool {
    forall|i: int, j: int| 0 <= i < dirs.len() && 0 <= j < dirs[i].1.len() ==> #[trigger] dir_covered(m, out, dirs[i].0, dirs[i].1[j].0, dirs[i].1[j].1)
}

/// Every cycle through `seed` from `a` to `b` is in `out`.
pub open spec fn dir_covered(m: &Market, out: Seq<SwapPathView>, seed: Pool, a: Address, b: Address) -> bool {
    forall|p: SwapPathView| cycle_through(m, seed, a, b, p) ==> #[trigger] route_in_seq(out, p)
}

proof fn lemma_two_grows(m: &Market, o1: Seq<SwapPathView>, o2: Seq<SwapPathView>, seed: Pool, a: Address, b: Address)
    requires
        grows(o1, o2),
        forall|q: Pool| #[trigger] two_case(m, o1, seed, a, b, q),
    ensures
        forall|q: Pool| #[trigger] two_case(m, o2, seed, a, b, q),
{
    assert forall|q: Pool| #[trigger] two_case(m, o2, seed, a, b, q) by {
        assert(two_case(m, o1, seed, a, b, q));
        if hop_listed(m, b, a, q) && q.id != seed.id {
            if m.token_basic(a) {
                lemma_route_in_grows(o1, o2, route_view(seq![a, b, a], seq![seed, q]));
            }
            if m.token_basic(b) {
                lemma_route_in_grows(o1, o2, route_view(seq![b, a, b], seq![q, seed]));
            }
        }
    }
}

proof fn lemma_two_grows_one(m: &Market, o1: Seq<SwapPathView>, o2: Seq<SwapPathView>, seed: Pool, a: Address, b: Address, q: Pool)
    requires
        grows(o1, o2),
        two_case(m, o1, seed, a, b, q),
    ensures
        two_case(m, o2, seed, a, b, q),
{
    if hop_listed(m, b, a, q) && q.id != seed.id {
        if m.token_basic(a) {
            lemma_route_in_grows(o1, o2, route_view(seq![a, b, a], seq![seed, q]));
        }
        if m.token_basic(b) {
            lemma_route_in_grows(o1, o2, route_view(seq![b, a, b], seq![q, seed]));
        }
    }
}

proof fn lemma_end_grows(m: &Market, o1: Seq<SwapPathView>, o2: Seq<SwapPathView>, seed: Pool, a: Address, b: Address, c: Address, q1: Pool, q2: Pool)
    requires
        grows(o1, o2),
        end_case(m, o1, seed, a, b, c, q1, q2),
    ensures
        end_case(m, o2, seed, a, b, c, q1, q2),
{
    if c != a && c != b && hop_listed(m, b, c, q1) && hop_listed(m, c, a, q2) && seed.id != q1.id && seed.id != q2.id && q1.id != q2.id {
        if m.token_basic(a) {
            lemma_route_in_grows(o1, o2, route_view(seq![a, b, c, a], seq![seed, q1, q2]));
        }
        if m.token_basic(b) {
            lemma_route_in_grows(o1, o2, route_view(seq![b, c, a, b], seq![q1, q2, seed]));
        }
    }
}

proof fn lemma_mid_grows(m: &Market, o1: Seq<SwapPathView>, o2: Seq<SwapPathView>, seed: Pool, a: Address, b: Address, x: Address, q1: Pool, q2: Pool)
    requires
        grows(o1, o2),
        mid_case(m, o1, seed, a, b, x, q1, q2),
    ensures
        mid_case(m, o2, seed, a, b, x, q1, q2),
{
    if x != a && x != b && m.token_basic(x) && hop_listed(m, x, a, q1) && hop_listed(m, b, x, q2) && seed.id != q1.id && seed.id != q2.id && q1.id != q2.id {
        lemma_route_in_grows(o1, o2, route_view(seq![x, a, b, x], seq![q1, seed, q2]));
    }
}

proof fn lemma_dir_grows(m: &Market, o1: Seq<SwapPathView>, o2: Seq<SwapPathView>, seed: Pool, a: Address, b: Address)
    requires
        grows(o1, o2),
        dir_covered(m, o1, seed, a, b),
    ensures
        dir_covered(m, o2, seed, a, b),
{
    assert forall|p: SwapPathView| cycle_through(m, seed, a, b, p) implies #[trigger] route_in_seq(o2, p) by {
        assert(route_in_seq(o1, p));
        lemma_route_in_grows(o1, o2, p);
    }
}

proof fn lemma_route_same(out: Seq<SwapPathView>, c: SwapPathView, p: SwapPathView)
    requires
        route_in_seq(out, c),
        c.tokens == p.tokens,
        c.pools == p.pools,
    ensures
        route_in_seq(out, p),
{
    let k = choose|k: int| 0 <= k < out.len() && same_route(#[trigger] out[k], c);
    assert(same_route(out[k], p));
}

/// Every cycle falls in one of the cases that the enumeration covers.
proof fn lemma_cycle_covered(m: &Market, out: Seq<SwapPathView>, seed: Pool, a: Address, b: Address, p: SwapPathView)
    requires
        cycle_through(m, seed, a, b, p),
        forall|q: Pool| #[trigger] two_case(m, out, seed, a, b, q),
        forall|c: Address, q1: Pool, q2: Pool| #[trigger] end_case(m, out, seed, a, b, c, q1, q2),
        forall|x: Address, q1: Pool, q2: Pool| #[trigger] mid_case(m, out, seed, a, b, x, q1, q2),
    ensures
        route_in_seq(out, p),
{
    let n = p.pools.len();
    let s = choose|s: int|
        0 <= s < n && p.pools[s] == seed && p.tokens[s] == a && p.tokens[s + 1] == b && forall|k: int|
            0 <= k < n && k != s ==> hop_listed(m, p.tokens[k], p.tokens[k + 1], #[trigger] p.pools[k]);
    let t = p.tokens;
    let ps = p.pools;
    if n == 2 {
        assert(t[0] != t[1]);
        assert(ps[0].id != ps[1].id);
        if s == 0 {
            let q = ps[1];
            assert(hop_listed(m, t[1], t[2], ps[1]));
            assert(two_case(m, out, seed, a, b, q));
            assert(t =~= seq![a, b, a]);
            assert(ps =~= seq![seed, q]);
            lemma_route_same(out, route_view(seq![a, b, a], seq![seed, q]), p);
        } else {
            let q = ps[0];
            assert(hop_listed(m, t[0], t[1], ps[0]));
            assert(two_case(m, out, seed, a, b, q));
            assert(t =~= seq![b, a, b]);
            assert(ps =~= seq![q, seed]);
            lemma_route_same(out, route_view(seq![b, a, b], seq![q, seed]), p);
        }
    } else {
        assert(t[0] != t[1] && t[0] != t[2] && t[1] != t[2]);
        assert(ps[0].id != ps[1].id && ps[0].id != ps[2].id && ps[1].id != ps[2].id);
        if s == 0 {
            let (c, q1, q2) = (t[2], ps[1], ps[2]);
            assert(hop_listed(m, t[1], t[2], ps[1]));
            assert(hop_listed(m, t[2], t[3], ps[2]));
            assert(end_case(m, out, seed, a, b, c, q1, q2));
            assert(t =~= seq![a, b, c, a]);
            assert(ps =~= seq![seed, q1, q2]);
            lemma_route_same(out, route_view(seq![a, b, c, a], seq![seed, q1, q2]), p);
        } else if s == 2 {
            let (c, q1, q2) = (t[1], ps[0], ps[1]);
            assert(hop_listed(m, t[0], t[1], ps[0]));
            assert(hop_listed(m, t[1], t[2], ps[1]));
            assert(end_case(m, out, seed, a, b, c, q1, q2));
            assert(t =~= seq![b, c, a, b]);
            assert(ps =~= seq![q1, q2, seed]);
            lemma_route_same(out, route_view(seq![b, c, a, b], seq![q1, q2, seed]), p);
        } else {
            let (x, q1, q2) = (t[0], ps[0], ps[2]);
            assert(hop_listed(m, t[0], t[1], ps[0]));
            assert(hop_listed(m, t[2], t[3], ps[2]));
            assert(mid_case(m, out, seed, a, b, x, q1, q2));
            assert(t =~= seq![x, a, b, x]);
            assert(ps =~= seq![q1, seed, q2]);
            lemma_route_same(out, route_view(seq![x, a, b, x], seq![q1, seed, q2]), p);
        }
    }
}

/// `out` with the route of `c` appended unless it is there already.
pub open spec fn add_route(out: Seq<SwapPathView>, c: SwapPathView) -> Seq<SwapPathView> {
    if route_in_seq(out, c) {
        out
    } else {
        out.push(c)
    }
}

/// `out` with each of `cs` added in turn by `add_route`.
pub open spec fn add_routes(out: Seq<SwapPathView>, cs: Seq<SwapPathView>) -> Seq<SwapPathView>
    decreases cs.len(),
{
    if cs.len() == 0 {
        out
    } else {
        add_route(add_routes(out, cs.drop_last()), cs.last())
    }
}

proof fn lemma_add_routes_concat(out: Seq<SwapPathView>, a: Seq<SwapPathView>, b: Seq<SwapPathView>)
    ensures
        add_routes(out, a + b) == add_routes(add_routes(out, a), b),
    decreases b.len(),
{
    if b.len() == 0 {
        assert(a + b =~= a);
    } else {
        assert((a + b).drop_last() =~= a + b.drop_last());
        assert((a + b).last() == b.last());
        lemma_add_routes_concat(out, a, b.drop_last());
    }
}

proof fn lemma_add_routes_one(out: Seq<SwapPathView>, c: SwapPathView)
    ensures
        add_routes(out, seq![c]) == add_route(out, c),
{
    assert(seq![c].drop_last() =~= Seq::<SwapPathView>::empty());
    assert(add_routes(out, seq![c].drop_last()) == out);
    assert(seq![c].last() == c);
}

proof fn lemma_add_two(out: Seq<SwapPathView>, ca: SwapPathView, cb: SwapPathView, ra: bool, rb: bool)
    ensures
        add_routes(out, opt_route(ra, ca) + opt_route(rb, cb)) == (if rb {
            add_route(if ra { add_route(out, ca) } else { out }, cb)
        } else {
            if ra { add_route(out, ca) } else { out }
        }),
{
    lemma_add_routes_concat(out, opt_route(ra, ca), opt_route(rb, cb));
    if ra {
        lemma_add_routes_one(out, ca);
    } else {
        assert(add_routes(out, opt_route(ra, ca)) == out);
    }
    let o2 = add_routes(out, opt_route(ra, ca));
    if rb {
        lemma_add_routes_one(o2, cb);
    } else {
        assert(add_routes(o2, opt_route(rb, cb)) == o2);
    }
}

proof fn lemma_add_opt(out: Seq<SwapPathView>, c: SwapPathView, r: bool)
    ensures
        add_routes(out, opt_route(r, c)) == (if r { add_route(out, c) } else { out }),
{
    if r {
        lemma_add_routes_one(out, c);
    } else {
        assert(add_routes(out, opt_route(r, c)) == out);
    }
}

proof fn lemma_end_outer_empty(m: &Market, seed: Pool, a: Address, b: Address, c: Address, ids1: Seq<PoolId>, ids2: Seq<PoolId>)
    requires
        ids2.len() == 0,
    ensures
        end_cands_outer(m, seed, a, b, c, ids1, ids2) =~= Seq::<SwapPathView>::empty(),
    decreases ids1.len(),
{
    if ids1.len() > 0 {
        lemma_end_outer_empty(m, seed, a, b, c, ids1.drop_last(), ids2);
        assert(end_cands_q1(m, seed, a, b, c, ids1.last(), ids2) =~= Seq::<SwapPathView>::empty());
    }
}

proof fn lemma_mid_outer_empty(m: &Market, seed: Pool, a: Address, b: Address, x: Address, ids1: Seq<PoolId>, ids2: Seq<PoolId>)
    requires
        ids2.len() == 0,
    ensures
        mid_cands_outer(m, seed, a, b, x, ids1, ids2) =~= Seq::<SwapPathView>::empty(),
    decreases ids1.len(),
{
    if ids1.len() > 0 {
        lemma_mid_outer_empty(m, seed, a, b, x, ids1.drop_last(), ids2);
        assert(mid_cands_q1(m, seed, a, b, x, ids1.last(), ids2) =~= Seq::<SwapPathView>::empty());
    }
}

/// The enabled pool of a known class with identifier `id`, if any.
pub open spec fn enabled_of(m: &Market, id: PoolId) -> Option<Pool> {
    if exists|q: Pool| #[trigger] m.has_pool_record(q) && q.id == id && !m.pool_disabled(id) {
        Some(choose|q: Pool| #[trigger] m.has_pool_record(q) && q.id == id && !m.pool_disabled(id))
    } else {
        None
    }
}

pub open spec fn opt_route(cond: bool, c: SwapPathView) -> Seq<SwapPathView> {
    if cond {
        seq![c]
    } else {
        Seq::empty()
    }
}

/// The two-hop candidates over pool `id` from `b` back to `a`, in the order
/// they are tried: with `seed` first, then with `seed` last.
pub open spec fn two_cands_for(m: &Market, seed: Pool, a: Address, b: Address, id: PoolId) -> Seq<SwapPathView> {
    match enabled_of(m, id) {
        Some(q) => if q.id != seed.id {
            opt_route(m.token_basic(a), route_view(seq![a, b, a], seq![seed, q])) + opt_route(
                m.token_basic(b),
                route_view(seq![b, a, b], seq![q, seed]),
            )
        } else {
            Seq::empty()
        },
        None => Seq::empty(),
    }
}

pub open spec fn two_cands(m: &Market, seed: Pool, a: Address, b: Address, ids: Seq<PoolId>) -> Seq<SwapPathView>
    decreases ids.len(),
{
    if ids.len() == 0 {
        Seq::empty()
    } else {
        two_cands(m, seed, a, b, ids.drop_last()) + two_cands_for(m, seed, a, b, ids.last())
    }
}

/// The three-hop candidates with `seed` at an end over `q1` and pool `id2`.
pub open spec fn end_cands_q2(m: &Market, seed: Pool, a: Address, b: Address, c: Address, q1: Pool, id2: PoolId) -> Seq<SwapPathView> {
    match enabled_of(m, id2) {
        Some(q2) => if q2.id != seed.id && q2.id != q1.id {
            opt_route(m.token_basic(a), route_view(seq![a, b, c, a], seq![seed, q1, q2])) + opt_route(
                m.token_basic(b),
                route_view(seq![b, c, a, b], seq![q1, q2, seed]),
            )
        } else {
            Seq::empty()
        },
        None => Seq::empty(),
    }
}

pub open spec fn end_cands_inner(m: &Market, seed: Pool, a: Address, b: Address, c: Address, q1: Pool, ids2: Seq<PoolId>) -> Seq<SwapPathView>
    decreases ids2.len(),
{
    if ids2.len() == 0 {
        Seq::empty()
    } else {
        end_cands_inner(m, seed, a, b, c, q1, ids2.drop_last()) + end_cands_q2(m, seed, a, b, c, q1, ids2.last())
    }
}

pub open spec fn end_cands_q1(m: &Market, seed: Pool, a: Address, b: Address, c: Address, id1: PoolId, ids2: Seq<PoolId>) -> Seq<SwapPathView> {
    match enabled_of(m, id1) {
        Some(q1) => if q1.id != seed.id { end_cands_inner(m, seed, a, b, c, q1, ids2) } else { Seq::empty() },
        None => Seq::empty(),
    }
}

pub open spec fn end_cands_outer(m: &Market, seed: Pool, a: Address, b: Address, c: Address, ids1: Seq<PoolId>, ids2: Seq<PoolId>) -> Seq<SwapPathView>
    decreases ids1.len(),
{
    if ids1.len() == 0 {
        Seq::empty()
    } else {
        end_cands_outer(m, seed, a, b, c, ids1.drop_last(), ids2) + end_cands_q1(m, seed, a, b, c, ids1.last(), ids2)
    }
}

/// The three-hop candidates with `seed` at an end over the token `c`.
pub open spec fn end_cands_c(m: &Market, seed: Pool, a: Address, b: Address, c: Address) -> Seq<SwapPathView> {
    if c != a && c != b {
        end_cands_outer(m, seed, a, b, c, ttp(m.edges_view(), b, c), ttp(m.edges_view(), c, a))
    } else {
        Seq::empty()
    }
}

pub open spec fn end_cands(m: &Market, seed: Pool, a: Address, b: Address, cs: Seq<Address>) -> Seq<SwapPathView>
    decreases cs.len(),
{
    if cs.len() == 0 {
        Seq::empty()
    } else {
        end_cands(m, seed, a, b, cs.drop_last()) + end_cands_c(m, seed, a, b, cs.last())
    }
}

/// The three-hop candidate with `seed` in the middle over `q1` and pool `id2`.
pub open spec fn mid_cands_q2(m: &Market, seed: Pool, a: Address, b: Address, x: Address, q1: Pool, id2: PoolId) -> Seq<SwapPathView> {
    match enabled_of(m, id2) {
        Some(q2) => opt_route(q2.id != seed.id && q2.id != q1.id, route_view(seq![x, a, b, x], seq![q1, seed, q2])),
        None => Seq::empty(),
    }
}

pub open spec fn mid_cands_inner(m: &Market, seed: Pool, a: Address, b: Address, x: Address, q1: Pool, ids2: Seq<PoolId>) -> Seq<SwapPathView>
    decreases ids2.len(),
{
    if ids2.len() == 0 {
        Seq::empty()
    } else {
        mid_cands_inner(m, seed, a, b, x, q1, ids2.drop_last()) + mid_cands_q2(m, seed, a, b, x, q1, ids2.last())
    }
}

pub open spec fn mid_cands_q1(m: &Market, seed: Pool, a: Address, b: Address, x: Address, id1: PoolId, ids2: Seq<PoolId>) -> Seq<SwapPathView> {
    match enabled_of(m, id1) {
        Some(q1) => if q1.id != seed.id { mid_cands_inner(m, seed, a, b, x, q1, ids2) } else { Seq::empty() },
        None => Seq::empty(),
    }
}

pub open spec fn mid_cands_outer(m: &Market, seed: Pool, a: Address, b: Address, x: Address, ids1: Seq<PoolId>, ids2: Seq<PoolId>) -> Seq<SwapPathView>
    decreases ids1.len(),
{
    if ids1.len() == 0 {
        Seq::empty()
    } else {
        mid_cands_outer(m, seed, a, b, x, ids1.drop_last(), ids2) + mid_cands_q1(m, seed, a, b, x, ids1.last(), ids2)
    }
}

/// The three-hop candidates with `seed` in the middle over the token `x`.
pub open spec fn mid_cands_x(m: &Market, seed: Pool, a: Address, b: Address, x: Address) -> Seq<SwapPathView> {
    if x != a && x != b && m.token_basic(x) {
        mid_cands_outer(m, seed, a, b, x, ttp(m.edges_view(), x, a), ttp(m.edges_view(), b, x))
    } else {
        Seq::empty()
    }
}

pub open spec fn mid_cands(m: &Market, seed: Pool, a: Address, b: Address, xs: Seq<Address>) -> Seq<SwapPathView>
    decreases xs.len(),
{
    if xs.len() == 0 {
        Seq::empty()
    } else {
        mid_cands(m, seed, a, b, xs.drop_last()) + mid_cands_x(m, seed, a, b, xs.last())
    }
}

/// The candidates of one direction, in the order they are tried: two hops
/// over each pool from `b` to `a`, three hops with the seed at an end over
/// each token that `b` reaches, then three hops with the seed in the middle
/// over each such token; each list follows the market's insertion order.
pub open spec fn dir_cands(m: &Market, seed: Pool, a: Address, b: Address) -> Seq<SwapPathView> {
    if a == b {
        Seq::empty()
    } else {
        (if m.token_basic(a) || m.token_basic(b) {
            two_cands(m, seed, a, b, ttp(m.edges_view(), b, a)) + end_cands(m, seed, a, b, tt(m.edges_view(), b))
        } else {
            Seq::empty()
        }) + mid_cands(m, seed, a, b, tt(m.edges_view(), b))
    }
}

pub open spec fn seed_cands(m: &Market, seed: Pool, ds: Seq<(Address, Address)>) -> Seq<SwapPathView>
    decreases ds.len(),
{
    if ds.len() == 0 {
        Seq::empty()
    } else {
        seed_cands(m, seed, ds.drop_last()) + dir_cands(m, seed, ds.last().0, ds.last().1)
    }
}

/// All candidates, seed after seed and direction after direction.
pub open spec fn all_cands(m: &Market, dirs: Seq<(Pool, Seq<(Address, Address)>)>) -> Seq<SwapPathView>
    decreases dirs.len(),
{
    if dirs.len() == 0 {
        Seq::empty()
    } else {
        all_cands(m, dirs.drop_last()) + seed_cands(m, dirs.last().0, dirs.last().1)
    }
}

impl Market {
    /// The usable, enabled pool with identifier `id`: the one record of a
    /// present pool of a known class with that identifier, if it is enabled.
    fn enabled_pool(&self, id: PoolId) -> (r: Option<Pool>)
        requires
            self.wf(),
        ensures
            r matches Some(p) ==> p.id == id && self.has_pool_record(p) && !self.pool_disabled(id) && forall|q: Pool|
                #[trigger] self.has_pool_record(q) && q.id == id ==> q == p,
            r is None ==> forall|q: Pool| #[trigger] self.has_pool_record(q) && q.id == id ==> self.pool_disabled(id),
            r == enabled_of(self, id),
    {
        match self.get_pool(&id) {
            Some(p) => {
                proof {
                    assert forall|q: Pool| #[trigger] self.has_pool_record(q) && q.id == id implies q == p by {
                        let i = choose|i: int| 0 <= i < self.pools_view().len() && (#[trigger] self.pools_view()[i]).pool == q;
                        let i2 = choose|i: int| 0 <= i < self.pools_view().len() && (#[trigger] self.pools_view()[i]).pool == p;
                        if i != i2 {
                            assert(self.pools_view()[i].pool.id != self.pools_view()[i2].pool.id);
                        }
                    }
                }
                if self.is_pool_disabled(&id) {
                    None
                } else {
                    proof {
                        assert(self.has_pool_record(p) && p.id == id && !self.pool_disabled(id));
                        let c = choose|q: Pool| #[trigger] self.has_pool_record(q) && q.id == id && !self.pool_disabled(id);
                        assert(c == p);
                    }
                    Some(p)
                }
            },
            None => {
                proof {
                    assert forall|q: Pool| #[trigger] self.has_pool_record(q) && q.id == id implies self.pool_disabled(id) by {
                        let i = choose|i: int| 0 <= i < self.pools_view().len() && (#[trigger] self.pools_view()[i]).pool == q;
                        assert(self.pool_usable(id));
                    }
                }
                None
            },
        }
    }

    /// Appends a cycle that takes seed `i` in its direction `j`.
    fn add_cycle(
        &self,
        out: &mut Vec<SwapPath>,
        tokens: Vec<Address>,
        pools: Vec<Pool>,
        Ghost(dirs): Ghost<Seq<(Pool, Seq<(Address, Address)>)>>,
        Ghost(i): Ghost<int>,
        Ghost(j): Ghost<int>,
    )
        requires
            out_ok(self, dirs, views(old(out)@)),
            0 <= i < dirs.len(),
            0 <= j < dirs[i].1.len(),
            cycle_through(self, dirs[i].0, dirs[i].1[j].0, dirs[i].1[j].1, route_view(tokens@, pools@)),
        ensures
            out_ok(self, dirs, views(final(out)@)),
            grows(views(old(out)@), views(final(out)@)),
            route_in_seq(views(final(out)@), route_view(tokens@, pools@)),
            views(final(out)@) == add_route(views(old(out)@), route_view(tokens@, pools@)),
    {
        assert(built_from(self, dirs, route_view(tokens@, pools@)));
        self.push_candidate(out, tokens, pools, Ghost(dirs));
    }

    /// Appends the cycles that take `seed` from `a` to `b`.
    fn paths_for_direction(
        &self,
        out: &mut Vec<SwapPath>,
        seed: Pool,
        a: Address,
        b: Address,
        Ghost(dirs): Ghost<Seq<(Pool, Seq<(Address, Address)>)>>,
        Ghost(i): Ghost<int>,
        Ghost(j): Ghost<int>,
    )
        requires
            self.wf(),
            out_ok(self, dirs, views(old(out)@)),
            0 <= i < dirs.len(),
            0 <= j < dirs[i].1.len(),
            dirs[i].0 == seed,
            dirs[i].1[j] == (a, b),
        ensures
            out_ok(self, dirs, views(final(out)@)),
            grows(views(old(out)@), views(final(out)@)),
            dir_covered(self, views(final(out)@), seed, a, b),
            views(final(out)@) == add_routes(views(old(out)@), dir_cands(self, seed, a, b)),
    {
        let ghost o0 = views(out@);
        proof { lemma_grows_refl(o0); }
        if a == b {
            proof {
                assert forall|p: SwapPathView| cycle_through(self, seed, a, b, p) implies #[trigger] route_in_seq(o0, p) by {
                    let n = p.pools.len();
                    let s = choose|s: int|
                        0 <= s < n && p.pools[s] == seed && p.tokens[s] == a && p.tokens[s + 1] == b && forall|k: int|
                            0 <= k < n && k != s ==> hop_listed(self, p.tokens[k], p.tokens[k + 1], #[trigger] p.pools[k]);
                    if s + 1 < n {
                        assert(p.tokens[s] != p.tokens[s + 1]);
                    } else {
                        assert(p.tokens[0] != p.tokens[s]);
                    }
                }
            }
            return;
        }
        let a_basic = self.is_basic_token(&a);
        let b_basic = self.is_basic_token(&b);
        if a_basic || b_basic {
            self.two_hops(out, seed, a, b, a_basic, b_basic, Ghost(dirs), Ghost(i), Ghost(j));
        }
        let ghost o_two = views(out@);
        proof {
            if !(a_basic || b_basic) {
                assert forall|q: Pool| #[trigger] two_case(self, o_two, seed, a, b, q) by {}
            }
            lemma_grows_refl(o_two);
            if a_basic || b_basic {
                assert(o_two == add_routes(o0, two_cands(self, seed, a, b, ttp(self.edges_view(), b, a))));
            } else {
                assert(o_two == o0);
            }
        }
        if a_basic || b_basic {
            match self.get_token_tokens(&b) {
                Some(cs) => {
                    let mut k: usize = 0;
                    while k < cs.len()
                        invariant
                            self.wf(),
                            0 <= i < dirs.len(),
                            0 <= j < dirs[i].1.len(),
                            dirs[i].0 == seed,
                            dirs[i].1[j] == (a, b),
                            a != b,
                            a_basic == self.token_basic(a),
                            b_basic == self.token_basic(b),
                            k <= cs@.len(),
                            cs@ == tt(self.edges_view(), b),
                            out_ok(self, dirs, views(out@)),
                            views(out@) == add_routes(o_two, end_cands(self, seed, a, b, cs@.subrange(0, k as int))),
                            grows(o_two, views(out@)),
                            forall|c: Address, q1: Pool, q2: Pool| cs@.subrange(0, k as int).contains(c) ==> #[trigger] end_case(self, views(out@), seed, a, b, c, q1, q2),
                        decreases cs.len() - k,
                    {
                        let ghost o1 = views(out@);
                        let c = cs[k];
                        if c != a && c != b {
                            self.three_hops_end(out, seed, a, b, c, a_basic, b_basic, Ghost(dirs), Ghost(i), Ghost(j));
                        }
                        proof {
                            let o2 = views(out@);
                            let sub0 = cs@.subrange(0, k as int);
                            let sub1 = cs@.subrange(0, k + 1);
                            assert(sub1.drop_last() =~= sub0);
                            assert(sub1.last() == c);
                            lemma_add_routes_concat(o_two, end_cands(self, seed, a, b, sub0), end_cands_c(self, seed, a, b, c));
                            if !(c != a && c != b) {
                                assert(add_routes(o1, end_cands_c(self, seed, a, b, c)) == o1);
                            }
                            lemma_grows_refl(o1);
                            lemma_grows_trans(o_two, o1, o2);
                            assert forall|c2: Address, q1: Pool, q2: Pool| cs@.subrange(0, k + 1).contains(c2) implies #[trigger] end_case(self, o2, seed, a, b, c2, q1, q2) by {
                                if cs@.subrange(0, k as int).contains(c2) {
                                    assert(end_case(self, o1, seed, a, b, c2, q1, q2));
                                    lemma_end_grows(self, o1, o2, seed, a, b, c2, q1, q2);
                                } else {
                                    let x = choose|x: int| 0 <= x < k + 1 && #[trigger] cs@.subrange(0, k + 1)[x] == c2;
                                    if x < k {
                                        assert(cs@.subrange(0, k as int)[x] == c2);
                                    }
                                    assert(c2 == c);
                                }
                            }
                        }
                        k = k + 1;
                    }
                    proof {
                        let o2 = views(out@);
                        assert(cs@.subrange(0, k as int) =~= cs@);
                        assert forall|c: Address, q1: Pool, q2: Pool| #[trigger] end_case(self, o2, seed, a, b, c, q1, q2) by {
                            if c != a && c != b && hop_listed(self, b, c, q1) {
                                lemma_ttp_in_tt(self.edges_view(), b, c, q1.id);
                                let x = choose|x: int| 0 <= x < cs@.len() && #[trigger] cs@[x] == c;
                                assert(cs@.subrange(0, k as int)[x] == c);
                            }
                        }
                    }
                },
                None => {
                    proof {
                        assert forall|c: Address, q1: Pool, q2: Pool| #[trigger] end_case(self, views(out@), seed, a, b, c, q1, q2) by {
                            if c != a && c != b && hop_listed(self, b, c, q1) {
                                lemma_ttp_in_tt(self.edges_view(), b, c, q1.id);
                                let x = choose|x: int| 0 <= x < tt(self.edges_view(), b).len() && #[trigger] tt(self.edges_view(), b)[x] == c;
                            }
                        }
                    }
                },
            }
        }
        let ghost o_end = views(out@);
        proof {
            if !(a_basic || b_basic) {
                assert forall|c: Address, q1: Pool, q2: Pool| #[trigger] end_case(self, o_end, seed, a, b, c, q1, q2) by {}
            }
            lemma_grows_refl(o_end);
            if a_basic || b_basic {
                if tt(self.edges_view(), b).len() == 0 {
                    assert(tt(self.edges_view(), b) =~= Seq::<Address>::empty());
                    assert(o_end == o_two);
                }
                assert(o_end == add_routes(o_two, end_cands(self, seed, a, b, tt(self.edges_view(), b))));
            } else {
                assert(o_end == o_two);
            }
        }
        match self.get_token_tokens(&b) {
            Some(xs) => {
                let mut k: usize = 0;
                while k < xs.len()
                    invariant
                        self.wf(),
                        0 <= i < dirs.len(),
                        0 <= j < dirs[i].1.len(),
                        dirs[i].0 == seed,
                        dirs[i].1[j] == (a, b),
                        a != b,
                        k <= xs@.len(),
                        xs@ == tt(self.edges_view(), b),
                        out_ok(self, dirs, views(out@)),
                        views(out@) == add_routes(o_end, mid_cands(self, seed, a, b, xs@.subrange(0, k as int))),
                        grows(o_end, views(out@)),
                        forall|x: Address, q1: Pool, q2: Pool| xs@.subrange(0, k as int).contains(x) ==> #[trigger] mid_case(self, views(out@), seed, a, b, x, q1, q2),
                    decreases xs.len() - k,
                {
                    let ghost o1 = views(out@);
                    let x = xs[k];
                    let xb = x != a && x != b && self.is_basic_token(&x);
                    if xb {
                        self.three_hops_middle(out, seed, a, b, x, Ghost(dirs), Ghost(i), Ghost(j));
                    }
                    proof {
                        let o2 = views(out@);
                        let sub0 = xs@.subrange(0, k as int);
                        let sub1 = xs@.subrange(0, k + 1);
                        assert(sub1.drop_last() =~= sub0);
                        assert(sub1.last() == x);
                        lemma_add_routes_concat(o_end, mid_cands(self, seed, a, b, sub0), mid_cands_x(self, seed, a, b, x));
                        if !xb {
                            assert(add_routes(o1, mid_cands_x(self, seed, a, b, x)) == o1);
                        }
                        lemma_grows_refl(o1);
                        lemma_grows_trans(o_end, o1, o2);
                        assert forall|x2: Address, q1: Pool, q2: Pool| xs@.subrange(0, k + 1).contains(x2) implies #[trigger] mid_case(self, o2, seed, a, b, x2, q1, q2) by {
                            if xs@.subrange(0, k as int).contains(x2) {
                                assert(mid_case(self, o1, seed, a, b, x2, q1, q2));
                                lemma_mid_grows(self, o1, o2, seed, a, b, x2, q1, q2);
                            } else {
                                let y = choose|y: int| 0 <= y < k + 1 && #[trigger] xs@.subrange(0, k + 1)[y] == x2;
                                if y < k {
                                    assert(xs@.subrange(0, k as int)[y] == x2);
                                }
                                assert(x2 == x);
                            }
                        }
                    }
                    k = k + 1;
                }
                proof {
                    let o2 = views(out@);
                    assert(xs@.subrange(0, k as int) =~= xs@);
                    assert forall|x: Address, q1: Pool, q2: Pool| #[trigger] mid_case(self, o2, seed, a, b, x, q1, q2) by {
                        if x != a && x != b && hop_listed(self, b, x, q2) {
                            lemma_ttp_in_tt(self.edges_view(), b, x, q2.id);
                            let y = choose|y: int| 0 <= y < xs@.len() && #[trigger] xs@[y] == x;
                            assert(xs@.subrange(0, k as int)[y] == x);
                        }
                    }
                }
            },
            None => {
                proof {
                    assert(tt(self.edges_view(), b) =~= Seq::<Address>::empty());
                    assert forall|x: Address, q1: Pool, q2: Pool| #[trigger] mid_case(self, views(out@), seed, a, b, x, q1, q2) by {
                        if x != a && x != b && hop_listed(self, b, x, q2) {
                            lemma_ttp_in_tt(self.edges_view(), b, x, q2.id);
                            let y = choose|y: int| 0 <= y < tt(self.edges_view(), b).len() && #[trigger] tt(self.edges_view(), b)[y] == x;
                        }
                    }
                }
            },
        }
        proof {
            let fin = views(out@);
            lemma_grows_refl(fin);
            lemma_grows_trans(o_two, o_end, fin);
            lemma_grows_trans(o0, o_two, fin);
            lemma_two_grows(self, o_two, fin, seed, a, b);
            assert forall|c: Address, q1: Pool, q2: Pool| #[trigger] end_case(self, fin, seed, a, b, c, q1, q2) by {
                assert(end_case(self, o_end, seed, a, b, c, q1, q2));
                lemma_end_grows(self, o_end, fin, seed, a, b, c, q1, q2);
            }
            assert forall|p: SwapPathView| cycle_through(self, seed, a, b, p) implies #[trigger] route_in_seq(fin, p) by {
                lemma_cycle_covered(self, fin, seed, a, b, p);
            }
            let te = if a_basic || b_basic {
                two_cands(self, seed, a, b, ttp(self.edges_view(), b, a)) + end_cands(self, seed, a, b, tt(self.edges_view(), b))
            } else {
                Seq::<SwapPathView>::empty()
            };
            if a_basic || b_basic {
                lemma_add_routes_concat(o0, two_cands(self, seed, a, b, ttp(self.edges_view(), b, a)), end_cands(self, seed, a, b, tt(self.edges_view(), b)));
            }
            assert(o_end == add_routes(o0, te));
            lemma_add_routes_concat(o0, te, mid_cands(self, seed, a, b, tt(self.edges_view(), b)));
        }
    }

    /// The cycles of two or three hops that start and end at a basic token
    /// and take one of the seed pools in one of its given directions; other
    /// hops use enabled pools of a known class, and no pool or token repeats.
    /// Each such cycle is in the result, each route once, none disabled, and
    /// nothing else; the order is that of `all_cands`, which follows the
    /// seeds, their directions and the market's insertion order.
    pub fn build_swap_path_vec(&self, directions: &Vec<(Pool, Vec<(Address, Address)>)>) -> (r: Result<Vec<SwapPath>, LoomError>)
        requires
            self.wf(),
        ensures
            r matches Ok(v) && out_ok(self, dirs_view(directions@), views(v@)) && complete(self, dirs_view(directions@), views(v@))
                && views(v@) == add_routes(Seq::empty(), all_cands(self, dirs_view(directions@))),
    {
        let ghost dirs = dirs_view(directions@);
        let mut out: Vec<SwapPath> = Vec::new();
        assert(views(out@) =~= Seq::<SwapPathView>::empty());
        let mut i: usize = 0;
        while i < directions.len()
            invariant
                self.wf(),
                dirs == dirs_view(directions@),
                i <= directions@.len(),
                out_ok(self, dirs, views(out@)),
                views(out@) == add_routes(Seq::empty(), all_cands(self, dirs.subrange(0, i as int))),
                forall|i2: int, j2: int| 0 <= i2 < i && 0 <= j2 < directions@[i2].1@.len() ==> #[trigger] dir_covered(
                    self,
                    views(out@),
                    directions@[i2].0,
                    directions@[i2].1@[j2].0,
                    directions@[i2].1@[j2].1,
                ),
            decreases directions.len() - i,
        {
            let seed = directions[i].0;
            let mut j: usize = 0;
            proof {
                assert(dirs[i as int].1.subrange(0, 0) =~= Seq::<(Address, Address)>::empty());
                assert(seed_cands(self, seed, dirs[i as int].1.subrange(0, 0)) =~= Seq::<SwapPathView>::empty());
            }
            while j < directions[i].1.len()
                invariant
                    self.wf(),
                    dirs == dirs_view(directions@),
                    i < directions@.len(),
                    j <= directions@[i as int].1@.len(),
                    seed == directions@[i as int].0,
                    out_ok(self, dirs, views(out@)),
                    views(out@) == add_routes(
                        add_routes(Seq::empty(), all_cands(self, dirs.subrange(0, i as int))),
                        seed_cands(self, seed, dirs[i as int].1.subrange(0, j as int)),
                    ),
                    forall|i2: int, j2: int| 0 <= i2 < i && 0 <= j2 < directions@[i2].1@.len() ==> #[trigger] dir_covered(
                        self,
                        views(out@),
                        directions@[i2].0,
                        directions@[i2].1@[j2].0,
                        directions@[i2].1@[j2].1,
                    ),
                    forall|j2: int| 0 <= j2 < j ==> #[trigger] dir_covered(
                        self,
                        views(out@),
                        seed,
                        directions@[i as int].1@[j2].0,
                        directions@[i as int].1@[j2].1,
                    ),
                decreases directions@[i as int].1@.len() - j,
            {
                let (a, b) = directions[i].1[j];
                let ghost o1 = views(out@);
                assert(dirs[i as int].1[j as int] == (a, b));
                self.paths_for_direction(&mut out, seed, a, b, Ghost(dirs), Ghost(i as int), Ghost(j as int));
                proof {
                    let o2 = views(out@);
                    let ds = dirs[i as int].1;
                    assert(ds == directions@[i as int].1@);
                    assert(ds.subrange(0, j + 1).drop_last() =~= ds.subrange(0, j as int));
                    assert(ds.subrange(0, j + 1).last() == (a, b));
                    lemma_add_routes_concat(
                        add_routes(Seq::empty(), all_cands(self, dirs.subrange(0, i as int))),
                        seed_cands(self, seed, ds.subrange(0, j as int)),
                        dir_cands(self, seed, a, b),
                    );
                    assert forall|i2: int, j2: int| 0 <= i2 < i && 0 <= j2 < directions@[i2].1@.len() implies #[trigger] dir_covered(
                        self,
                        o2,
                        directions@[i2].0,
                        directions@[i2].1@[j2].0,
                        directions@[i2].1@[j2].1,
                    ) by {
                        assert(dir_covered(self, o1, directions@[i2].0, directions@[i2].1@[j2].0, directions@[i2].1@[j2].1));
                        lemma_dir_grows(self, o1, o2, directions@[i2].0, directions@[i2].1@[j2].0, directions@[i2].1@[j2].1);
                    }
                    assert forall|j2: int| 0 <= j2 < j + 1 implies #[trigger] dir_covered(
                        self,
                        o2,
                        seed,
                        directions@[i as int].1@[j2].0,
                        directions@[i as int].1@[j2].1,
                    ) by {
                        if j2 < j {
                            assert(dir_covered(self, o1, seed, directions@[i as int].1@[j2].0, directions@[i as int].1@[j2].1));
                            lemma_dir_grows(self, o1, o2, seed, directions@[i as int].1@[j2].0, directions@[i as int].1@[j2].1);
                        }
                    }
                }
                j = j + 1;
            }
            proof {
                let ds = dirs[i as int].1;
                assert(ds.subrange(0, j as int) =~= ds);
                assert(dirs.subrange(0, i + 1).drop_last() =~= dirs.subrange(0, i as int));
                assert(dirs.subrange(0, i + 1).last() == dirs[i as int]);
                assert(dirs[i as int].0 == seed);
                lemma_add_routes_concat(Seq::empty(), all_cands(self, dirs.subrange(0, i as int)), seed_cands(self, seed, ds));
                assert forall|i2: int, j2: int| 0 <= i2 < i + 1 && 0 <= j2 < directions@[i2].1@.len() implies #[trigger] dir_covered(
                    self,
                    views(out@),
                    directions@[i2].0,
                    directions@[i2].1@[j2].0,
                    directions@[i2].1@[j2].1,
                ) by {
                    if i2 == i {
                        assert(dir_covered(self, views(out@), seed, directions@[i as int].1@[j2].0, directions@[i as int].1@[j2].1));
                    }
                }
            }
            i = i + 1;
        }
        proof {
            assert(dirs.subrange(0, i as int) =~= dirs);
            assert forall|i2: int, j2: int| 0 <= i2 < dirs.len() && 0 <= j2 < dirs[i2].1.len() implies #[trigger] dir_covered(
                self,
                views(out@),
                dirs[i2].0,
                dirs[i2].1[j2].0,
                dirs[i2].1[j2].1,
            ) by {
                assert(dir_covered(self, views(out@), directions@[i2].0, directions@[i2].1@[j2].0, directions@[i2].1@[j2].1));
            }
        }
        Ok(out)
    }

    /// Appends the two-hop cycles through `seed` from `a` to `b`.
    fn two_hops(
        &self,
        out: &mut Vec<SwapPath>,
        seed: Pool,
        a: Address,
        b: Address,
        a_basic: bool,
        b_basic: bool,
        Ghost(dirs): Ghost<Seq<(Pool, Seq<(Address, Address)>)>>,
        Ghost(i): Ghost<int>,
        Ghost(j): Ghost<int>,
    )
        requires
            self.wf(),
            out_ok(self, dirs, views(old(out)@)),
            0 <= i < dirs.len(),
            0 <= j < dirs[i].1.len(),
            dirs[i].0 == seed,
            dirs[i].1[j] == (a, b),
            a != b,
            a_basic == self.token_basic(a),
            b_basic == self.token_basic(b),
        ensures
            out_ok(self, dirs, views(final(out)@)),
            grows(views(old(out)@), views(final(out)@)),
            forall|q: Pool| #[trigger] two_case(self, views(final(out)@), seed, a, b, q),
            views(final(out)@) == add_routes(views(old(out)@), two_cands(self, seed, a, b, ttp(self.edges_view(), b, a))),
    {
        let ghost o0 = views(out@);
        proof { lemma_grows_refl(o0); }
        let ids = match self.get_token_token_pools(&b, &a) {
            Some(v) => v,
            None => {
                proof {
                    assert forall|q: Pool| #[trigger] two_case(self, o0, seed, a, b, q) by {
                        if hop_listed(self, b, a, q) {
                            let x = choose|x: int| 0 <= x < ttp(self.edges_view(), b, a).len() && #[trigger] ttp(self.edges_view(), b, a)[x] == q.id;
                        }
                    }
                    assert(ttp(self.edges_view(), b, a) =~= Seq::<PoolId>::empty());
                }
                return;
            },
        };
        let mut k: usize = 0;
        while k < ids.len()
            invariant
                self.wf(),
                0 <= i < dirs.len(),
                0 <= j < dirs[i].1.len(),
                dirs[i].0 == seed,
                dirs[i].1[j] == (a, b),
                a != b,
                a_basic == self.token_basic(a),
                b_basic == self.token_basic(b),
                k <= ids@.len(),
                ids@ == ttp(self.edges_view(), b, a),
                out_ok(self, dirs, views(out@)),
                grows(o0, views(out@)),
                forall|q: Pool| ids@.subrange(0, k as int).contains(q.id) ==> #[trigger] two_case(self, views(out@), seed, a, b, q),
                views(out@) == add_routes(o0, two_cands(self, seed, a, b, ids@.subrange(0, k as int))),
            decreases ids.len() - k,
        {
            let ghost o1 = views(out@);
            let id = ids[k];
            let e = self.enabled_pool(id);
            let ghost mut o2 = o1;
            match e {
                Some(q) => {
                    if q.id != seed.id {
                        assert(ttp(self.edges_view(), b, a).contains(q.id)) by {
                            assert(ids@[k as int] == q.id);
                        }
                        if a_basic {
                            proof { lemma_two_hop(self, seed, a, b, q, true); }
                            self.add_cycle(out, three(a, b, a), two_pools(seed, q), Ghost(dirs), Ghost(i), Ghost(j));
                        }
                        proof { o2 = views(out@); }
                        if b_basic {
                            proof { lemma_two_hop(self, seed, a, b, q, false); }
                            self.add_cycle(out, three(b, a, b), two_pools(q, seed), Ghost(dirs), Ghost(i), Ghost(j));
                        }
                        proof {
                            lemma_grows_refl(o2);
                            if a_basic {
                                lemma_route_in_grows(o2, views(out@), route_view(seq![a, b, a], seq![seed, q]));
                            }
                        }
                    }
                },
                None => {},
            }
            proof {
                let o3 = views(out@);
                let sub0 = ids@.subrange(0, k as int);
                let sub1 = ids@.subrange(0, k + 1);
                assert(sub1.drop_last() =~= sub0);
                assert(sub1.last() == id);
                let y = two_cands_for(self, seed, a, b, id);
                lemma_add_routes_concat(o0, two_cands(self, seed, a, b, sub0), y);
                match e {
                    Some(q) => {
                        if q.id != seed.id {
                            lemma_add_two(o1, route_view(seq![a, b, a], seq![seed, q]), route_view(seq![b, a, b], seq![q, seed]), a_basic, b_basic);
                        } else {
                            assert(add_routes(o1, y) == o1);
                        }
                    },
                    None => {
                        assert(add_routes(o1, y) == o1);
                    },
                }
                lemma_grows_refl(o1);
                lemma_grows_refl(o2);
                lemma_grows_trans(o1, o2, o3);
                lemma_grows_trans(o0, o1, o3);
                assert forall|q: Pool| ids@.subrange(0, k + 1).contains(q.id) implies #[trigger] two_case(self, o3, seed, a, b, q) by {
                    if ids@.subrange(0, k as int).contains(q.id) {
                        assert(two_case(self, o1, seed, a, b, q));
                        lemma_two_grows_one(self, o1, o3, seed, a, b, q);
                    } else {
                        let x = choose|x: int| 0 <= x < k + 1 && #[trigger] ids@.subrange(0, k + 1)[x] == q.id;
                        if x < k {
                            assert(ids@.subrange(0, k as int)[x] == q.id);
                        }
                        assert(q.id == id);
                        if hop_listed(self, b, a, q) && q.id != seed.id {
                            match e {
                                Some(qp) => {
                                    assert(q == qp);
                                },
                                None => {},
                            }
                        }
                    }
                }
            }
            k = k + 1;
        }
        proof {
            let fin = views(out@);
            assert(ids@.subrange(0, k as int) =~= ids@);
            assert forall|q: Pool| #[trigger] two_case(self, fin, seed, a, b, q) by {
                if hop_listed(self, b, a, q) {
                    let x = choose|x: int| 0 <= x < ids@.len() && #[trigger] ids@[x] == q.id;
                    assert(ids@.subrange(0, k as int)[x] == q.id);
                }
            }
        }
    }

    /// Appends the cycles through `seed` from `a` to `b` at an end, over `c`.
    fn three_hops_end(
        &self,
        out: &mut Vec<SwapPath>,
        seed: Pool,
        a: Address,
        b: Address,
        c: Address,
        a_basic: bool,
        b_basic: bool,
        Ghost(dirs): Ghost<Seq<(Pool, Seq<(Address, Address)>)>>,
        Ghost(i): Ghost<int>,
        Ghost(j): Ghost<int>,
    )
        requires
            self.wf(),
            out_ok(self, dirs, views(old(out)@)),
            0 <= i < dirs.len(),
            0 <= j < dirs[i].1.len(),
            dirs[i].0 == seed,
            dirs[i].1[j] == (a, b),
            a != b && b != c && a != c,
            a_basic == self.token_basic(a),
            b_basic == self.token_basic(b),
        ensures
            out_ok(self, dirs, views(final(out)@)),
            grows(views(old(out)@), views(final(out)@)),
            forall|q1: Pool, q2: Pool| #[trigger] end_case(self, views(final(out)@), seed, a, b, c, q1, q2),
            views(final(out)@) == add_routes(views(old(out)@), end_cands_outer(self, seed, a, b, c, ttp(self.edges_view(), b, c), ttp(self.edges_view(), c, a))),
    {
        let ghost o0 = views(out@);
        proof { lemma_grows_refl(o0); }
        let first = match self.get_token_token_pools(&b, &c) {
            Some(v) => v,
            None => {
                proof {
                    assert forall|q1: Pool, q2: Pool| #[trigger] end_case(self, o0, seed, a, b, c, q1, q2) by {
                        if hop_listed(self, b, c, q1) {
                            let x = choose|x: int| 0 <= x < ttp(self.edges_view(), b, c).len() && #[trigger] ttp(self.edges_view(), b, c)[x] == q1.id;
                        }
                    }
                    assert(ttp(self.edges_view(), b, c) =~= Seq::<PoolId>::empty());
                }
                return;
            },
        };
        let second = match self.get_token_token_pools(&c, &a) {
            Some(v) => v,
            None => {
                proof {
                    assert forall|q1: Pool, q2: Pool| #[trigger] end_case(self, o0, seed, a, b, c, q1, q2) by {
                        if hop_listed(self, c, a, q2) {
                            let x = choose|x: int| 0 <= x < ttp(self.edges_view(), c, a).len() && #[trigger] ttp(self.edges_view(), c, a)[x] == q2.id;
                        }
                    }
                    lemma_end_outer_empty(self, seed, a, b, c, ttp(self.edges_view(), b, c), ttp(self.edges_view(), c, a));
                }
                return;
            },
        };
        let mut k1: usize = 0;
        while k1 < first.len()
            invariant
                self.wf(),
                0 <= i < dirs.len(),
                0 <= j < dirs[i].1.len(),
                dirs[i].0 == seed,
                dirs[i].1[j] == (a, b),
                a != b && b != c && a != c,
                a_basic == self.token_basic(a),
                b_basic == self.token_basic(b),
                first@ == ttp(self.edges_view(), b, c),
                second@ == ttp(self.edges_view(), c, a),
                k1 <= first@.len(),
                out_ok(self, dirs, views(out@)),
                grows(o0, views(out@)),
                views(out@) == add_routes(o0, end_cands_outer(self, seed, a, b, c, first@.subrange(0, k1 as int), second@)),
                forall|q1: Pool, q2: Pool| first@.subrange(0, k1 as int).contains(q1.id) ==> #[trigger] end_case(self, views(out@), seed, a, b, c, q1, q2),
            decreases first.len() - k1,
        {
            let ghost o1 = views(out@);
            let id1 = first[k1];
            let e1 = self.enabled_pool(id1);
            match e1 {
                Some(q1) => {
                    if q1.id != seed.id {
                        assert(ttp(self.edges_view(), b, c).contains(q1.id)) by {
                            assert(first@[k1 as int] == q1.id);
                        }
                        proof { lemma_grows_refl(o1); }
                        let mut k2: usize = 0;
                        while k2 < second.len()
                            invariant
                                k1 < first@.len(),
                                self.wf(),
                                0 <= i < dirs.len(),
                                0 <= j < dirs[i].1.len(),
                                dirs[i].0 == seed,
                                dirs[i].1[j] == (a, b),
                                a != b && b != c && a != c,
                                a_basic == self.token_basic(a),
                                b_basic == self.token_basic(b),
                                second@ == ttp(self.edges_view(), c, a),
                                hop_listed(self, b, c, q1),
                                q1.id != seed.id,
                                k2 <= second@.len(),
                                out_ok(self, dirs, views(out@)),
                                grows(o1, views(out@)),
                                e1 == Some(q1),
                                views(out@) == add_routes(o1, end_cands_inner(self, seed, a, b, c, q1, second@.subrange(0, k2 as int))),
                                forall|q1x: Pool, q2: Pool| first@.subrange(0, k1 as int).contains(q1x.id) ==> #[trigger] end_case(self, views(out@), seed, a, b, c, q1x, q2),
                                forall|q2: Pool| second@.subrange(0, k2 as int).contains(q2.id) ==> #[trigger] end_case(self, views(out@), seed, a, b, c, q1, q2),
                            decreases second.len() - k2,
                        {
                            let ghost o2 = views(out@);
                            let id2 = second[k2];
                            let e2 = self.enabled_pool(id2);
                            let ghost mut o3 = o2;
                            match e2 {
                                Some(q2) => {
                                    assert(ttp(self.edges_view(), c, a).contains(q2.id)) by {
                                        assert(second@[k2 as int] == q2.id);
                                    }
                                    if q2.id != seed.id && q2.id != q1.id {
                                        if a_basic {
                                            proof { lemma_three_hop_end(self, seed, a, b, c, q1, q2, true); }
                                            self.add_cycle(out, four(a, b, c, a), three_pools(seed, q1, q2), Ghost(dirs), Ghost(i), Ghost(j));
                                        }
                                        proof { o3 = views(out@); }
                                        if b_basic {
                                            proof { lemma_three_hop_end(self, seed, a, b, c, q1, q2, false); }
                                            self.add_cycle(out, four(b, c, a, b), three_pools(q1, q2, seed), Ghost(dirs), Ghost(i), Ghost(j));
                                        }
                                        proof {
                                            lemma_grows_refl(o3);
                                            if a_basic {
                                                lemma_route_in_grows(o3, views(out@), route_view(seq![a, b, c, a], seq![seed, q1, q2]));
                                            }
                                        }
                                    }
                                },
                                None => {},
                            }
                            proof {
                                let o4 = views(out@);
                                let sub0 = second@.subrange(0, k2 as int);
                                let sub1 = second@.subrange(0, k2 + 1);
                                assert(sub1.drop_last() =~= sub0);
                                assert(sub1.last() == id2);
                                let y = end_cands_q2(self, seed, a, b, c, q1, id2);
                                lemma_add_routes_concat(o1, end_cands_inner(self, seed, a, b, c, q1, sub0), y);
                                match e2 {
                                    Some(q2) => {
                                        if q2.id != seed.id && q2.id != q1.id {
                                            lemma_add_two(o2, route_view(seq![a, b, c, a], seq![seed, q1, q2]), route_view(seq![b, c, a, b], seq![q1, q2, seed]), a_basic, b_basic);
                                        } else {
                                            assert(add_routes(o2, y) == o2);
                                        }
                                    },
                                    None => {
                                        assert(add_routes(o2, y) == o2);
                                    },
                                }
                                lemma_grows_refl(o2);
                                lemma_grows_refl(o3);
                                lemma_grows_trans(o2, o3, o4);
                                lemma_grows_trans(o1, o2, o4);
                                assert forall|q1x: Pool, q2: Pool| first@.subrange(0, k1 as int).contains(q1x.id) implies #[trigger] end_case(self, o4, seed, a, b, c, q1x, q2) by {
                                    assert(end_case(self, o2, seed, a, b, c, q1x, q2));
                                    lemma_end_grows(self, o2, o4, seed, a, b, c, q1x, q2);
                                }
                                assert forall|q2: Pool| second@.subrange(0, k2 + 1).contains(q2.id) implies #[trigger] end_case(self, o4, seed, a, b, c, q1, q2) by {
                                    if second@.subrange(0, k2 as int).contains(q2.id) {
                                        assert(end_case(self, o2, seed, a, b, c, q1, q2));
                                        lemma_end_grows(self, o2, o4, seed, a, b, c, q1, q2);
                                    } else {
                                        let x = choose|x: int| 0 <= x < k2 + 1 && #[trigger] second@.subrange(0, k2 + 1)[x] == q2.id;
                                        if x < k2 {
                                            assert(second@.subrange(0, k2 as int)[x] == q2.id);
                                        }
                                        assert(q2.id == id2);
                                        if hop_listed(self, c, a, q2) {
                                            match e2 {
                                                Some(q2p) => {
                                                    assert(q2 == q2p);
                                                },
                                                None => {},
                                            }
                                        }
                                    }
                                }
                            }
                            k2 = k2 + 1;
                        }
                        proof {
                            assert(second@.subrange(0, k2 as int) =~= second@);
                            assert forall|q2: Pool| #[trigger] end_case(self, views(out@), seed, a, b, c, q1, q2) by {
                                if hop_listed(self, c, a, q2) {
                                    let x = choose|x: int| 0 <= x < second@.len() && #[trigger] second@[x] == q2.id;
                                    assert(second@.subrange(0, k2 as int)[x] == q2.id);
                                }
                            }
                        }
                    }
                },
                None => {},
            }
            proof {
                let o5 = views(out@);
                let sub0 = first@.subrange(0, k1 as int);
                let sub1 = first@.subrange(0, k1 + 1);
                assert(sub1.drop_last() =~= sub0);
                assert(sub1.last() == id1);
                lemma_add_routes_concat(o0, end_cands_outer(self, seed, a, b, c, sub0, second@), end_cands_q1(self, seed, a, b, c, id1, second@));
                match e1 {
                    Some(q1p) => {
                        if q1p.id == seed.id {
                            assert(add_routes(o1, end_cands_q1(self, seed, a, b, c, id1, second@)) == o1);
                        }
                    },
                    None => {
                        assert(add_routes(o1, end_cands_q1(self, seed, a, b, c, id1, second@)) == o1);
                    },
                }
                lemma_grows_refl(o1);
                lemma_grows_trans(o0, o1, o5);
                assert forall|q1x: Pool, q2: Pool| first@.subrange(0, k1 + 1).contains(q1x.id) implies #[trigger] end_case(self, o5, seed, a, b, c, q1x, q2) by {
                    if first@.subrange(0, k1 as int).contains(q1x.id) {
                        if o5 == o1 {
                            assert(end_case(self, o1, seed, a, b, c, q1x, q2));
                        }
                    } else {
                        let x = choose|x: int| 0 <= x < k1 + 1 && #[trigger] first@.subrange(0, k1 + 1)[x] == q1x.id;
                        if x < k1 {
                            assert(first@.subrange(0, k1 as int)[x] == q1x.id);
                        }
                        assert(q1x.id == id1);
                        if hop_listed(self, b, c, q1x) {
                            match e1 {
                                Some(q1p) => {
                                    assert(q1x == q1p);
                                },
                                None => {},
                            }
                        }
                    }
                }
            }
            k1 = k1 + 1;
        }
        proof {
            let fin = views(out@);
            assert(first@.subrange(0, k1 as int) =~= first@);
            assert forall|q1: Pool, q2: Pool| #[trigger] end_case(self, fin, seed, a, b, c, q1, q2) by {
                if hop_listed(self, b, c, q1) {
                    let x = choose|x: int| 0 <= x < first@.len() && #[trigger] first@[x] == q1.id;
                    assert(first@.subrange(0, k1 as int)[x] == q1.id);
                }
            }
        }
    }

    /// Appends the cycles through `seed` from `a` to `b` in the middle, from
    /// and back to the basic token `x`.
    fn three_hops_middle(
        &self,
        out: &mut Vec<SwapPath>,
        seed: Pool,
        a: Address,
        b: Address,
        x: Address,
        Ghost(dirs): Ghost<Seq<(Pool, Seq<(Address, Address)>)>>,
        Ghost(i): Ghost<int>,
        Ghost(j): Ghost<int>,
    )
        requires
            self.wf(),
            out_ok(self, dirs, views(old(out)@)),
            0 <= i < dirs.len(),
            0 <= j < dirs[i].1.len(),
            dirs[i].0 == seed,
            dirs[i].1[j] == (a, b),
            a != b && b != x && a != x,
            self.token_basic(x),
        ensures
            out_ok(self, dirs, views(final(out)@)),
            grows(views(old(out)@), views(final(out)@)),
            forall|q1: Pool, q2: Pool| #[trigger] mid_case(self, views(final(out)@), seed, a, b, x, q1, q2),
            views(final(out)@) == add_routes(views(old(out)@), mid_cands_outer(self, seed, a, b, x, ttp(self.edges_view(), x, a), ttp(self.edges_view(), b, x))),
    {
        let ghost o0 = views(out@);
        proof { lemma_grows_refl(o0); }
        let first = match self.get_token_token_pools(&x, &a) {
            Some(v) => v,
            None => {
                proof {
                    assert forall|q1: Pool, q2: Pool| #[trigger] mid_case(self, o0, seed, a, b, x, q1, q2) by {
                        if hop_listed(self, x, a, q1) {
                            let y = choose|y: int| 0 <= y < ttp(self.edges_view(), x, a).len() && #[trigger] ttp(self.edges_view(), x, a)[y] == q1.id;
                        }
                    }
                    assert(ttp(self.edges_view(), x, a) =~= Seq::<PoolId>::empty());
                }
                return;
            },
        };
        let second = match self.get_token_token_pools(&b, &x) {
            Some(v) => v,
            None => {
                proof {
                    assert forall|q1: Pool, q2: Pool| #[trigger] mid_case(self, o0, seed, a, b, x, q1, q2) by {
                        if hop_listed(self, b, x, q2) {
                            let y = choose|y: int| 0 <= y < ttp(self.edges_view(), b, x).len() && #[trigger] ttp(self.edges_view(), b, x)[y] == q2.id;
                        }
                    }
                    lemma_mid_outer_empty(self, seed, a, b, x, ttp(self.edges_view(), x, a), ttp(self.edges_view(), b, x));
                }
                return;
            },
        };
        let mut k1: usize = 0;
        while k1 < first.len()
            invariant
                self.wf(),
                0 <= i < dirs.len(),
                0 <= j < dirs[i].1.len(),
                dirs[i].0 == seed,
                dirs[i].1[j] == (a, b),
                a != b && b != x && a != x,
                self.token_basic(x),
                first@ == ttp(self.edges_view(), x, a),
                second@ == ttp(self.edges_view(), b, x),
                k1 <= first@.len(),
                out_ok(self, dirs, views(out@)),
                grows(o0, views(out@)),
                views(out@) == add_routes(o0, mid_cands_outer(self, seed, a, b, x, first@.subrange(0, k1 as int), second@)),
                forall|q1: Pool, q2: Pool| first@.subrange(0, k1 as int).contains(q1.id) ==> #[trigger] mid_case(self, views(out@), seed, a, b, x, q1, q2),
            decreases first.len() - k1,
        {
            let ghost o1 = views(out@);
            let id1 = first[k1];
            let e1 = self.enabled_pool(id1);
            match e1 {
                Some(q1) => {
                    if q1.id != seed.id {
                        assert(ttp(self.edges_view(), x, a).contains(q1.id)) by {
                            assert(first@[k1 as int] == q1.id);
                        }
                        proof { lemma_grows_refl(o1); }
                        let mut k2: usize = 0;
                        while k2 < second.len()
                            invariant
                                k1 < first@.len(),
                                self.wf(),
                                0 <= i < dirs.len(),
                                0 <= j < dirs[i].1.len(),
                                dirs[i].0 == seed,
                                dirs[i].1[j] == (a, b),
                                a != b && b != x && a != x,
                                self.token_basic(x),
                                second@ == ttp(self.edges_view(), b, x),
                                hop_listed(self, x, a, q1),
                                q1.id != seed.id,
                                k2 <= second@.len(),
                                out_ok(self, dirs, views(out@)),
                                grows(o1, views(out@)),
                                e1 == Some(q1),
                                views(out@) == add_routes(o1, mid_cands_inner(self, seed, a, b, x, q1, second@.subrange(0, k2 as int))),
                                forall|q1x: Pool, q2: Pool| first@.subrange(0, k1 as int).contains(q1x.id) ==> #[trigger] mid_case(self, views(out@), seed, a, b, x, q1x, q2),
                                forall|q2: Pool| second@.subrange(0, k2 as int).contains(q2.id) ==> #[trigger] mid_case(self, views(out@), seed, a, b, x, q1, q2),
                            decreases second.len() - k2,
                        {
                            let ghost o2 = views(out@);
                            let id2 = second[k2];
                            let e2 = self.enabled_pool(id2);
                            match e2 {
                                Some(q2) => {
                                    assert(ttp(self.edges_view(), b, x).contains(q2.id)) by {
                                        assert(second@[k2 as int] == q2.id);
                                    }
                                    if q2.id != seed.id && q2.id != q1.id {
                                        proof { lemma_three_hop_middle(self, seed, a, b, x, q1, q2); }
                                        self.add_cycle(out, four(x, a, b, x), three_pools(q1, seed, q2), Ghost(dirs), Ghost(i), Ghost(j));
                                    }
                                },
                                None => {},
                            }
                            proof {
                                let o4 = views(out@);
                                let sub0 = second@.subrange(0, k2 as int);
                                let sub1 = second@.subrange(0, k2 + 1);
                                assert(sub1.drop_last() =~= sub0);
                                assert(sub1.last() == id2);
                                let y = mid_cands_q2(self, seed, a, b, x, q1, id2);
                                lemma_add_routes_concat(o1, mid_cands_inner(self, seed, a, b, x, q1, sub0), y);
                                match e2 {
                                    Some(q2) => {
                                        lemma_add_opt(o2, route_view(seq![x, a, b, x], seq![q1, seed, q2]), q2.id != seed.id && q2.id != q1.id);
                                    },
                                    None => {
                                        assert(add_routes(o2, y) == o2);
                                    },
                                }
                                lemma_grows_refl(o2);
                                lemma_grows_trans(o1, o2, o4);
                                assert forall|q1x: Pool, q2: Pool| first@.subrange(0, k1 as int).contains(q1x.id) implies #[trigger] mid_case(self, o4, seed, a, b, x, q1x, q2) by {
                                    assert(mid_case(self, o2, seed, a, b, x, q1x, q2));
                                    lemma_mid_grows(self, o2, o4, seed, a, b, x, q1x, q2);
                                }
                                assert forall|q2: Pool| second@.subrange(0, k2 + 1).contains(q2.id) implies #[trigger] mid_case(self, o4, seed, a, b, x, q1, q2) by {
                                    if second@.subrange(0, k2 as int).contains(q2.id) {
                                        assert(mid_case(self, o2, seed, a, b, x, q1, q2));
                                        lemma_mid_grows(self, o2, o4, seed, a, b, x, q1, q2);
                                    } else {
                                        let y = choose|y: int| 0 <= y < k2 + 1 && #[trigger] second@.subrange(0, k2 + 1)[y] == q2.id;
                                        if y < k2 {
                                            assert(second@.subrange(0, k2 as int)[y] == q2.id);
                                        }
                                        assert(q2.id == id2);
                                        if hop_listed(self, b, x, q2) {
                                            match e2 {
                                                Some(q2p) => {
                                                    assert(q2 == q2p);
                                                },
                                                None => {},
                                            }
                                        }
                                    }
                                }
                            }
                            k2 = k2 + 1;
                        }
                        proof {
                            assert(second@.subrange(0, k2 as int) =~= second@);
                            assert forall|q2: Pool| #[trigger] mid_case(self, views(out@), seed, a, b, x, q1, q2) by {
                                if hop_listed(self, b, x, q2) {
                                    let y = choose|y: int| 0 <= y < second@.len() && #[trigger] second@[y] == q2.id;
                                    assert(second@.subrange(0, k2 as int)[y] == q2.id);
                                }
                            }
                        }
                    }
                },
                None => {},
            }
            proof {
                let o5 = views(out@);
                let sub0 = first@.subrange(0, k1 as int);
                let sub1 = first@.subrange(0, k1 + 1);
                assert(sub1.drop_last() =~= sub0);
                assert(sub1.last() == id1);
                lemma_add_routes_concat(o0, mid_cands_outer(self, seed, a, b, x, sub0, second@), mid_cands_q1(self, seed, a, b, x, id1, second@));
                match e1 {
                    Some(q1p) => {
                        if q1p.id == seed.id {
                            assert(add_routes(o1, mid_cands_q1(self, seed, a, b, x, id1, second@)) == o1);
                        }
                    },
                    None => {
                        assert(add_routes(o1, mid_cands_q1(self, seed, a, b, x, id1, second@)) == o1);
                    },
                }
                lemma_grows_refl(o1);
                lemma_grows_trans(o0, o1, o5);
                assert forall|q1x: Pool, q2: Pool| first@.subrange(0, k1 + 1).contains(q1x.id) implies #[trigger] mid_case(self, o5, seed, a, b, x, q1x, q2) by {
                    if first@.subrange(0, k1 as int).contains(q1x.id) {
                        if o5 == o1 {
                            assert(mid_case(self, o1, seed, a, b, x, q1x, q2));
                        }
                    } else {
                        let y = choose|y: int| 0 <= y < k1 + 1 && #[trigger] first@.subrange(0, k1 + 1)[y] == q1x.id;
                        if y < k1 {
                            assert(first@.subrange(0, k1 as int)[y] == q1x.id);
                        }
                        assert(q1x.id == id1);
                        if hop_listed(self, x, a, q1x) {
                            match e1 {
                                Some(q1p) => {
                                    assert(q1x == q1p);
                                },
                                None => {},
                            }
                        }
                    }
                }
            }
            k1 = k1 + 1;
        }
        proof {
            let fin = views(out@);
            assert(first@.subrange(0, k1 as int) =~= first@);
            assert forall|q1: Pool, q2: Pool| #[trigger] mid_case(self, fin, seed, a, b, x, q1, q2) by {
                if hop_listed(self, x, a, q1) {
                    let y = choose|y: int| 0 <= y < first@.len() && #[trigger] first@[y] == q1.id;
                    assert(first@.subrange(0, k1 as int)[y] == q1.id);
                }
            }
        }
    }

    /// Appends the cycle unless its route is already in `out`.
    fn push_candidate(
        &self,
        out: &mut Vec<SwapPath>,
        tokens: Vec<Address>,
        pools: Vec<Pool>,
        Ghost(dirs): Ghost<Seq<(Pool, Seq<(Address, Address)>)>>,
    )
        requires
            out_ok(self, dirs, views(old(out)@)),
            built_from(self, dirs, SwapPathView { tokens: tokens@, pools: pools@, disabled: false }),
        ensures
            out_ok(self, dirs, views(final(out)@)),
            views(final(out)@).subrange(0, views(old(out)@).len() as int) == views(old(out)@),
            views(final(out)@).len() >= views(old(out)@).len(),
            route_in_seq(views(final(out)@), SwapPathView { tokens: tokens@, pools: pools@, disabled: false }),
            views(final(out)@) == add_route(views(old(out)@), SwapPathView { tokens: tokens@, pools: pools@, disabled: false }),
    {
        let ghost want = SwapPathView { tokens: tokens@, pools: pools@, disabled: false };
        let cand = SwapPath::new(tokens, pools);
        let mut dup = false;
        let mut k: usize = 0;
        while k < out.len() && !dup
            invariant
                k <= out@.len(),
                out@ == old(out)@,
                out_ok(self, dirs, views(old(out)@)),
                cand@ == want,
                dup ==> route_in_seq(views(out@), want),
                !dup ==> forall|j: int| 0 <= j < k ==> !crate::swap_path::same_route(#[trigger] views(out@)[j], cand@),
            decreases out.len() - k + (if dup { 0int } else { 1int }),
        {
            if out[k].same_route_as(&cand) {
                assert(crate::swap_path::same_route(views(out@)[k as int], cand@));
                dup = true;
            } else {
                k = k + 1;
            }
        }
        if dup {
            assert(views(out@).subrange(0, views(out@).len() as int) =~= views(out@));
            assert(route_in_seq(views(out@), want));
            return;
        }
        assert(k == out@.len());
        let ghost before = views(out@);
        out.push(cand);
        proof {
            let now = views(out@);
            assert(now =~= before.push(want));
            assert(now.subrange(0, before.len() as int) =~= before);
            assert(crate::swap_path::same_route(now[before.len() as int], want));
            assert forall|x: int, y: int| 0 <= x < now.len() && 0 <= y < now.len() && x != y
                implies !crate::swap_path::same_route(#[trigger] now[x], #[trigger] now[y]) by {
                if x < before.len() && y < before.len() {
                    assert(now[x] == before[x] && now[y] == before[y]);
                } else if x < before.len() {
                    assert(now[x] == before[x]);
                    assert(!crate::swap_path::same_route(before[x], want));
                } else {
                    assert(now[y] == before[y]);
                    assert(!crate::swap_path::same_route(before[y], want));
                }
            }
            assert forall|k: int| 0 <= k < now.len() implies built_from(self, dirs, #[trigger] now[k]) by {
                if k < before.len() {
                    assert(now[k] == before[k]);
                }
            }
        }
    }
}

} // verus!

verus! {

/// A built cycle is a line: one token more than pools, each pool swapping
/// the token before it for the token after it, so adjacent pools share the
/// token between them. The seed pool takes its given direction; every other
/// pool reports its hop's direction to the market.
pub proof fn lemma_cycle_is_line(m: &Market, seed: Pool, a: Address, b: Address, p: SwapPathView)
    requires
        cycle_through(m, seed, a, b, p),
    ensures
        p.tokens.len() == p.pools.len() + 1,
        exists|s: int|
            0 <= s < p.pools.len() && p.pools[s] == seed && p.tokens[s] == a && p.tokens[s + 1] == b && forall|k: int|
                0 <= k < p.pools.len() && k != s ==> ttp(m.edges_view(), p.tokens[k], p.tokens[k + 1]).contains(
                    #[trigger] p.pools[k].id,
                ),
{
    let s = choose|s: int|
        0 <= s < p.pools.len() && p.pools[s] == seed && p.tokens[s] == a && p.tokens[s + 1] == b && forall|k: int|
            0 <= k < p.pools.len() && k != s ==> hop_listed(m, p.tokens[k], p.tokens[k + 1], #[trigger] p.pools[k]);
    assert forall|k: int| 0 <= k < p.pools.len() && k != s implies ttp(m.edges_view(), p.tokens[k], p.tokens[k + 1]).contains(
        #[trigger] p.pools[k].id,
    ) by {
        assert(hop_listed(m, p.tokens[k], p.tokens[k + 1], p.pools[k]));
    }
}

} // verus!

verus! {

/// In a market that holds the seed pool, every hop of a cycle through it is
/// a direction that the hop's pool reports: pool `k` of the path reports
/// swapping `tokens[k]` for `tokens[k + 1]`, so adjacent pools share the
/// token between them.
pub proof fn lemma_cycle_hops_reported(m: &Market, seed: crate::pool::PoolWrapperView, a: Address, b: Address, p: SwapPathView, k: int)
    requires
        m.wf(),
        exists|i: int| 0 <= i < m.pools_view().len() && #[trigger] m.pools_view()[i] == seed,
        seed.directions.contains((a, b)),
        cycle_through(m, seed.pool, a, b, p),
        0 <= k < p.pools.len(),
    ensures
        p.tokens.len() == p.pools.len() + 1,
        exists|i: int|
            0 <= i < m.pools_view().len() && (#[trigger] m.pools_view()[i]).pool == p.pools[k]
                && m.pools_view()[i].directions.contains((p.tokens[k], p.tokens[k + 1])),
{
    let n = p.pools.len();
    let s = choose|s: int|
        0 <= s < n && p.pools[s] == seed.pool && p.tokens[s] == a && p.tokens[s + 1] == b && forall|x: int|
            0 <= x < n && x != s ==> hop_listed(m, p.tokens[x], p.tokens[x + 1], #[trigger] p.pools[x]);
    if k == s {
        let i = choose|i: int| 0 <= i < m.pools_view().len() && #[trigger] m.pools_view()[i] == seed;
        assert(m.pools_view()[i].pool == p.pools[k]);
    } else {
        assert(hop_listed(m, p.tokens[k], p.tokens[k + 1], p.pools[k]));
        crate::market::lemma_listed_pool_reports(m, p.tokens[k], p.tokens[k + 1], p.pools[k]);
    }
}

} // verus!
