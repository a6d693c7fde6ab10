//! Swap plans: lines of pools with amount semantics, steps, and the
//! lowering of a backrun line into two steps.
use vstd::prelude::*;
use crate::primitives::{Address, U256};
use crate::pool::{Pool, PoolClass, copy_vec};
use crate::swap_path::SwapPath;

verus! {

/// How the amount that flows into a hop is found when the multicaller runs.
#[derive(Clone, Copy, Debug, PartialEq, Eq, Structural)]
pub enum SwapAmountType {
    NotSet,
    /// A fixed amount.
    Fixed(U256),
    /// The top of the stack.
    Stack0,
    /// The stack slot this many positions below the top.
    RelativeStack(u8),
    /// The token balance of this address.
    Balance(Address),
}

/// An ordered list of hops: pool `k` swaps `tokens[k]` for `tokens[k + 1]`.
#[derive(Debug)]
pub struct SwapLine {
    pub path: SwapPath,
    pub amount_in: SwapAmountType,
    pub amount_out: SwapAmountType,
    pub gas_used: Option<u64>,
}

pub struct SwapLineView {
    pub tokens: Seq<Address>,
    pub pools: Seq<Pool>,
    pub amount_in: SwapAmountType,
    pub amount_out: SwapAmountType,
    pub gas_used: Option<u64>,
}

impl View for SwapLine {
    type V = SwapLineView;

    open spec fn view(&self) -> SwapLineView {
        SwapLineView {
            tokens: self.path.tokens@,
            pools: self.path.pools@,
            amount_in: self.amount_in,
            amount_out: self.amount_out,
            gas_used: self.gas_used,
        }
    }
}

/// One token more than pools: adjacent pools share the token between them.
pub open spec fn line_wf(l: SwapLineView) -> bool {
    l.tokens.len() == l.pools.len() + 1
}

/// Pools of these classes can lend their output before they are paid.
pub open spec fn class_can_flash(c: PoolClass) -> bool {
    c == PoolClass::UniswapV2 || c == PoolClass::UniswapV3 || c == PoolClass::PancakeV3 || c == PoolClass::Maverick
}

pub open spec fn pools_can_flash(pools: Seq<Pool>) -> bool {
    forall|k: int| 0 <= k < pools.len() ==> class_can_flash(#[trigger] pools[k].class)
}

/// The first `i` hops, with the line's input amount.
pub open spec fn line_head(l: SwapLineView, i: int) -> SwapLineView {
    SwapLineView {
        tokens: l.tokens.subrange(0, i + 1),
        pools: l.pools.subrange(0, i),
        amount_in: l.amount_in,
        amount_out: SwapAmountType::NotSet,
        gas_used: None,
    }
}

/// The hops from `i` on, with the line's output amount.
pub open spec fn line_tail(l: SwapLineView, i: int) -> SwapLineView {
    SwapLineView {
        tokens: l.tokens.subrange(i, l.tokens.len() as int),
        pools: l.pools.subrange(i, l.pools.len() as int),
        amount_in: SwapAmountType::NotSet,
        amount_out: l.amount_out,
        gas_used: None,
    }
}

/// Where a backrun line splits: the first `i` from `from` on, below the pool
/// count, at which the head or the tail can flash-swap; 1 when there is none.
pub open spec fn split_point(pools: Seq<Pool>, from: int) -> int
    decreases pools.len() - from,
{
    if from >= pools.len() || from < 1 {
        1
    } else if pools_can_flash(pools.subrange(0, from)) || pools_can_flash(pools.subrange(from, pools.len() as int)) {
        from
    } else {
        split_point(pools, from + 1)
    }
}

pub proof fn lemma_split_point_range(pools: Seq<Pool>, from: int)
    requires
        pools.len() >= 1,
    ensures
        1 <= split_point(pools, from) <= pools.len(),
    decreases pools.len() - from,
{
    if from < pools.len() && from >= 1 && !(pools_can_flash(pools.subrange(0, from)) || pools_can_flash(
        pools.subrange(from, pools.len() as int),
    )) {
        lemma_split_point_range(pools, from + 1);
    }
}

pub fn class_flashes(c: PoolClass) -> (r: bool)
    ensures
        r == class_can_flash(c),
{
    match c {
        PoolClass::UniswapV2 | PoolClass::UniswapV3 | PoolClass::PancakeV3 | PoolClass::Maverick => true,
        _ => false,
    }
}

fn range_can_flash(pools: &Vec<Pool>, lo: usize, hi: usize) -> (r: bool)
    requires
        lo <= hi <= pools@.len(),
    ensures
        r == pools_can_flash(pools@.subrange(lo as int, hi as int)),
{
    let mut k: usize = lo;
    while k < hi
        invariant
            lo <= k <= hi,
            hi <= pools@.len(),
            forall|j: int| lo <= j < k ==> class_can_flash(#[trigger] pools@[j].class),
        decreases hi - k,
    {
        if !class_flashes(pools[k].class) {
            assert(pools@.subrange(lo as int, hi as int)[k - lo] == pools@[k as int]);
            return false;
        }
        k = k + 1;
    }
    assert forall|j: int| 0 <= j < hi - lo implies class_can_flash(#[trigger] pools@.subrange(lo as int, hi as int)[j].class) by {
        assert(pools@.subrange(lo as int, hi as int)[j] == pools@[lo + j]);
    }
    true
}

fn copy_range<T: Copy>(v: &Vec<T>, lo: usize, hi: usize) -> (r: Vec<T>)
    requires
        lo <= hi <= v@.len(),
    ensures
        r@ == v@.subrange(lo as int, hi as int),
{
    let mut r: Vec<T> = Vec::new();
    let mut k: usize = lo;
    while k < hi
        invariant
            lo <= k <= hi,
            hi <= v@.len(),
            r@ == v@.subrange(lo as int, k as int),
        decreases hi - k,
    {
        r.push(v[k]);
        k = k + 1;
        assert(r@ =~= v@.subrange(lo as int, k as int));
    }
    r
}

impl SwapLine {
    pub fn new(path: SwapPath, amount_in: SwapAmountType, amount_out: SwapAmountType) -> (r: SwapLine)
        ensures
            r@ == (SwapLineView { tokens: path.tokens@, pools: path.pools@, amount_in, amount_out, gas_used: None }),
    {
        SwapLine { path, amount_in, amount_out, gas_used: None }
    }

    pub fn pools(&self) -> (r: &Vec<Pool>)
        ensures
            r@ == self@.pools,
    {
        &self.path.pools
    }

    pub fn tokens(&self) -> (r: &Vec<Address>)
        ensures
            r@ == self@.tokens,
    {
        &self.path.tokens
    }

    /// Whether every pool of the line can flash-swap.
    pub fn can_flash_swap(&self) -> (r: bool)
        ensures
            r == pools_can_flash(self@.pools),
    {
        let r = range_can_flash(&self.path.pools, 0, self.path.pools.len());
        assert(self@.pools.subrange(0, self@.pools.len() as int) =~= self@.pools);
        r
    }

    /// The first `i` hops and the hops from `i` on.
    pub fn split(&self, i: usize) -> (r: (SwapLine, SwapLine))
        requires
            line_wf(self@),
            1 <= i <= self@.pools.len(),
        ensures
            r.0@ == line_head(self@, i as int),
            r.1@ == line_tail(self@, i as int),
    {
        let n = self.path.tokens.len();
        assert(i < n);
        let head = SwapPath::new(copy_range(&self.path.tokens, 0, i + 1), copy_range(&self.path.pools, 0, i));
        let tail = SwapPath::new(
            copy_range(&self.path.tokens, i, self.path.tokens.len()),
            copy_range(&self.path.pools, i, self.path.pools.len()),
        );
        (
            SwapLine { path: head, amount_in: self.amount_in, amount_out: SwapAmountType::NotSet, gas_used: None },
            SwapLine { path: tail, amount_in: SwapAmountType::NotSet, amount_out: self.amount_out, gas_used: None },
        )
    }

    /// A copy of the line.
    pub fn duplicate(&self) -> (r: SwapLine)
        ensures
            r@ == self@,
    {
        SwapLine {
            path: self.path.copy_with_flag(self.path.disabled),
            amount_in: self.amount_in,
            amount_out: self.amount_out,
            gas_used: self.gas_used,
        }
    }

    /// The pool addresses, in order.
    pub fn pool_addresses(&self) -> (r: Vec<Address>)
        ensures
            r@ == pool_addresses(self@.pools),
    {
        let mut r: Vec<Address> = Vec::new();
        let mut k: usize = 0;
        while k < self.path.pools.len()
            invariant
                k <= self@.pools.len(),
                r@ == pool_addresses(self@.pools.subrange(0, k as int)),
            decreases self.path.pools.len() - k,
        {
            r.push(self.path.pools[k].address);
            k = k + 1;
            assert(r@ =~= pool_addresses(self@.pools.subrange(0, k as int)));
        }
        assert(self@.pools.subrange(0, k as int) =~= self@.pools);
        r
    }
}

pub open spec fn pool_addresses(pools: Seq<Pool>) -> Seq<Address> {
    pools.map_values(|p: Pool| p.address)
}

/// A group of lines run by one multicaller.
#[derive(Debug)]
pub struct SwapStep {
    pub swap_line_vec: Vec<SwapLine>,
    pub multicaller: Address,
}

pub open spec fn line_views(v: Seq<SwapLine>) -> Seq<SwapLineView> {
    v.map_values(|l: SwapLine| l@)
}

/// The pool addresses of the lines, one line after another.
pub open spec fn lines_pool_addresses(ls: Seq<SwapLineView>) -> Seq<Address>
    decreases ls.len(),
{
    if ls.len() == 0 {
        Seq::empty()
    } else {
        lines_pool_addresses(ls.drop_last()) + pool_addresses(ls.last().pools)
    }
}

impl SwapStep {
    pub fn new(multicaller: Address) -> (r: SwapStep)
        ensures
            line_views(r.swap_line_vec@) == Seq::<SwapLineView>::empty(),
            r.multicaller == multicaller,
    {
        let r = SwapStep { swap_line_vec: Vec::new(), multicaller };
        assert(line_views(r.swap_line_vec@) =~= Seq::<SwapLineView>::empty());
        r
    }

    pub fn add(&mut self, line: SwapLine)
        ensures
            line_views(final(self).swap_line_vec@) == line_views(old(self).swap_line_vec@).push(line@),
            final(self).multicaller == old(self).multicaller,
    {
        self.swap_line_vec.push(line);
        assert(line_views(final(self).swap_line_vec@) =~= line_views(old(self).swap_line_vec@).push(line@));
    }

    /// A copy of the step.
    pub fn duplicate(&self) -> (r: SwapStep)
        ensures
            line_views(r.swap_line_vec@) == line_views(self.swap_line_vec@),
            r.multicaller == self.multicaller,
    {
        let mut v: Vec<SwapLine> = Vec::new();
        let mut k: usize = 0;
        while k < self.swap_line_vec.len()
            invariant
                k <= self.swap_line_vec@.len(),
                line_views(v@) == line_views(self.swap_line_vec@).subrange(0, k as int),
            decreases self.swap_line_vec.len() - k,
        {
            let c = self.swap_line_vec[k].duplicate();
            let ghost before = line_views(v@);
            assert(line_views(self.swap_line_vec@)[k as int] == c@);
            v.push(c);
            assert(line_views(v@) =~= before.push(c@));
            k = k + 1;
            assert(line_views(v@) =~= line_views(self.swap_line_vec@).subrange(0, k as int));
        }
        assert(line_views(self.swap_line_vec@).subrange(0, k as int) =~= line_views(self.swap_line_vec@));
        SwapStep { swap_line_vec: v, multicaller: self.multicaller }
    }

    /// The pool addresses of the step's lines, one line after another.
    pub fn pool_addresses(&self) -> (r: Vec<Address>)
        ensures
            r@ == lines_pool_addresses(line_views(self.swap_line_vec@)),
    {
        let mut r: Vec<Address> = Vec::new();
        let mut k: usize = 0;
        while k < self.swap_line_vec.len()
            invariant
                k <= self.swap_line_vec@.len(),
                r@ == lines_pool_addresses(line_views(self.swap_line_vec@).subrange(0, k as int)),
            decreases self.swap_line_vec.len() - k,
        {
            let more = self.swap_line_vec[k].pool_addresses();
            let mut j: usize = 0;
            let ghost start = r@;
            while j < more.len()
                invariant
                    j <= more@.len(),
                    r@ == start + more@.subrange(0, j as int),
                decreases more.len() - j,
            {
                r.push(more[j]);
                j = j + 1;
                assert(r@ =~= start + more@.subrange(0, j as int));
            }
            assert(line_views(self.swap_line_vec@).subrange(0, k + 1 as int).drop_last() =~= line_views(
                self.swap_line_vec@,
            ).subrange(0, k as int));
            assert(more@.subrange(0, j as int) =~= more@);
            k = k + 1;
        }
        assert(line_views(self.swap_line_vec@).subrange(0, k as int) =~= line_views(self.swap_line_vec@));
        r
    }
}

/// A swap to perform.
#[derive(Debug)]
pub enum Swap {
    Empty,
    ExchangeSwapLine(SwapLine),
    BackrunSwapSteps((SwapStep, SwapStep)),
    BackrunSwapLine(SwapLine),
    Multiple(Vec<Swap>),
}

/// The tail of a backrun line, reading its input from the multicaller's balance.
pub open spec fn inside_line(l: SwapLineView, i: int, multicaller: Address) -> SwapLineView {
    SwapLineView { amount_in: SwapAmountType::Balance(multicaller), ..line_tail(l, i) }
}

/// The two steps of a backrun line: the flash head, then the inside tail.
pub open spec fn backrun_steps(l: SwapLineView, multicaller: Address) -> (Seq<SwapLineView>, Seq<SwapLineView>) {
    let i = split_point(l.pools, 1);
    (seq![line_head(l, i)], seq![inside_line(l, i, multicaller)])
}

/// The pool addresses of a swap: its line's, the first step's, or each
/// part's in turn.
pub open spec fn swap_pool_addresses(s: &Swap) -> Seq<Address>
    decreases s,
{
    match s {
        Swap::ExchangeSwapLine(l) => pool_addresses(l@.pools),
        Swap::BackrunSwapLine(l) => pool_addresses(l@.pools),
        Swap::BackrunSwapSteps(p) => lines_pool_addresses(line_views(p.0.swap_line_vec@)),
        Swap::Multiple(v) => parts_pool_addresses(v@),
        Swap::Empty => Seq::empty(),
    }
}

pub open spec fn parts_pool_addresses(v: Seq<Swap>) -> Seq<Address>
    decreases v,
{
    if v.len() == 0 {
        Seq::empty()
    } else {
        parts_pool_addresses(v.drop_last()) + swap_pool_addresses(&v.last())
    }
}

impl Swap {
    /// Lowers a backrun line into a flash step and an inside step, split at
    /// the first hop at which either side can flash-swap (at 1 when none
    /// can); the inside step reads its input from the multicaller's balance.
    /// Steps pass through; other swaps have none.
    pub fn to_swap_steps(&self, multicaller: Address) -> (r: Option<(SwapStep, SwapStep)>)
        requires
            self matches Swap::BackrunSwapLine(l) ==> line_wf(l@) && l@.pools.len() >= 1,
        ensures
            self matches Swap::BackrunSwapLine(l) ==> (r matches Some(p) && (line_views(p.0.swap_line_vec@), line_views(
                p.1.swap_line_vec@,
            )) == backrun_steps(l@, multicaller) && p.0.multicaller == multicaller && p.1.multicaller == multicaller),
            self matches Swap::BackrunSwapSteps(q) ==> (r matches Some(p) && line_views(p.0.swap_line_vec@) == line_views(
                q.0.swap_line_vec@,
            ) && line_views(p.1.swap_line_vec@) == line_views(q.1.swap_line_vec@) && p.0.multicaller
                == q.0.multicaller && p.1.multicaller == q.1.multicaller),
            !(self is BackrunSwapLine || self is BackrunSwapSteps) ==> r is None,
    {
        match self {
            Swap::BackrunSwapLine(line) => {
                let n = line.path.pools.len();
                let mut split: usize = 1;
                let mut i: usize = 1;
                let mut found = false;
                while i < n && !found
                    invariant
                        n == line@.pools.len(),
                        n >= 1,
                        line_wf(line@),
                        1 <= i <= n,
                        !found ==> split == 1,
                        found ==> split == split_point(line@.pools, 1) && 1 <= split < n,
                        !found ==> split_point(line@.pools, 1) == split_point(line@.pools, i as int),
                    decreases n - i + (if found { 0int } else { 1int }),
                {
                    if range_can_flash(&line.path.pools, 0, i) || range_can_flash(&line.path.pools, i, n) {
                        split = i;
                        found = true;
                    } else {
                        i = i + 1;
                    }
                }
                proof {
                    lemma_split_point_range(line@.pools, 1);
                    if !found {
                        assert(split_point(line@.pools, i as int) == 1);
                    }
                }
                let (head, mut tail) = line.split(split);
                tail.amount_in = SwapAmountType::Balance(multicaller);
                let mut step_0 = SwapStep::new(multicaller);
                step_0.add(head);
                let mut step_1 = SwapStep::new(multicaller);
                step_1.add(tail);
                assert(line_views(step_0.swap_line_vec@) =~= seq![line_head(line@, split as int)]);
                Some((step_0, step_1))
            },
            Swap::BackrunSwapSteps(p) => Some((p.0.duplicate(), p.1.duplicate())),
            _ => None,
        }
    }

    /// The pool addresses of the swap: its line's, the first step's lines',
    /// or each part's in turn.
    pub fn get_pool_address_vec(&self) -> (r: Vec<Address>)
        ensures
            r@ == swap_pool_addresses(self),
        decreases self,
    {
        match self {
            Swap::ExchangeSwapLine(l) => l.pool_addresses(),
            Swap::BackrunSwapLine(l) => l.pool_addresses(),
            Swap::BackrunSwapSteps(p) => p.0.pool_addresses(),
            Swap::Multiple(v) => {
                let mut r: Vec<Address> = Vec::new();
                let mut k: usize = 0;
                while k < v.len()
                    invariant
                        k <= v@.len(),
                        *self == Swap::Multiple(*v),
                        r@ == parts_pool_addresses(v@.subrange(0, k as int)),
                    decreases v.len() - k,
                {
                    assert(v@.subrange(0, k + 1 as int).drop_last() =~= v@.subrange(0, k as int));
                    proof {
                        assert(*self == Swap::Multiple(*v));
                        assert(self->Multiple_0 == *v);
                        assert(decreases_to!(*self => self->Multiple_0));
                        assert(decreases_to!(*v => v@));
                        assert(decreases_to!(v@ => v@[k as int]));
                    }
                    let more = v[k].get_pool_address_vec();
                    let ghost start = r@;
                    let mut j: usize = 0;
                    while j < more.len()
                        invariant
                            j <= more@.len(),
                            r@ == start + more@.subrange(0, j as int),
                        decreases more.len() - j,
                    {
                        r.push(more[j]);
                        j = j + 1;
                        assert(r@ =~= start + more@.subrange(0, j as int));
                    }
                    assert(more@.subrange(0, j as int) =~= more@);
                    k = k + 1;
                }
                assert(v@.subrange(0, k as int) =~= v@);
                r
            },
            Swap::Empty => Vec::new(),
        }
    }

    /// The first token of the swap's first line.
    pub fn get_first_token(&self) -> (r: Option<Address>)
        ensures
            self matches Swap::ExchangeSwapLine(l) ==> r == (if l@.tokens.len() > 0 { Some(l@.tokens[0]) } else { None }),
            self matches Swap::BackrunSwapLine(l) ==> r == (if l@.tokens.len() > 0 { Some(l@.tokens[0]) } else { None }),
            self matches Swap::BackrunSwapSteps(p) ==> r == (if p.0.swap_line_vec@.len() > 0 && p.0.swap_line_vec@[0]@.tokens.len() > 0 {
                Some(p.0.swap_line_vec@[0]@.tokens[0])
            } else {
                None
            }),
            (self is Multiple || self is Empty) ==> r is None,
    {
        match self {
            Swap::ExchangeSwapLine(l) | Swap::BackrunSwapLine(l) => {
                if l.path.tokens.len() > 0 {
                    Some(l.path.tokens[0])
                } else {
                    None
                }
            },
            Swap::BackrunSwapSteps(p) => {
                if p.0.swap_line_vec.len() > 0 && p.0.swap_line_vec[0].path.tokens.len() > 0 {
                    Some(p.0.swap_line_vec[0].path.tokens[0])
                } else {
                    None
                }
            },
            _ => None,
        }
    }
}

/// Gas of a line: its estimate, or zero when it has none.
pub open spec fn line_gas(l: SwapLineView) -> nat {
    match l.gas_used {
        Some(g) => g as nat,
        None => 0,
    }
}

pub open spec fn lines_gas(ls: Seq<SwapLineView>) -> nat
    decreases ls.len(),
{
    if ls.len() == 0 {
        0
    } else {
        lines_gas(ls.drop_last()) + line_gas(ls.last())
    }
}

/// The gas estimate of a swap: its line's, the sum over both steps' lines,
/// or the sum over its parts.
pub open spec fn swap_gas(s: &Swap) -> nat
    decreases s,
{
    match s {
        Swap::ExchangeSwapLine(l) => line_gas(l@),
        Swap::BackrunSwapLine(l) => line_gas(l@),
        Swap::BackrunSwapSteps(p) => lines_gas(line_views(p.0.swap_line_vec@)) + lines_gas(line_views(p.1.swap_line_vec@)),
        Swap::Multiple(v) => parts_gas(v@),
        Swap::Empty => 0,
    }
}

pub open spec fn parts_gas(v: Seq<Swap>) -> nat
    decreases v,
{
    if v.len() == 0 {
        0
    } else {
        parts_gas(v.drop_last()) + swap_gas(&v.last())
    }
}

pub open spec fn saturate(n: nat) -> u64 {
    if n > u64::MAX {
        u64::MAX
    } else {
        n as u64
    }
}

proof fn lemma_saturate_add(a: nat, b: nat)
    ensures
        (if saturate(a) as nat + saturate(b) as nat > u64::MAX { u64::MAX } else { (saturate(a) + saturate(b)) as u64 }) == saturate(a + b),
{
}

impl SwapStep {
    /// The summed gas estimates of the step's lines, saturating at the
    /// largest `u64`.
    pub fn gas_estimate(&self) -> (r: u64)
        ensures
            r == saturate(lines_gas(line_views(self.swap_line_vec@))),
    {
        let mut total: u64 = 0;
        let mut k: usize = 0;
        while k < self.swap_line_vec.len()
            invariant
                k <= self.swap_line_vec@.len(),
                total == saturate(lines_gas(line_views(self.swap_line_vec@).subrange(0, k as int))),
            decreases self.swap_line_vec.len() - k,
        {
            let ghost ls = line_views(self.swap_line_vec@);
            assert(ls.subrange(0, k + 1 as int).drop_last() =~= ls.subrange(0, k as int));
            let g: u64 = match self.swap_line_vec[k].gas_used {
                Some(g) => g,
                None => 0,
            };
            proof {
                lemma_saturate_add(lines_gas(ls.subrange(0, k as int)), line_gas(ls[k as int]));
            }
            total = total.saturating_add(g);
            k = k + 1;
        }
        assert(line_views(self.swap_line_vec@).subrange(0, k as int) =~= line_views(self.swap_line_vec@));
        total
    }
}

impl Swap {
    /// The gas estimate of the swap, saturating at the largest `u64`.
    pub fn pre_estimate_gas(&self) -> (r: u64)
        ensures
            r == saturate(swap_gas(self)),
        decreases self,
    {
        match self {
            Swap::ExchangeSwapLine(l) | Swap::BackrunSwapLine(l) => match l.gas_used {
                Some(g) => g,
                None => 0,
            },
            Swap::BackrunSwapSteps(p) => {
                let a = p.0.gas_estimate();
                let b = p.1.gas_estimate();
                proof {
                    lemma_saturate_add(lines_gas(line_views(p.0.swap_line_vec@)), lines_gas(line_views(p.1.swap_line_vec@)));
                }
                a.saturating_add(b)
            },
            Swap::Multiple(v) => {
                let mut total: u64 = 0;
                let mut k: usize = 0;
                while k < v.len()
                    invariant
                        k <= v@.len(),
                        *self == Swap::Multiple(*v),
                        total == saturate(parts_gas(v@.subrange(0, k as int))),
                    decreases v.len() - k,
                {
                    assert(v@.subrange(0, k + 1 as int).drop_last() =~= v@.subrange(0, k as int));
                    proof {
                        assert(self->Multiple_0 == *v);
                        assert(decreases_to!(*self => self->Multiple_0));
                        assert(decreases_to!(*v => v@));
                        assert(decreases_to!(v@ => v@[k as int]));
                    }
                    let g = v[k].pre_estimate_gas();
                    proof {
                        lemma_saturate_add(parts_gas(v@.subrange(0, k as int)), swap_gas(&v@[k as int]));
                    }
                    total = total.saturating_add(g);
                    k = k + 1;
                }
                assert(v@.subrange(0, k as int) =~= v@);
                total
            },
            Swap::Empty => 0,
        }
    }
}

/// Lowering a backrun line into two steps keeps its pools: the pool
/// addresses of the first step's lines, then of the second's, are the line's.
pub proof fn lemma_steps_keep_pools(l: SwapLineView, multicaller: Address)
    requires
        line_wf(l),
        l.pools.len() >= 1,
    ensures
        lines_pool_addresses(backrun_steps(l, multicaller).0) + lines_pool_addresses(backrun_steps(l, multicaller).1)
            == pool_addresses(l.pools),
{
    let i = split_point(l.pools, 1);
    lemma_split_point_range(l.pools, 1);
    let (s0, s1) = backrun_steps(l, multicaller);
    assert(s0.drop_last() =~= Seq::<SwapLineView>::empty());
    assert(s1.drop_last() =~= Seq::<SwapLineView>::empty());
    assert(lines_pool_addresses(s0) == lines_pool_addresses(s0.drop_last()) + pool_addresses(s0.last().pools));
    assert(lines_pool_addresses(s0.drop_last()) == Seq::<Address>::empty());
    assert(lines_pool_addresses(s0) =~= pool_addresses(l.pools.subrange(0, i)));
    assert(lines_pool_addresses(s1) == lines_pool_addresses(s1.drop_last()) + pool_addresses(s1.last().pools));
    assert(lines_pool_addresses(s1.drop_last()) == Seq::<Address>::empty());
    assert(lines_pool_addresses(s1) =~= pool_addresses(l.pools.subrange(i, l.pools.len() as int)));
    assert(pool_addresses(l.pools.subrange(0, i)) + pool_addresses(l.pools.subrange(i, l.pools.len() as int))
        =~= pool_addresses(l.pools));
}

/// The inside step of a lowered backrun line reads its input from the
/// multicaller's balance.
pub proof fn lemma_inside_step_reads_balance(l: SwapLineView, multicaller: Address)
    ensures
        backrun_steps(l, multicaller).1.len() == 1,
        backrun_steps(l, multicaller).1[0].amount_in == SwapAmountType::Balance(multicaller),
{
}

} // verus!

verus! {

/// Splitting a line keeps both halves lines, and the token where they meet
/// is the last of the head and the first of the tail.
pub proof fn lemma_split_keeps_lines(l: SwapLineView, i: int)
    requires
        line_wf(l),
        1 <= i <= l.pools.len(),
    ensures
        line_wf(line_head(l, i)),
        line_wf(line_tail(l, i)),
        line_head(l, i).tokens.last() == line_tail(l, i).tokens[0],
        line_head(l, i).tokens.last() == l.tokens[i],
{
}

} // verus!
