//! The swap-line compiler: from a line of pools to a multicaller program.
use vstd::prelude::*;
use crate::error::LoomError;
use crate::primitives::{Address, U256};
use crate::pool::{Pool, PoolClass, PreswapRequirement};
use crate::swap::{SwapAmountType, SwapLine, SwapLineView, line_wf};
use crate::calls::{CallType, CallView, MulticallerCall, MulticallerCalls, plain_call, with_call_stack};
use crate::abi::{erc20_transfer_data, encode_erc20_transfer, transfer_tips_data, transfer_tips_weth_data,
    encode_transfer_tips, encode_transfer_tips_weth};
use crate::hop::{
    hop_error, HopInput, hop_input, curve_hop, common_hop, encoded_amount, encoded_amount_of, is_stack_amount, balance_to_stack,
    new_balance_to_stack, push_curve_hop, push_common_hop, weth_spec, is_weth,
};

verus! {

/// The protocol-specific call data of swaps, supplied by the pool modules.
pub trait ProtocolAbiSwapEncoder {
    /// Call data that swaps `amount` of `token_from` for `token_to` on `pool`,
    /// paying `recipient`, with `payload` for a callback.
    fn encode_swap_in_amount_provided(
        &self,
        pool: &Pool,
        token_from: Address,
        token_to: Address,
        amount: U256,
        recipient: Address,
        payload: &Vec<u8>,
    ) -> Result<Vec<u8>, LoomError>;

    /// Call data that swaps `token_from` for `amount` of `token_to` on `pool`.
    fn encode_swap_out_amount_provided(
        &self,
        pool: &Pool,
        token_from: Address,
        token_to: Address,
        amount: U256,
        recipient: Address,
        payload: &Vec<u8>,
    ) -> Result<Vec<u8>, LoomError>;

    /// The byte offset of the input amount in the call data, if any.
    fn swap_in_amount_offset(&self, pool: &Pool, token_from: Address, token_to: Address) -> Option<u16>;

    /// The byte offset of the output amount in the call data, if any.
    fn swap_out_amount_offset(&self, pool: &Pool, token_from: Address, token_to: Address) -> Option<u16>;
}

/// The hop rule of a pool class; `None` for `Unknown`, which has none, for
/// an amount that is not set, and where the rule needs a missing offset.
pub open spec fn class_hop(h: HopInput) -> Option<Seq<CallView>> {
    match h.pool.class {
        PoolClass::Curve => curve_hop(HopInput { swap_to: h.multicaller, ..h }),
        PoolClass::Unknown => None,
        _ => common_hop(h),
    }
}

/// The Curve hop encoder.
pub struct CurveSwapOpcodesEncoder;

/// The encoder of the other supported classes.
pub struct StandardSwapOpcodesEncoder;

/// Asks the ABI encoder for a hop's call data and, for an amount taken from
/// the stack, for the offset at which it is spliced.
fn hop_abi<E: ProtocolAbiSwapEncoder>(
    abi: &E,
    pool: &Pool,
    from: Address,
    to: Address,
    amount: SwapAmountType,
    recipient: Address,
) -> (r: Result<(Vec<u8>, Option<u16>), LoomError>)
    ensures
        r matches Ok(p) ==> (!is_stack_amount(amount) ==> p.1 is None),
        amount is NotSet ==> r == Err::<(Vec<u8>, Option<u16>), LoomError>(LoomError::AmountNotSet),
{
    if let SwapAmountType::NotSet = amount {
        return Err(LoomError::AmountNotSet);
    }
    let empty: Vec<u8> = Vec::new();
    let data = abi.encode_swap_in_amount_provided(pool, from, to, encoded_amount_of(amount), recipient, &empty)?;
    let offset = match amount {
        SwapAmountType::Stack0 | SwapAmountType::RelativeStack(_) | SwapAmountType::Balance(_) => abi.swap_in_amount_offset(pool, from, to),
        _ => None,
    };
    Ok((data, offset))
}

impl CurveSwapOpcodesEncoder {
    /// Appends the opcodes of a Curve hop. Whatever call data and offset the
    /// ABI encoder gives, the opcodes are those of `curve_hop` for them; on
    /// an error nothing is appended.
    pub fn encode_swap_in_amount_provided<E: ProtocolAbiSwapEncoder>(
        &self,
        swap_opcodes: &mut MulticallerCalls,
        abi_encoder: &E,
        token_from_address: Address,
        token_to_address: Address,
        amount_in: SwapAmountType,
        cur_pool: &Pool,
        next_pool: Option<Pool>,
        multicaller: Address,
    ) -> (r: Result<(), LoomError>)
        ensures
            r is Ok ==> exists|d: Seq<u8>, o: Option<u16>|
                curve_hop(#[trigger] hop_input(token_from_address, token_to_address, amount_in, *cur_pool, next_pool, multicaller, multicaller, d, o))
                    == Some(final(swap_opcodes)@.subrange(old(swap_opcodes)@.len() as int, final(swap_opcodes)@.len() as int))
                && final(swap_opcodes)@.subrange(0, old(swap_opcodes)@.len() as int) == old(swap_opcodes)@,
            r is Err ==> final(swap_opcodes)@ == old(swap_opcodes)@,
            amount_in is NotSet ==> r == Err::<(), LoomError>(LoomError::AmountNotSet),
    {
        let (data, offset) = hop_abi(abi_encoder, cur_pool, token_from_address, token_to_address, amount_in, multicaller)?;
        let ghost d = data@;
        let ghost start = swap_opcodes@;
        push_curve_hop(swap_opcodes, token_from_address, token_to_address, amount_in, cur_pool, next_pool, multicaller, data, offset)?;
        proof {
            let h = hop_input(token_from_address, token_to_address, amount_in, *cur_pool, next_pool, multicaller, multicaller, d, offset);
            let s = curve_hop(h).unwrap();
            assert(swap_opcodes@ == start + s);
            assert(swap_opcodes@.subrange(start.len() as int, swap_opcodes@.len() as int) =~= s);
            assert(swap_opcodes@.subrange(0, start.len() as int) =~= start);
        }
        Ok(())
    }
}

impl StandardSwapOpcodesEncoder {
    /// Appends the opcodes of a hop of the common rule, whose output goes to
    /// `swap_to`. Whatever call data and offset the ABI encoder gives, the
    /// opcodes are those of `common_hop` for them; on an error nothing is
    /// appended.
    pub fn encode_swap_in_amount_provided<E: ProtocolAbiSwapEncoder>(
        &self,
        swap_opcodes: &mut MulticallerCalls,
        abi_encoder: &E,
        token_from_address: Address,
        token_to_address: Address,
        amount_in: SwapAmountType,
        cur_pool: &Pool,
        next_pool: Option<Pool>,
        swap_to: Address,
        multicaller: Address,
    ) -> (r: Result<(), LoomError>)
        ensures
            r is Ok ==> exists|d: Seq<u8>, o: Option<u16>|
                common_hop(#[trigger] hop_input(token_from_address, token_to_address, amount_in, *cur_pool, next_pool, swap_to, multicaller, d, o))
                    == Some(final(swap_opcodes)@.subrange(old(swap_opcodes)@.len() as int, final(swap_opcodes)@.len() as int))
                && final(swap_opcodes)@.subrange(0, old(swap_opcodes)@.len() as int) == old(swap_opcodes)@,
            r is Err ==> final(swap_opcodes)@ == old(swap_opcodes)@,
            amount_in is NotSet ==> r == Err::<(), LoomError>(LoomError::AmountNotSet),
    {
        let (data, offset) = hop_abi(abi_encoder, cur_pool, token_from_address, token_to_address, amount_in, swap_to)?;
        let ghost d = data@;
        let ghost start = swap_opcodes@;
        push_common_hop(swap_opcodes, token_from_address, token_to_address, amount_in, cur_pool, next_pool, swap_to, multicaller, data, offset)?;
        proof {
            let h = hop_input(token_from_address, token_to_address, amount_in, *cur_pool, next_pool, swap_to, multicaller, d, offset);
            let s = common_hop(h).unwrap();
            assert(swap_opcodes@.subrange(start.len() as int, swap_opcodes@.len() as int) =~= s);
            assert(swap_opcodes@.subrange(0, start.len() as int) =~= start);
        }
        Ok(())
    }
}

/// What the ABI encoder gave for one hop: the swap's call data and the
/// offset at which a stack amount is spliced.
#[derive(Debug)]
pub struct HopAbi {
    pub data: Vec<u8>,
    pub offset: Option<u16>,
}

pub open spec fn hop_abi_views(v: Seq<HopAbi>) -> Seq<(Seq<u8>, Option<u16>)> {
    v.map_values(|h: HopAbi| (h.data@, h.offset))
}

/// A hop's opcodes by its pool's class; `UnsupportedPoolClass` for
/// `Unknown`, else `hop_error` where the rule gives none.
pub open spec fn hop_result(h: HopInput) -> Result<Seq<CallView>, LoomError> {
    if h.pool.class == PoolClass::Unknown {
        Err(LoomError::UnsupportedPoolClass)
    } else {
        match class_hop(h) {
            Some(s) => Ok(s),
            None => Err(hop_error(h.amount)),
        }
    }
}

/// The first pool wants its input pushed to an address other than where the
/// funds are.
pub open spec fn first_needs_transfer(l: SwapLineView, funds_from: Address) -> bool {
    l.pools.len() > 0 && (l.pools[0].preswap matches PreswapRequirement::Transfer(at) && at != funds_from)
}

pub open spec fn first_transfer_target(l: SwapLineView) -> Address {
    match l.pools[0].preswap {
        PreswapRequirement::Transfer(at) => at,
        _ => l.tokens[0],
    }
}

/// The opcodes before the first hop: the transfer of the input to the first
/// pool when it wants it pushed (of the fixed amount, of the balance read
/// onto the stack, or of the amount on the stack).
pub open spec fn preamble(l: SwapLineView, funds_from: Address) -> Seq<CallView> {
    if first_needs_transfer(l, funds_from) {
        let at = first_transfer_target(l);
        let token = l.tokens[0];
        match l.amount_in {
            SwapAmountType::Fixed(v) => seq![plain_call(token, CallType::Call, erc20_transfer_data(at, v), None)],
            SwapAmountType::Balance(owner) => seq![
                balance_to_stack(token, owner),
                with_call_stack(plain_call(token, CallType::Call, erc20_transfer_data(at, U256::zero_spec()), None), true, 0, 0x24, 0x20),
            ],
            _ => seq![with_call_stack(plain_call(token, CallType::Call, erc20_transfer_data(at, U256::zero_spec()), None), false, 0, 0x24, 0x20)],
        }
    } else {
        Seq::empty()
    }
}

/// The amount of hop `i`: the line's input for the first (a balance that the
/// preamble read becomes the top of the stack), the previous output after.
pub open spec fn hop_amount(l: SwapLineView, funds_from: Address, i: int) -> SwapAmountType {
    if i == 0 {
        if first_needs_transfer(l, funds_from) && l.amount_in is Balance {
            SwapAmountType::RelativeStack(0)
        } else {
            l.amount_in
        }
    } else {
        SwapAmountType::RelativeStack(0)
    }
}

pub open spec fn hop_next(l: SwapLineView, i: int) -> Option<Pool> {
    if i + 1 < l.pools.len() {
        Some(l.pools[i + 1])
    } else {
        None
    }
}

/// Where hop `i` sends its output: the next pool when it wants its input
/// pushed, else the multicaller; the last hop sends it to `funds_to`.
pub open spec fn hop_swap_to(l: SwapLineView, i: int, funds_to: Address, multicaller: Address) -> Address {
    if i + 1 < l.pools.len() {
        match l.pools[i + 1].preswap {
            PreswapRequirement::Transfer(a) => a,
            _ => multicaller,
        }
    } else {
        funds_to
    }
}

pub open spec fn line_hop(
    l: SwapLineView,
    funds_from: Address,
    funds_to: Address,
    multicaller: Address,
    abi: Seq<(Seq<u8>, Option<u16>)>,
    i: int,
) -> HopInput {
    hop_input(
        l.tokens[i],
        l.tokens[i + 1],
        hop_amount(l, funds_from, i),
        l.pools[i],
        hop_next(l, i),
        hop_swap_to(l, i, funds_to, multicaller),
        multicaller,
        abi[i].0,
        abi[i].1,
    )
}

/// The opcodes of the first `k` hops, or the first hop's error.
pub open spec fn line_hops(
    l: SwapLineView,
    funds_from: Address,
    funds_to: Address,
    multicaller: Address,
    abi: Seq<(Seq<u8>, Option<u16>)>,
    k: int,
) -> Result<Seq<CallView>, LoomError>
    decreases k,
{
    if k <= 0 {
        Ok(Seq::empty())
    } else {
        match line_hops(l, funds_from, funds_to, multicaller, abi, k - 1) {
            Err(e) => Err(e),
            Ok(s) => match hop_result(line_hop(l, funds_from, funds_to, multicaller, abi, k - 1)) {
                Err(e) => Err(e),
                Ok(h) => Ok(s + h),
            },
        }
    }
}

/// The program of a line whose input amount is given: the preamble, then
/// each hop in order, the first consuming the line's input and each next one
/// the previous hop's output.
pub open spec fn swap_line_calls(
    l: SwapLineView,
    funds_from: Address,
    funds_to: Address,
    multicaller: Address,
    abi: Seq<(Seq<u8>, Option<u16>)>,
) -> Result<Seq<CallView>, LoomError> {
    match line_hops(l, funds_from, funds_to, multicaller, abi, l.pools.len() as int) {
        Ok(s) => Ok(preamble(l, funds_from) + s),
        Err(e) => Err(e),
    }
}

fn line_first_needs_transfer(line: &SwapLine, funds_from: Address) -> (r: Option<Address>)
    ensures
        r is Some == first_needs_transfer(line@, funds_from),
        r matches Some(at) ==> at == first_transfer_target(line@),
{
    if line.path.pools.len() == 0 {
        return None;
    }
    match line.path.pools[0].preswap {
        PreswapRequirement::Transfer(at) => {
            if at != funds_from {
                Some(at)
            } else {
                None
            }
        },
        _ => None,
    }
}

fn line_hop_amount(line: &SwapLine, funds_from: Address, i: usize) -> (r: SwapAmountType)
    ensures
        r == hop_amount(line@, funds_from, i as int),
{
    if i == 0 {
        match line_first_needs_transfer(line, funds_from) {
            Some(_) => match line.amount_in {
                SwapAmountType::Balance(_) => SwapAmountType::RelativeStack(0),
                _ => line.amount_in,
            },
            None => line.amount_in,
        }
    } else {
        SwapAmountType::RelativeStack(0)
    }
}

fn line_hop_swap_to(line: &SwapLine, i: usize, funds_to: Address, multicaller: Address) -> (r: Address)
    requires
        i < line@.pools.len(),
    ensures
        r == hop_swap_to(line@, i as int, funds_to, multicaller),
{
    if i < line.path.pools.len() - 1 {
        match line.path.pools[i + 1].preswap {
            PreswapRequirement::Transfer(a) => a,
            _ => multicaller,
        }
    } else {
        funds_to
    }
}

fn line_hop_next(line: &SwapLine, i: usize) -> (r: Option<Pool>)
    requires
        i < line@.pools.len(),
    ensures
        r == hop_next(line@, i as int),
{
    if i < line.path.pools.len() - 1 {
        Some(line.path.pools[i + 1])
    } else {
        None
    }
}

fn push_preamble(ops: &mut MulticallerCalls, line: &SwapLine, funds_from: Address)
    requires
        line_wf(line@),
    ensures
        final(ops)@ == old(ops)@ + preamble(line@, funds_from),
{
    match line_first_needs_transfer(line, funds_from) {
        Some(at) => {
            let token = line.path.tokens[0];
            match line.amount_in {
                SwapAmountType::Fixed(v) => {
                    ops.add(MulticallerCall::new_call(token, encode_erc20_transfer(at, v)));
                },
                SwapAmountType::Balance(owner) => {
                    ops.add(new_balance_to_stack(token, owner));
                    let mut c = MulticallerCall::new_call(token, encode_erc20_transfer(at, U256::zero()));
                    c.set_call_stack(true, 0, 0x24, 0x20);
                    ops.add(c);
                },
                _ => {
                    let mut c = MulticallerCall::new_call(token, encode_erc20_transfer(at, U256::zero()));
                    c.set_call_stack(false, 0, 0x24, 0x20);
                    ops.add(c);
                },
            }
        },
        None => {},
    }
    assert(final(ops)@ =~= old(ops)@ + preamble(line@, funds_from));
}

/// Appends the opcodes of one hop by its pool's class.
fn push_hop(
    ops: &mut MulticallerCalls,
    from: Address,
    to: Address,
    amount: SwapAmountType,
    pool: &Pool,
    next: Option<Pool>,
    swap_to: Address,
    multicaller: Address,
    data: Vec<u8>,
    offset: Option<u16>,
) -> (r: Result<(), LoomError>)
    ensures
        match hop_result(hop_input(from, to, amount, *pool, next, swap_to, multicaller, data@, offset)) {
            Ok(s) => r is Ok && final(ops)@ == old(ops)@ + s,
            Err(e) => r == Err::<(), LoomError>(e) && final(ops)@ == old(ops)@,
        },
{
    match pool.class {
        PoolClass::Unknown => Err(LoomError::UnsupportedPoolClass),
        PoolClass::Curve => push_curve_hop(ops, from, to, amount, pool, next, multicaller, data, offset),
        _ => push_common_hop(ops, from, to, amount, pool, next, swap_to, multicaller, data, offset),
    }
}

/// Compiles a line whose input amount is given, from what the ABI encoder
/// gave for each hop: the result is `swap_line_calls` exactly.
pub fn compile_swap_line(
    line: &SwapLine,
    funds_from: Address,
    funds_to: Address,
    multicaller: Address,
    hops: &Vec<HopAbi>,
) -> (r: Result<MulticallerCalls, LoomError>)
    requires
        line_wf(line@),
        hops@.len() == line@.pools.len(),
    ensures
        match swap_line_calls(line@, funds_from, funds_to, multicaller, hop_abi_views(hops@)) {
            Ok(s) => r matches Ok(c) && c@ == s,
            Err(e) => r == Err::<MulticallerCalls, LoomError>(e),
        },
{
    let ghost abi = hop_abi_views(hops@);
    let mut ops = MulticallerCalls::new();
    push_preamble(&mut ops, line, funds_from);
    let ghost pre = ops@;
    assert(ops@.subrange(pre.len() as int, ops@.len() as int) =~= Seq::<CallView>::empty());
    assert(ops@.subrange(0, pre.len() as int) =~= pre);
    let n = line.path.pools.len();
    let mut i: usize = 0;
    while i < n
        invariant
            n == line@.pools.len(),
            line_wf(line@),
            hops@.len() == n,
            abi == hop_abi_views(hops@),
            i <= n,
            pre == preamble(line@, funds_from),
            line_hops(line@, funds_from, funds_to, multicaller, abi, i as int) == Ok::<Seq<CallView>, LoomError>(
                ops@.subrange(pre.len() as int, ops@.len() as int),
            ),
            ops@.subrange(0, pre.len() as int) == pre,
            ops@.len() >= pre.len(),
        decreases n - i,
    {
        let ghost before = ops@;
        let from = line.path.tokens[i];
        let to = line.path.tokens[i + 1];
        let pool = line.path.pools[i];
        let amount = line_hop_amount(line, funds_from, i);
        let next = line_hop_next(line, i);
        let swap_to = line_hop_swap_to(line, i, funds_to, multicaller);
        let data = crate::pool::copy_vec(&hops[i].data);
        let offset = hops[i].offset;
        let ghost h = line_hop(line@, funds_from, funds_to, multicaller, abi, i as int);
        assert(h == hop_input(from, to, amount, pool, next, swap_to, multicaller, data@, offset));
        let res = push_hop(&mut ops, from, to, amount, &pool, next, swap_to, multicaller, data, offset);
        match res {
            Ok(()) => {},
            Err(e) => {
                proof {
                    assert(hop_result(h) == Err::<Seq<CallView>, LoomError>(e));
                    assert(line_hops(line@, funds_from, funds_to, multicaller, abi, i + 1) == Err::<Seq<CallView>, LoomError>(e));
                    lemma_line_hops_err_stays(line@, funds_from, funds_to, multicaller, abi, i + 1, n as int);
                }
                return Err(e);
            },
        }
        proof {
            let hs = hop_result(h).unwrap();
            assert(ops@ == before + hs);
            assert(ops@.subrange(0, pre.len() as int) =~= pre) by {
                assert(before.subrange(0, pre.len() as int) == pre);
            }
            assert(ops@.subrange(pre.len() as int, ops@.len() as int) =~= before.subrange(pre.len() as int, before.len() as int) + hs);
        }
        i = i + 1;
    }
    proof {
        assert(ops@ =~= pre + ops@.subrange(pre.len() as int, ops@.len() as int));
    }
    Ok(ops)
}

proof fn lemma_line_hops_err_stays(
    l: SwapLineView,
    ff: Address,
    ft: Address,
    mc: Address,
    abi: Seq<(Seq<u8>, Option<u16>)>,
    k: int,
    n: int,
)
    requires
        0 <= k <= n,
        line_hops(l, ff, ft, mc, abi, k) is Err,
    ensures
        line_hops(l, ff, ft, mc, abi, n) == line_hops(l, ff, ft, mc, abi, k),
    decreases n - k,
{
    if k < n {
        lemma_line_hops_err_stays(l, ff, ft, mc, abi, k + 1, n);
    }
}

/// What the ABI encoder is asked for one hop of a line.
#[derive(Clone, Copy, Debug, PartialEq, Eq, Structural)]
pub struct HopRequest {
    pub pool: Pool,
    pub token_from: Address,
    pub token_to: Address,
    /// The fixed amount, or zero where the amount is spliced from the stack.
    pub amount: U256,
    /// The multicaller for Curve pools, else where the hop sends its output.
    pub recipient: Address,
    /// The amount comes from the stack, so its offset is needed.
    pub needs_offset: bool,
}

pub open spec fn hop_request_spec(l: SwapLineView, funds_from: Address, funds_to: Address, multicaller: Address, i: int) -> HopRequest {
    HopRequest {
        pool: l.pools[i],
        token_from: l.tokens[i],
        token_to: l.tokens[i + 1],
        amount: encoded_amount(hop_amount(l, funds_from, i)),
        recipient: if l.pools[i].class == PoolClass::Curve {
            multicaller
        } else {
            hop_swap_to(l, i, funds_to, multicaller)
        },
        needs_offset: is_stack_amount(hop_amount(l, funds_from, i)),
    }
}

/// The request to the ABI encoder for hop `i` of a line.
pub fn hop_request(line: &SwapLine, i: usize, funds_from: Address, funds_to: Address, multicaller: Address) -> (r: HopRequest)
    requires
        line_wf(line@),
        i < line@.pools.len(),
    ensures
        r == hop_request_spec(line@, funds_from, funds_to, multicaller, i as int),
{
    let pool = line.path.pools[i];
    let n = line.path.tokens.len();
    assert(i + 1 < n);
    let amount = line_hop_amount(line, funds_from, i);
    let recipient = match pool.class {
        PoolClass::Curve => multicaller,
        _ => line_hop_swap_to(line, i, funds_to, multicaller),
    };
    let needs_offset = match amount {
        SwapAmountType::Stack0 | SwapAmountType::RelativeStack(_) | SwapAmountType::Balance(_) => true,
        _ => false,
    };
    HopRequest {
        pool,
        token_from: line.path.tokens[i],
        token_to: line.path.tokens[i + 1],
        amount: encoded_amount_of(amount),
        recipient,
        needs_offset,
    }
}

/// Compiles lines into multicaller programs for one multicaller contract.
pub struct SwapLineEncoder<E> {
    pub multicaller_address: Address,
    pub abi_encoder: E,
}

impl<E: ProtocolAbiSwapEncoder> SwapLineEncoder<E> {
    pub fn new(multicaller_address: Address, abi_encoder: E) -> (r: SwapLineEncoder<E>)
        ensures
            r.multicaller_address == multicaller_address,
    {
        SwapLineEncoder { multicaller_address, abi_encoder }
    }

    /// Asks the ABI encoder for each hop's call data (by `hop_request`) and,
    /// for an amount from the stack, its offset, in order; fails at the first
    /// pool of class `Unknown` or the first ABI error.
    pub fn collect_hop_abi(&self, line: &SwapLine, funds_from: Address, funds_to: Address) -> (r: Result<Vec<HopAbi>, LoomError>)
        requires
            line_wf(line@),
        ensures
            r matches Ok(v) ==> v@.len() == line@.pools.len(),
            (exists|k: int| 0 <= k < line@.pools.len() && (#[trigger] line@.pools[k]).class == PoolClass::Unknown) ==> r is Err,
            line@.pools.len() > 0 && line@.pools[0].class == PoolClass::Unknown ==> r == Err::<Vec<HopAbi>, LoomError>(
                LoomError::UnsupportedPoolClass,
            ),
            line@.pools.len() > 0 && line@.pools[0].class != PoolClass::Unknown && hop_amount(line@, funds_from, 0) is NotSet ==> r
                == Err::<Vec<HopAbi>, LoomError>(LoomError::AmountNotSet),
    {
        let n = line.path.pools.len();
        let mut out: Vec<HopAbi> = Vec::new();
        let mut i: usize = 0;
        while i < n
            invariant
                n == line@.pools.len(),
                line_wf(line@),
                i <= n,
                out@.len() == i,
                forall|k: int| 0 <= k < i ==> (#[trigger] line@.pools[k]).class != PoolClass::Unknown,
                i > 0 ==> !(hop_amount(line@, funds_from, 0) is NotSet),
            decreases n - i,
        {
            if line.path.pools[i].class == PoolClass::Unknown {
                return Err(LoomError::UnsupportedPoolClass);
            }
            if let SwapAmountType::NotSet = line_hop_amount(line, funds_from, i) {
                return Err(LoomError::AmountNotSet);
            }
            let req = hop_request(line, i, funds_from, funds_to, self.multicaller_address);
            let empty: Vec<u8> = Vec::new();
            let data = self.abi_encoder.encode_swap_in_amount_provided(&req.pool, req.token_from, req.token_to, req.amount, req.recipient, &empty)?;
            let offset = if req.needs_offset {
                self.abi_encoder.swap_in_amount_offset(&req.pool, req.token_from, req.token_to)
            } else {
                None
            };
            out.push(HopAbi { data, offset });
            i = i + 1;
        }
        Ok(out)
    }

    /// Compiles a line whose input amount is given: the program is
    /// `swap_line_calls` for the call data and offsets that the ABI encoder
    /// gave; a pool of class `Unknown` fails it.
    pub fn encode_swap_line_in_amount(&self, swap_path: &SwapLine, funds_from: Address, funds_to: Address) -> (r: Result<MulticallerCalls, LoomError>)
        requires
            line_wf(swap_path@),
        ensures
            r matches Ok(c) ==> exists|abi: Seq<(Seq<u8>, Option<u16>)>|
                abi.len() == swap_path@.pools.len() && #[trigger] swap_line_calls(swap_path@, funds_from, funds_to, self.multicaller_address, abi)
                    == Ok::<Seq<CallView>, LoomError>(c@),
            (exists|k: int| 0 <= k < swap_path@.pools.len() && (#[trigger] swap_path@.pools[k]).class == PoolClass::Unknown) ==> r is Err,
            swap_path@.pools.len() > 0 && swap_path@.pools[0].class == PoolClass::Unknown ==> r == Err::<MulticallerCalls, LoomError>(
                LoomError::UnsupportedPoolClass,
            ),
            swap_path@.pools.len() > 0 && swap_path@.pools[0].class != PoolClass::Unknown && hop_amount(swap_path@, funds_from, 0)
                is NotSet ==> r == Err::<MulticallerCalls, LoomError>(LoomError::AmountNotSet),
    {
        let hops = self.collect_hop_abi(swap_path, funds_from, funds_to)?;
        let r = compile_swap_line(swap_path, funds_from, funds_to, self.multicaller_address, &hops);
        proof {
            let abi = hop_abi_views(hops@);
            if r is Ok {
                assert(swap_line_calls(swap_path@, funds_from, funds_to, self.multicaller_address, abi) == Ok::<Seq<CallView>, LoomError>(r->Ok_0@));
            }
        }
        r
    }

    /// Appends an internal call that pays `tips` of `token_address` to `to`
    /// when the multicaller keeps more than `min_balance` of it; for the
    /// wrapped native token, the helper that unwraps before paying.
    pub fn encode_tips(
        &self,
        swap_opcodes: MulticallerCalls,
        token_address: Address,
        min_balance: U256,
        tips: U256,
        to: Address,
    ) -> (r: Result<MulticallerCalls, LoomError>)
        ensures
            r matches Ok(c) && c@ == swap_opcodes@.push(plain_call(
                Address::zero_spec(),
                CallType::InternalCall,
                if token_address == weth_spec() {
                    transfer_tips_weth_data(min_balance, tips, to)
                } else {
                    transfer_tips_data(token_address, min_balance, tips, to)
                },
                None,
            )),
    {
        let mut ops = swap_opcodes;
        let data = if is_weth(token_address) {
            encode_transfer_tips_weth(min_balance, tips, to)
        } else {
            encode_transfer_tips(token_address, min_balance, tips, to)
        };
        ops.add(MulticallerCall::new_internal_call(data));
        Ok(ops)
    }

    /// Flash swaps through a dYdX-style lender are not supported.
    pub fn encode_flash_swap_dydx(&self, _inside_swap_opcodes: MulticallerCalls, _funds_from: Address) -> (r: Result<MulticallerCalls, LoomError>)
        ensures
            r == Err::<MulticallerCalls, LoomError>(LoomError::NotImplemented),
    {
        Err(LoomError::NotImplemented)
    }
}

} // verus!

verus! {

/// A line of a Uniswap V2 pool that wants its input pushed, then a Uniswap
/// V3 pool, with a fixed input: the program transfers the input to the V2
/// pool, swaps on it and pushes its output on the stack, then approves and
/// swaps on the V3 pool with the amount spliced from the top of the stack at
/// the offset the ABI encoder gave, and pushes that pool's output.
pub proof fn lemma_v2_then_v3_line(
    l: SwapLineView,
    funds_from: Address,
    funds_to: Address,
    multicaller: Address,
    abi: Seq<(Seq<u8>, Option<u16>)>,
    v: U256,
)
    requires
        line_wf(l),
        l.pools.len() == 2,
        l.pools[0].class == PoolClass::UniswapV2,
        l.pools[0].preswap == PreswapRequirement::Transfer(l.pools[0].address),
        l.pools[0].address != funds_from,
        !l.pools[0].native,
        l.pools[1].class == PoolClass::UniswapV3,
        !(l.pools[1].preswap is Transfer),
        !l.pools[1].native,
        l.amount_in == SwapAmountType::Fixed(v),
        abi.len() == 2,
        abi[1].1 is Some,
    ensures
        swap_line_calls(l, funds_from, funds_to, multicaller, abi) == Ok::<Seq<CallView>, LoomError>(
            seq![
                plain_call(l.tokens[0], CallType::Call, erc20_transfer_data(l.pools[0].address, v), None),
                crate::calls::with_return_stack(plain_call(l.pools[0].address, CallType::Call, abi[0].0, None), true, 0, 0, 0x20),
                with_call_stack(
                    plain_call(l.tokens[1], CallType::Call, crate::abi::erc20_approve_data(l.pools[1].address, U256::zero_spec()), None),
                    true,
                    0,
                    0x24,
                    0x20,
                ),
                crate::calls::with_return_stack(
                    with_call_stack(plain_call(l.pools[1].address, CallType::Call, abi[1].0, None), true, 0, abi[1].1.unwrap(), 0x20),
                    true,
                    0,
                    0,
                    0x20,
                ),
            ],
        ),
{
    let h0 = line_hop(l, funds_from, funds_to, multicaller, abi, 0);
    let h1 = line_hop(l, funds_from, funds_to, multicaller, abi, 1);
    assert(h0.amount == SwapAmountType::Fixed(v));
    assert(h1.amount == SwapAmountType::RelativeStack(0));
    let s0 = seq![crate::calls::with_return_stack(plain_call(l.pools[0].address, CallType::Call, abi[0].0, None), true, 0, 0, 0x20)];
    assert(crate::hop::swap_part(h0.from, h0.pool.address, h0.amount, h0.data, h0.offset, false, false, true) == Some(s0)) by {
        assert(crate::hop::pre_swap_calls(h0.from, h0.pool.address, v, false, false) + s0 =~= s0);
    }
    assert(common_hop(h0) == Some(s0)) by {
        assert(s0 + crate::hop::rewrap_calls(h0.to, false) =~= s0);
    }
    let s1 = seq![
        with_call_stack(
            plain_call(l.tokens[1], CallType::Call, crate::abi::erc20_approve_data(l.pools[1].address, U256::zero_spec()), None),
            true,
            0,
            0x24,
            0x20,
        ),
        crate::calls::with_return_stack(
            with_call_stack(plain_call(l.pools[1].address, CallType::Call, abi[1].0, None), true, 0, abi[1].1.unwrap(), 0x20),
            true,
            0,
            0,
            0x20,
        ),
    ];
    assert(common_hop(h1) == Some(s1)) by {
        let sp = crate::hop::swap_part(h1.from, h1.pool.address, h1.amount, h1.data, h1.offset, false, true, true);
        assert(sp == Some(Seq::<CallView>::empty() + crate::hop::pre_swap_calls_stack(h1.from, h1.pool.address, false, true, true, 0) + seq![
            crate::calls::with_return_stack(
                with_call_stack(crate::hop::swap_call(h1.pool.address, h1.data, false, U256::zero_spec()), true, 0, abi[1].1.unwrap(), 0x20),
                true,
                0,
                0,
                0x20,
            ),
        ]));
        assert(sp.unwrap() =~= s1);
        assert(s1 + crate::hop::rewrap_calls(h1.to, false) =~= s1);
    }
    assert(hop_result(h0) == Ok::<Seq<CallView>, LoomError>(s0));
    assert(hop_result(h1) == Ok::<Seq<CallView>, LoomError>(s1));
    assert(line_hops(l, funds_from, funds_to, multicaller, abi, 0) == Ok::<Seq<CallView>, LoomError>(Seq::empty()));
    assert(line_hops(l, funds_from, funds_to, multicaller, abi, 1) == Ok::<Seq<CallView>, LoomError>(Seq::empty() + s0));
    assert(line_hops(l, funds_from, funds_to, multicaller, abi, 2) == Ok::<Seq<CallView>, LoomError>(Seq::empty() + s0 + s1));
    assert(preamble(l, funds_from) =~= seq![plain_call(l.tokens[0], CallType::Call, erc20_transfer_data(l.pools[0].address, v), None)]);
    assert(preamble(l, funds_from) + (Seq::empty() + s0 + s1) =~= seq![
        plain_call(l.tokens[0], CallType::Call, erc20_transfer_data(l.pools[0].address, v), None),
        s0[0],
        s1[0],
        s1[1],
    ]);
}

} // verus!
