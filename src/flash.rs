//! Flash-swap programs: each flash pool is called with the program that
//! repays it packed as its callback data, built from the inside out.
use vstd::prelude::*;
use crate::error::LoomError;
use crate::primitives::{Address, U256};
use crate::pool::{Pool, PoolClass, PreswapRequirement};
use crate::swap::{SwapAmountType, SwapLine, SwapLineView, line_wf, class_can_flash, class_flashes};
use crate::calls::{
    CallType, CallView, MulticallerCall, MulticallerCalls, plain_call, with_call_stack, all_packable, pack_do_calls_data, pack_calls,
};
use crate::abi::{
    erc20_transfer_data, uni2_get_out_amount_data, uni2_get_in_amount_data, encode_erc20_transfer,
    encode_uni2_get_out_amount, encode_uni2_get_in_amount,
};
use crate::hop::{encoded_amount, encoded_amount_of};
use crate::encoder::{ProtocolAbiSwapEncoder, SwapLineEncoder};

verus! {

pub open spec fn transfer_call(token: Address, to: Address, amount: U256) -> CallView {
    plain_call(token, CallType::Call, erc20_transfer_data(to, amount), None)
}

/// A transfer of the amount in stack slot `slot` (counted from the bottom).
pub open spec fn stack_transfer(token: Address, to: Address, slot: u8) -> CallView {
    with_call_stack(transfer_call(token, to, U256::zero_spec()), false, slot, 0x24, 0x20)
}

fn new_transfer(token: Address, to: Address, amount: U256) -> (r: MulticallerCall)
    ensures
        r@ == transfer_call(token, to, amount),
{
    MulticallerCall::new_call(token, encode_erc20_transfer(to, amount))
}

fn new_stack_transfer(token: Address, to: Address, slot: u8) -> (r: MulticallerCall)
    ensures
        r@ == stack_transfer(token, to, slot),
{
    let mut c = MulticallerCall::new_call(token, encode_erc20_transfer(to, U256::zero()));
    c.set_call_stack(false, slot, 0x24, 0x20);
    c
}

// ---- Flash swaps whose input amount is given, built from the last pool back.

/// The amount of the flash pool of step `k`: the line's input for the first
/// pool, which comes last, and the stack for the others.
pub open spec fn flash_in_amount(l: SwapLineView, k: int) -> SwapAmountType {
    if k == l.pools.len() - 1 {
        l.amount_in
    } else {
        SwapAmountType::Stack0
    }
}

/// The inside program of step `k` with what repays the flash pool: the
/// transfer of the borrowed tokens to the pool, for a Uniswap V2 pool also
/// the forwarding of its output to the pool after it and, for the last
/// pool, to `funds_to`.
pub open spec fn flash_in_setup(l: SwapLineView, k: int, inside: Seq<CallView>, funds_to: Address, multicaller: Address) -> Seq<CallView> {
    let j = l.pools.len() - 1 - k;
    let pool = l.pools[j];
    let from = l.tokens[j];
    let to = l.tokens[j + 1];
    let amount = flash_in_amount(l, k);
    if pool.class == PoolClass::UniswapV2 {
        let fwd = if k > 0 {
            match l.pools[j + 1].preswap {
                PreswapRequirement::Transfer(t) => seq![stack_transfer(to, t, 0)],
                _ => Seq::empty(),
            }
        } else {
            Seq::empty()
        };
        let paid = match amount {
            SwapAmountType::Fixed(a) => (fwd + inside).push(transfer_call(from, pool.address, a)),
            _ => fwd + inside,
        };
        if k == 0 && funds_to != multicaller {
            seq![stack_transfer(to, funds_to, 0)] + paid
        } else {
            paid
        }
    } else {
        inside.push(
            match amount {
                SwapAmountType::Fixed(a) => transfer_call(from, pool.address, a),
                _ => stack_transfer(from, pool.address, 1),
            },
        )
    }
}

/// The outer program of step `k`, from the call data and offset that the
/// ABI encoder gave for the flash pool's swap: for Uniswap V2 the
/// multicaller's output-amount helper, then the swap of that amount out;
/// for the others the swap of the amount in.
pub open spec fn flash_in_outer(l: SwapLineView, k: int, data: Seq<u8>, offset: Option<u16>) -> Result<Seq<CallView>, LoomError> {
    let j = l.pools.len() - 1 - k;
    let pool = l.pools[j];
    let from = l.tokens[j];
    let to = l.tokens[j + 1];
    let amount = flash_in_amount(l, k);
    if pool.class == PoolClass::UniswapV2 {
        let get_out = match amount {
            SwapAmountType::Fixed(a) => plain_call(
                Address::zero_spec(),
                CallType::InternalCall,
                uni2_get_out_amount_data(from, to, pool.address, a, pool.fee),
                None,
            ),
            _ => with_call_stack(
                plain_call(
                    Address::zero_spec(),
                    CallType::InternalCall,
                    uni2_get_out_amount_data(from, to, pool.address, U256::zero_spec(), pool.fee),
                    None,
                ),
                false,
                0,
                0x24,
                0x20,
            ),
        };
        match offset {
            None => Err(LoomError::MissingOffset),
            Some(off) => Ok(seq![get_out, with_call_stack(plain_call(pool.address, CallType::Call, data, None), true, 0, off, 0x20)]),
        }
    } else {
        match amount {
            SwapAmountType::Fixed(_) => Ok(seq![plain_call(pool.address, CallType::Call, data, None)]),
            _ => match offset {
                None => Err(LoomError::MissingOffset),
                Some(off) => Ok(seq![with_call_stack(plain_call(pool.address, CallType::Call, data, None), false, 0, off, 0x20)]),
            },
        }
    }
}

/// The program after `k` steps, each wrapping the previous one.
pub open spec fn flash_in_steps(
    l: SwapLineView,
    inside: Seq<CallView>,
    funds_to: Address,
    multicaller: Address,
    abi: Seq<(Seq<u8>, Option<u16>)>,
    k: int,
) -> Result<Seq<CallView>, LoomError>
    decreases k,
{
    if k <= 0 {
        Ok(inside)
    } else {
        match flash_in_steps(l, inside, funds_to, multicaller, abi, k - 1) {
            Err(e) => Err(e),
            Ok(prev) => {
                if !class_can_flash(l.pools[l.pools.len() - k].class) {
                    Err(LoomError::UnsupportedPoolClass)
                } else if !all_packable(flash_in_setup(l, k - 1, prev, funds_to, multicaller)) {
                    Err(LoomError::Unpackable)
                } else {
                    flash_in_outer(l, k - 1, abi[k - 1].0, abi[k - 1].1)
                }
            },
        }
    }
}

/// The flash program of a line whose input amount is given, around the
/// program `inside`; empty for a line without pools.
pub open spec fn flash_in_program(
    l: SwapLineView,
    inside: Seq<CallView>,
    funds_to: Address,
    multicaller: Address,
    abi: Seq<(Seq<u8>, Option<u16>)>,
) -> Result<Seq<CallView>, LoomError> {
    if l.pools.len() == 0 {
        Ok(Seq::empty())
    } else {
        flash_in_steps(l, inside, funds_to, multicaller, abi, l.pools.len() as int)
    }
}

proof fn lemma_steps_prefix(
    l: SwapLineView,
    inside: Seq<CallView>,
    ft: Address,
    mc: Address,
    a: Seq<(Seq<u8>, Option<u16>)>,
    b: Seq<(Seq<u8>, Option<u16>)>,
    k: int,
)
    requires
        0 <= k <= a.len(),
        k <= b.len(),
        forall|x: int| 0 <= x < k ==> #[trigger] a[x] == b[x],
    ensures
        flash_in_steps(l, inside, ft, mc, a, k) == flash_in_steps(l, inside, ft, mc, b, k),
    decreases k,
{
    if k > 0 {
        lemma_steps_prefix(l, inside, ft, mc, a, b, k - 1);
        assert(a[k - 1] == b[k - 1]);
    }
}

fn flash_in_setup_exec(inside: &mut MulticallerCalls, line: &SwapLine, k: usize, funds_to: Address, multicaller: Address)
    requires
        line_wf(line@),
        k < line@.pools.len(),
    ensures
        final(inside)@ == flash_in_setup(line@, k as int, old(inside)@, funds_to, multicaller),
{
    let n = line.path.pools.len();
    let j = n - 1 - k;
    let pool = line.path.pools[j];
    let from = line.path.tokens[j];
    let to = line.path.tokens[j + 1];
    let amount = if k == n - 1 { line.amount_in } else { SwapAmountType::Stack0 };
    if pool.class == PoolClass::UniswapV2 {
        if k > 0 {
            match line.path.pools[j + 1].preswap {
                PreswapRequirement::Transfer(t) => inside.insert(new_stack_transfer(to, t, 0)),
                _ => {},
            }
        }
        match amount {
            SwapAmountType::Fixed(a) => inside.add(new_transfer(from, pool.address, a)),
            _ => {},
        }
        if k == 0 && funds_to != multicaller {
            inside.insert(new_stack_transfer(to, funds_to, 0));
        }
    } else {
        match amount {
            SwapAmountType::Fixed(a) => inside.add(new_transfer(from, pool.address, a)),
            _ => inside.add(new_stack_transfer(from, pool.address, 1)),
        }
    }
    assert(final(inside)@ =~= flash_in_setup(line@, k as int, old(inside)@, funds_to, multicaller));
}

/// The outer program of step `k` of an in-amount flash program, from what
/// the ABI encoder gave: `flash_in_outer` exactly.
pub fn flash_in_outer_call(line: &SwapLine, k: usize, data: Vec<u8>, offset: Option<u16>) -> (r: Result<MulticallerCalls, LoomError>)
    requires
        line_wf(line@),
        k < line@.pools.len(),
    ensures
        match flash_in_outer(line@, k as int, data@, offset) {
            Ok(s) => r matches Ok(c) && c@ == s,
            Err(e) => r == Err::<MulticallerCalls, LoomError>(e),
        },
{
    let ghost d = data@;
    let n = line.path.pools.len();
    let j = n - 1 - k;
    let pool = line.path.pools[j];
    let from = line.path.tokens[j];
    let to = line.path.tokens[j + 1];
    let amount = if k == n - 1 { line.amount_in } else { SwapAmountType::Stack0 };
    let mut out = MulticallerCalls::new();
    if pool.class == PoolClass::UniswapV2 {
        let get_out = match amount {
            SwapAmountType::Fixed(a) => MulticallerCall::new_internal_call(encode_uni2_get_out_amount(from, to, pool.address, a, pool.fee)),
            _ => {
                let mut c = MulticallerCall::new_internal_call(encode_uni2_get_out_amount(from, to, pool.address, U256::zero(), pool.fee));
                c.set_call_stack(false, 0, 0x24, 0x20);
                c
            },
        };
        let off = match offset {
            Some(o) => o,
            None => return Err(LoomError::MissingOffset),
        };
        let mut swap = MulticallerCall::new_call(pool.address, data);
        swap.set_call_stack(true, 0, off, 0x20);
        out.add(get_out);
        out.add(swap);
        assert(out@ =~= flash_in_outer(line@, k as int, d, offset).unwrap());
    } else {
        match amount {
            SwapAmountType::Fixed(_) => {
                out.add(MulticallerCall::new_call(pool.address, data));
            },
            _ => {
                let off = match offset {
                    Some(o) => o,
                    None => return Err(LoomError::MissingOffset),
                };
                let mut swap = MulticallerCall::new_call(pool.address, data);
                swap.set_call_stack(false, 0, off, 0x20);
                out.add(swap);
            },
        }
        assert(out@ =~= flash_in_outer(line@, k as int, d, offset).unwrap());
    }
    Ok(out)
}

// ---- Flash swaps whose output amount is given, built from the first pool on.

/// The amount out of the flash pool of step `k`: the line's output for the
/// last pool, the stack for the others.
pub open spec fn flash_out_amount(l: SwapLineView, k: int) -> SwapAmountType {
    if k == l.pools.len() - 1 {
        l.amount_out
    } else {
        SwapAmountType::Stack0
    }
}

/// Where the flash pool of step `k` sends its output: the next pool, or the
/// multicaller after the last.
pub open spec fn flash_out_swap_to(l: SwapLineView, k: int, multicaller: Address) -> Address {
    if k + 1 < l.pools.len() {
        l.pools[k + 1].address
    } else {
        multicaller
    }
}

/// The inside program of step `k` with what repays the flash pool: for
/// Uniswap V2 the multicaller's input-amount helper first, the payment of
/// the first pool and the forwarding of the output; for the others the
/// payment of the first pool.
pub open spec fn flash_out_setup(l: SwapLineView, k: int, inside: Seq<CallView>, multicaller: Address) -> Seq<CallView> {
    let pool = l.pools[k];
    let from = l.tokens[k];
    let to = l.tokens[k + 1];
    let amount = flash_out_amount(l, k);
    let swap_to = flash_out_swap_to(l, k, multicaller);
    if pool.class == PoolClass::UniswapV2 {
        let get_in = plain_call(
            Address::zero_spec(),
            CallType::InternalCall,
            uni2_get_in_amount_data(from, to, pool.address, encoded_amount(amount), pool.fee),
            None,
        );
        let get_in = match amount {
            SwapAmountType::Fixed(_) => get_in,
            _ => with_call_stack(get_in, false, 0, 0x24, 0x20),
        };
        let s1 = seq![get_in] + inside;
        let s2 = if k == 0 && swap_to != pool.address { s1.push(stack_transfer(from, pool.address, 1)) } else { s1 };
        if swap_to != multicaller { s2.push(stack_transfer(to, swap_to, 0)) } else { s2 }
    } else {
        if k == 0 { inside.push(stack_transfer(from, pool.address, 1)) } else { inside }
    }
}

/// The outer program of step `k`, from the call data and offset that the
/// ABI encoder gave for the flash pool's swap of an amount out; a stack
/// amount on a pool other than Uniswap V2 is first prepared by the
/// multicaller's arithmetic opcode `08 2a 00`.
pub open spec fn flash_out_outer(l: SwapLineView, k: int, data: Seq<u8>, offset: Option<u16>) -> Result<Seq<CallView>, LoomError> {
    let pool = l.pools[k];
    let amount = flash_out_amount(l, k);
    let swap = plain_call(pool.address, CallType::Call, data, None);
    match amount {
        SwapAmountType::Fixed(_) => Ok(seq![swap]),
        _ => match offset {
            None => Err(LoomError::MissingOffset),
            Some(off) => if pool.class == PoolClass::UniswapV2 {
                Ok(seq![with_call_stack(swap, true, 0, off, 0x20)])
            } else {
                Ok(seq![
                    plain_call(Address::zero_spec(), CallType::CalculationCall, seq![0x08u8, 0x2au8, 0x00u8], None),
                    with_call_stack(swap, true, 0, off, 0x20),
                ])
            },
        },
    }
}

pub open spec fn flash_out_steps(
    l: SwapLineView,
    inside: Seq<CallView>,
    multicaller: Address,
    abi: Seq<(Seq<u8>, Option<u16>)>,
    k: int,
) -> Result<Seq<CallView>, LoomError>
    decreases k,
{
    if k <= 0 {
        Ok(inside)
    } else {
        match flash_out_steps(l, inside, multicaller, abi, k - 1) {
            Err(e) => Err(e),
            Ok(prev) => {
                if !class_can_flash(l.pools[k - 1].class) {
                    Err(LoomError::UnsupportedPoolClass)
                } else if !all_packable(flash_out_setup(l, k - 1, prev, multicaller)) {
                    Err(LoomError::Unpackable)
                } else {
                    flash_out_outer(l, k - 1, abi[k - 1].0, abi[k - 1].1)
                }
            },
        }
    }
}

/// The flash program of a line whose output amount is given, around the
/// program `inside`; empty for a line without pools.
pub open spec fn flash_out_program(
    l: SwapLineView,
    inside: Seq<CallView>,
    multicaller: Address,
    abi: Seq<(Seq<u8>, Option<u16>)>,
) -> Result<Seq<CallView>, LoomError> {
    if l.pools.len() == 0 {
        Ok(Seq::empty())
    } else {
        flash_out_steps(l, inside, multicaller, abi, l.pools.len() as int)
    }
}

proof fn lemma_out_steps_prefix(
    l: SwapLineView,
    inside: Seq<CallView>,
    mc: Address,
    a: Seq<(Seq<u8>, Option<u16>)>,
    b: Seq<(Seq<u8>, Option<u16>)>,
    k: int,
)
    requires
        0 <= k <= a.len(),
        k <= b.len(),
        forall|x: int| 0 <= x < k ==> #[trigger] a[x] == b[x],
    ensures
        flash_out_steps(l, inside, mc, a, k) == flash_out_steps(l, inside, mc, b, k),
    decreases k,
{
    if k > 0 {
        lemma_out_steps_prefix(l, inside, mc, a, b, k - 1);
        assert(a[k - 1] == b[k - 1]);
    }
}

fn flash_out_setup_exec(inside: &mut MulticallerCalls, line: &SwapLine, k: usize, multicaller: Address)
    requires
        line_wf(line@),
        k < line@.pools.len(),
    ensures
        final(inside)@ == flash_out_setup(line@, k as int, old(inside)@, multicaller),
{
    let n = line.path.pools.len();
    let pool = line.path.pools[k];
    let from = line.path.tokens[k];
    let to = line.path.tokens[k + 1];
    let amount = if k == n - 1 { line.amount_out } else { SwapAmountType::Stack0 };
    let swap_to = if k < n - 1 { line.path.pools[k + 1].address } else { multicaller };
    if pool.class == PoolClass::UniswapV2 {
        let mut get_in = MulticallerCall::new_internal_call(
            encode_uni2_get_in_amount(from, to, pool.address, encoded_amount_of(amount), pool.fee),
        );
        match amount {
            SwapAmountType::Fixed(_) => {},
            _ => get_in.set_call_stack(false, 0, 0x24, 0x20),
        }
        inside.insert(get_in);
        if k == 0 && swap_to != pool.address {
            inside.add(new_stack_transfer(from, pool.address, 1));
        }
        if swap_to != multicaller {
            inside.add(new_stack_transfer(to, swap_to, 0));
        }
    } else {
        if k == 0 {
            inside.add(new_stack_transfer(from, pool.address, 1));
        }
    }
    assert(final(inside)@ =~= flash_out_setup(line@, k as int, old(inside)@, multicaller));
}

/// The outer program of step `k` of an out-amount flash program, from what
/// the ABI encoder gave: `flash_out_outer` exactly.
pub fn flash_out_outer_call(line: &SwapLine, k: usize, data: Vec<u8>, offset: Option<u16>) -> (r: Result<MulticallerCalls, LoomError>)
    requires
        line_wf(line@),
        k < line@.pools.len(),
    ensures
        match flash_out_outer(line@, k as int, data@, offset) {
            Ok(s) => r matches Ok(c) && c@ == s,
            Err(e) => r == Err::<MulticallerCalls, LoomError>(e),
        },
{
    let ghost d = data@;
    let n = line.path.pools.len();
    let pool = line.path.pools[k];
    let amount = if k == n - 1 { line.amount_out } else { SwapAmountType::Stack0 };
    let mut out = MulticallerCalls::new();
    match amount {
        SwapAmountType::Fixed(_) => {
            out.add(MulticallerCall::new_call(pool.address, data));
        },
        _ => {
            let off = match offset {
                Some(o) => o,
                None => return Err(LoomError::MissingOffset),
            };
            if pool.class != PoolClass::UniswapV2 {
                let mut calc: Vec<u8> = Vec::new();
                calc.push(0x08);
                calc.push(0x2a);
                calc.push(0x00);
                assert(calc@ =~= seq![0x08u8, 0x2au8, 0x00u8]);
                out.add(MulticallerCall::new_calculation_call(calc));
            }
            let mut swap = MulticallerCall::new_call(pool.address, data);
            swap.set_call_stack(true, 0, off, 0x20);
            out.add(swap);
        },
    }
    assert(out@ =~= flash_out_outer(line@, k as int, d, offset).unwrap());
    Ok(out)
}

/// What the ABI encoder is asked for one flash step: the call data of a
/// swap on `pool` from `token_from` to `token_to` of `amount`, paying
/// `recipient`, with `payload` as callback data; by its swap-out method when
/// `swap_out` holds, else its swap-in method, and the matching offset when
/// `needs_offset` holds.
#[derive(Debug)]
pub struct FlashRequest {
    pub pool: Pool,
    pub token_from: Address,
    pub token_to: Address,
    pub amount: U256,
    pub recipient: Address,
    pub swap_out: bool,
    pub needs_offset: bool,
    pub payload: Vec<u8>,
}

/// Where the flash pool of step `k` sends its output: `funds_to` for the
/// last pool, else the pool after it when that one wants its input pushed,
/// else the multicaller.
pub open spec fn flash_in_swap_to(l: SwapLineView, k: int, funds_to: Address, multicaller: Address) -> Address {
    if k == 0 {
        funds_to
    } else {
        match l.pools[l.pools.len() - k].preswap {
            PreswapRequirement::Transfer(t) => t,
            _ => multicaller,
        }
    }
}

/// The request of step `k` of an in-amount flash program whose inside
/// program, with the repayment added, is `setup`: a Uniswap V2 pool is asked
/// for a swap of an amount out, spliced from the stack, paying the
/// multicaller; the others for a swap of the step's amount in, paying where
/// the step sends its output.
pub open spec fn flash_in_request_ok(
    l: SwapLineView,
    k: int,
    funds_to: Address,
    multicaller: Address,
    setup: Seq<CallView>,
    q: FlashRequest,
) -> bool {
    let j = l.pools.len() - 1 - k;
    let pool = l.pools[j];
    let amount = flash_in_amount(l, k);
    &&& q.pool == pool
    &&& q.token_from == l.tokens[j]
    &&& q.token_to == l.tokens[j + 1]
    &&& q.payload@ == pack_calls(setup)
    &&& if pool.class == PoolClass::UniswapV2 {
        &&& q.swap_out
        &&& q.amount == U256::zero_spec()
        &&& q.recipient == multicaller
        &&& q.needs_offset
    } else {
        &&& !q.swap_out
        &&& q.amount == encoded_amount(amount)
        &&& q.recipient == flash_in_swap_to(l, k, funds_to, multicaller)
        &&& q.needs_offset == !(amount is Fixed)
    }
}

/// The request of step `k` of an out-amount flash program whose inside
/// program, with the repayment added, is `setup`: a swap of the step's
/// amount out, paying the multicaller for Uniswap V2 and the next pool (or
/// the multicaller after the last) for the others.
pub open spec fn flash_out_request_ok(l: SwapLineView, k: int, multicaller: Address, setup: Seq<CallView>, q: FlashRequest) -> bool {
    let pool = l.pools[k];
    let amount = flash_out_amount(l, k);
    &&& q.pool == pool
    &&& q.token_from == l.tokens[k]
    &&& q.token_to == l.tokens[k + 1]
    &&& q.payload@ == pack_calls(setup)
    &&& q.swap_out
    &&& q.amount == encoded_amount(amount)
    &&& q.recipient == (if pool.class == PoolClass::UniswapV2 { multicaller } else { flash_out_swap_to(l, k, multicaller) })
    &&& q.needs_offset == !(amount is Fixed)
}

/// Step `k` of an in-amount flash program up to the call of the ABI
/// encoder: refuses a pool that cannot flash, adds the repayment to
/// `inside`, packs it, and says what the ABI encoder is asked.
pub fn flash_in_request(
    line: &SwapLine,
    k: usize,
    inside: &mut MulticallerCalls,
    funds_to: Address,
    multicaller: Address,
) -> (r: Result<FlashRequest, LoomError>)
    requires
        line_wf(line@),
        k < line@.pools.len(),
    ensures
        !class_can_flash(line@.pools[line@.pools.len() - 1 - k].class) ==> r == Err::<FlashRequest, LoomError>(
            LoomError::UnsupportedPoolClass,
        ) && final(inside)@ == old(inside)@,
        class_can_flash(line@.pools[line@.pools.len() - 1 - k].class) ==> final(inside)@ == flash_in_setup(
            line@,
            k as int,
            old(inside)@,
            funds_to,
            multicaller,
        ),
        class_can_flash(line@.pools[line@.pools.len() - 1 - k].class) && !all_packable(final(inside)@) ==> r == Err::<
            FlashRequest,
            LoomError,
        >(LoomError::Unpackable),
        class_can_flash(line@.pools[line@.pools.len() - 1 - k].class) && all_packable(final(inside)@) ==> (r matches Ok(q)
            && flash_in_request_ok(line@, k as int, funds_to, multicaller, final(inside)@, q)),
{
    let n = line.path.pools.len();
    let j = n - 1 - k;
    let pool = line.path.pools[j];
    if !class_flashes(pool.class) {
        return Err(LoomError::UnsupportedPoolClass);
    }
    flash_in_setup_exec(inside, line, k, funds_to, multicaller);
    let payload = pack_do_calls_data(inside)?;
    let from = line.path.tokens[j];
    let to = line.path.tokens[j + 1];
    let amount = if k == n - 1 { line.amount_in } else { SwapAmountType::Stack0 };
    if pool.class == PoolClass::UniswapV2 {
        Ok(FlashRequest {
            pool,
            token_from: from,
            token_to: to,
            amount: U256::zero(),
            recipient: multicaller,
            swap_out: true,
            needs_offset: true,
            payload,
        })
    } else {
        let recipient = if k == 0 {
            funds_to
        } else {
            match line.path.pools[j + 1].preswap {
                PreswapRequirement::Transfer(t) => t,
                _ => multicaller,
            }
        };
        let needs_offset = match amount {
            SwapAmountType::Fixed(_) => false,
            _ => true,
        };
        Ok(FlashRequest {
            pool,
            token_from: from,
            token_to: to,
            amount: encoded_amount_of(amount),
            recipient,
            swap_out: false,
            needs_offset,
            payload,
        })
    }
}

/// Step `k` of an out-amount flash program up to the call of the ABI
/// encoder: refuses a pool that cannot flash, adds the repayment to
/// `inside`, packs it, and says what the ABI encoder is asked.
pub fn flash_out_request(
    line: &SwapLine,
    k: usize,
    inside: &mut MulticallerCalls,
    multicaller: Address,
) -> (r: Result<FlashRequest, LoomError>)
    requires
        line_wf(line@),
        k < line@.pools.len(),
    ensures
        !class_can_flash(line@.pools[k as int].class) ==> r == Err::<FlashRequest, LoomError>(LoomError::UnsupportedPoolClass)
            && final(inside)@ == old(inside)@,
        class_can_flash(line@.pools[k as int].class) ==> final(inside)@ == flash_out_setup(line@, k as int, old(inside)@, multicaller),
        class_can_flash(line@.pools[k as int].class) && !all_packable(final(inside)@) ==> r == Err::<FlashRequest, LoomError>(
            LoomError::Unpackable,
        ),
        class_can_flash(line@.pools[k as int].class) && all_packable(final(inside)@) ==> (r matches Ok(q) && flash_out_request_ok(
            line@,
            k as int,
            multicaller,
            final(inside)@,
            q,
        )),
{
    let n = line.path.pools.len();
    let pool = line.path.pools[k];
    if !class_flashes(pool.class) {
        return Err(LoomError::UnsupportedPoolClass);
    }
    flash_out_setup_exec(inside, line, k, multicaller);
    let payload = pack_do_calls_data(inside)?;
    let amount = if k == n - 1 { line.amount_out } else { SwapAmountType::Stack0 };
    let swap_to = if k < n - 1 { line.path.pools[k + 1].address } else { multicaller };
    let recipient = if pool.class == PoolClass::UniswapV2 { multicaller } else { swap_to };
    let needs_offset = match amount {
        SwapAmountType::Fixed(_) => false,
        _ => true,
    };
    Ok(FlashRequest {
        pool,
        token_from: line.path.tokens[k],
        token_to: line.path.tokens[k + 1],
        amount: encoded_amount_of(amount),
        recipient,
        swap_out: true,
        needs_offset,
        payload,
    })
}

/// Hands a request to the ABI encoder: the call data, and the offset when
/// the request needs one.
fn ask_abi<E: ProtocolAbiSwapEncoder>(abi: &E, q: &FlashRequest) -> (r: Result<(Vec<u8>, Option<u16>), LoomError>)
    ensures
        r matches Ok(p) ==> (!q.needs_offset ==> p.1 is None),
{
    let data = if q.swap_out {
        abi.encode_swap_out_amount_provided(&q.pool, q.token_from, q.token_to, q.amount, q.recipient, &q.payload)?
    } else {
        abi.encode_swap_in_amount_provided(&q.pool, q.token_from, q.token_to, q.amount, q.recipient, &q.payload)?
    };
    let offset = if !q.needs_offset {
        None
    } else if q.swap_out {
        abi.swap_out_amount_offset(&q.pool, q.token_from, q.token_to)
    } else {
        abi.swap_in_amount_offset(&q.pool, q.token_from, q.token_to)
    };
    Ok((data, offset))
}

impl<E: ProtocolAbiSwapEncoder> SwapLineEncoder<E> {
    /// Builds the flash program of a line whose input amount is given,
    /// around `inside_swap_opcodes`: from the last pool back, each flash
    /// pool's repayment joins the inside program, which is packed as the
    /// pool's callback data (`flash_in_request`), and the call of the pool
    /// (`flash_in_outer_call`) becomes the inside program of the next step.
    /// The result is `flash_in_program` for the call data and offsets that
    /// the ABI encoder gave; only Uniswap V2 and V3, PancakeSwap V3 and
    /// Maverick pools can be flash pools.
    pub fn encode_flash_swap_line_in_amount(
        &self,
        swap_path: &SwapLine,
        inside_swap_opcodes: MulticallerCalls,
        funds_to: Address,
    ) -> (r: Result<MulticallerCalls, LoomError>)
        requires
            line_wf(swap_path@),
        ensures
            r matches Ok(c) ==> exists|abi: Seq<(Seq<u8>, Option<u16>)>|
                #[trigger] flash_in_program(swap_path@, inside_swap_opcodes@, funds_to, self.multicaller_address, abi)
                    == Ok::<Seq<CallView>, LoomError>(c@),
            (exists|k: int| 0 <= k < swap_path@.pools.len() && !class_can_flash(#[trigger] swap_path@.pools[k].class))
                ==> r is Err,
            swap_path@.pools.len() > 0 && !class_can_flash(swap_path@.pools[swap_path@.pools.len() - 1].class) ==> r
                == Err::<MulticallerCalls, LoomError>(LoomError::UnsupportedPoolClass),
            swap_path@.pools.len() > 0 && class_can_flash(swap_path@.pools[swap_path@.pools.len() - 1].class) && !all_packable(
                flash_in_setup(swap_path@, 0, inside_swap_opcodes@, funds_to, self.multicaller_address),
            ) ==> r == Err::<MulticallerCalls, LoomError>(LoomError::Unpackable),
    {
        let n = swap_path.path.pools.len();
        let mc = self.multicaller_address;
        if n == 0 {
            let r = MulticallerCalls::new();
            assert(flash_in_program(swap_path@, inside_swap_opcodes@, funds_to, mc, Seq::empty()) == Ok::<Seq<CallView>, LoomError>(r@));
            return Ok(r);
        }
        let ghost inside0 = inside_swap_opcodes@;
        let ghost mut abi: Seq<(Seq<u8>, Option<u16>)> = Seq::empty();
        let mut inside = inside_swap_opcodes;
        let mut k: usize = 0;
        while k < n
            invariant
                n == swap_path@.pools.len(),
                n > 0,
                line_wf(swap_path@),
                k <= n,
                abi.len() == k,
                mc == self.multicaller_address,
                inside0 == inside_swap_opcodes@,
                flash_in_steps(swap_path@, inside0, funds_to, mc, abi, k as int) == Ok::<Seq<CallView>, LoomError>(inside@),
                forall|x: int| n - k <= x < n ==> class_can_flash(#[trigger] swap_path@.pools[x].class),
                k > 0 ==> all_packable(flash_in_setup(swap_path@, 0, inside0, funds_to, mc)),
            decreases n - k,
        {
            proof {
                if k == 0 {
                    assert(inside@ == inside0);
                }
            }
            let req = match flash_in_request(swap_path, k, &mut inside, funds_to, mc) {
                Ok(q) => q,
                Err(e) => {
                    proof {
                        let bad = abi.push((Seq::<u8>::empty(), None::<u16>));
                        lemma_steps_prefix(swap_path@, inside0, funds_to, mc, abi, bad, k as int);
                    }
                    return Err(e);
                },
            };
            proof {
                if k == 0 {
                    assert(all_packable(flash_in_setup(swap_path@, 0, inside0, funds_to, mc)));
                }
            }
            let (data, offset) = ask_abi(&self.abi_encoder, &req)?;
            let ghost step = (data@, offset);
            let outer = flash_in_outer_call(swap_path, k, data, offset)?;
            proof {
                let next_abi = abi.push(step);
                lemma_steps_prefix(swap_path@, inside0, funds_to, mc, abi, next_abi, k as int);
                assert(next_abi[k as int] == step);
                abi = next_abi;
            }
            inside = outer;
            k = k + 1;
        }
        assert(flash_in_program(swap_path@, inside0, funds_to, mc, abi) == Ok::<Seq<CallView>, LoomError>(inside@));
        Ok(inside)
    }

    /// Builds the flash program of a line whose output amount is given,
    /// around `inside_swap_opcodes`, from the first pool on, each step by
    /// `flash_out_request` and `flash_out_outer_call`. The result is
    /// `flash_out_program` for the call data and offsets that the ABI
    /// encoder gave; only Uniswap V2 and V3, PancakeSwap V3 and Maverick
    /// pools can be flash pools.
    pub fn encode_flash_swap_line_out_amount(
        &self,
        swap_path: &SwapLine,
        inside_swap_opcodes: MulticallerCalls,
        _funds_from: Address,
    ) -> (r: Result<MulticallerCalls, LoomError>)
        requires
            line_wf(swap_path@),
        ensures
            r matches Ok(c) ==> exists|abi: Seq<(Seq<u8>, Option<u16>)>|
                #[trigger] flash_out_program(swap_path@, inside_swap_opcodes@, self.multicaller_address, abi)
                    == Ok::<Seq<CallView>, LoomError>(c@),
            (exists|k: int| 0 <= k < swap_path@.pools.len() && !class_can_flash(#[trigger] swap_path@.pools[k].class))
                ==> r is Err,
            swap_path@.pools.len() > 0 && !class_can_flash(swap_path@.pools[0].class) ==> r == Err::<MulticallerCalls, LoomError>(
                LoomError::UnsupportedPoolClass,
            ),
            swap_path@.pools.len() > 0 && class_can_flash(swap_path@.pools[0].class) && !all_packable(
                flash_out_setup(swap_path@, 0, inside_swap_opcodes@, self.multicaller_address),
            ) ==> r == Err::<MulticallerCalls, LoomError>(LoomError::Unpackable),
    {
        let n = swap_path.path.pools.len();
        let mc = self.multicaller_address;
        if n == 0 {
            let r = MulticallerCalls::new();
            assert(flash_out_program(swap_path@, inside_swap_opcodes@, mc, Seq::empty()) == Ok::<Seq<CallView>, LoomError>(r@));
            return Ok(r);
        }
        let ghost inside0 = inside_swap_opcodes@;
        let ghost mut abi: Seq<(Seq<u8>, Option<u16>)> = Seq::empty();
        let mut inside = inside_swap_opcodes;
        let mut k: usize = 0;
        while k < n
            invariant
                n == swap_path@.pools.len(),
                n > 0,
                line_wf(swap_path@),
                k <= n,
                abi.len() == k,
                mc == self.multicaller_address,
                inside0 == inside_swap_opcodes@,
                flash_out_steps(swap_path@, inside0, mc, abi, k as int) == Ok::<Seq<CallView>, LoomError>(inside@),
                forall|x: int| 0 <= x < k ==> class_can_flash(#[trigger] swap_path@.pools[x].class),
                k > 0 ==> all_packable(flash_out_setup(swap_path@, 0, inside0, mc)),
            decreases n - k,
        {
            proof {
                if k == 0 {
                    assert(inside@ == inside0);
                }
            }
            let req = match flash_out_request(swap_path, k, &mut inside, mc) {
                Ok(q) => q,
                Err(e) => {
                    proof {
                        let bad = abi.push((Seq::<u8>::empty(), None::<u16>));
                        lemma_out_steps_prefix(swap_path@, inside0, mc, abi, bad, k as int);
                    }
                    return Err(e);
                },
            };
            proof {
                if k == 0 {
                    assert(all_packable(flash_out_setup(swap_path@, 0, inside0, mc)));
                }
            }
            let (data, offset) = ask_abi(&self.abi_encoder, &req)?;
            let ghost step = (data@, offset);
            let outer = flash_out_outer_call(swap_path, k, data, offset)?;
            proof {
                let next_abi = abi.push(step);
                lemma_out_steps_prefix(swap_path@, inside0, mc, abi, next_abi, k as int);
                assert(next_abi[k as int] == step);
                abi = next_abi;
            }
            inside = outer;
            k = k + 1;
        }
        assert(flash_out_program(swap_path@, inside0, mc, abi) == Ok::<Seq<CallView>, LoomError>(inside@));
        Ok(inside)
    }
}

} // verus!
