//! The opcodes of one hop, as values: the Curve rule and the common rule of
//! the other pool classes. The ABI encoder's outputs (the swap's call data
//! and the offset of its amount) come in as arguments.
use vstd::prelude::*;
use crate::error::LoomError;
use crate::primitives::{Address, U256};
use crate::pool::{Pool, PreswapRequirement};
use crate::swap::SwapAmountType;
use crate::calls::{CallType, CallView, MulticallerCall, MulticallerCalls, plain_call, with_call_stack, with_return_stack};
use crate::abi::{
    erc20_approve_data, erc20_balance_of_data, erc20_transfer_data, weth_deposit_data, weth_withdraw_data,
    encode_erc20_approve, encode_erc20_balance_of, encode_erc20_transfer, encode_weth_deposit, encode_weth_withdraw,
};

verus! {

/// The wrapped native token of the chain the encoders target.
pub open spec fn weth_spec() -> Address {
    Address { hi: 0xc02aaa39, mid: 0xb223fe8d0a0e5c4f, lo: 0x27ead9083c756cc2 }
}

pub fn weth_address() -> (r: Address)
    ensures
        r == weth_spec(),
{
    Address { hi: 0xc02aaa39, mid: 0xb223fe8d0a0e5c4f, lo: 0x27ead9083c756cc2 }
}

pub fn is_weth(a: Address) -> (r: bool)
    ensures
        r == (a == weth_spec()),
{
    a == weth_address()
}

/// Curve pools whose swap returns no usable output amount: the output is
/// read back with `balanceOf` instead.
pub open spec fn need_balance_spec(a: Address) -> bool {
    a == (Address { hi: 0xd51a44d3, mid: 0xfae010294c616388, lo: 0xb506acda1bfaae46 })
        || a == (Address { hi: 0xbebc4478, mid: 0x2c7db0a1a60cb6fe, lo: 0x97d0b483032ff1c7 })
        || a == (Address { hi: 0xa5407eae, mid: 0x9ba41422680e2e00, lo: 0x537571bcc53efbfd })
}

pub fn need_balance(a: Address) -> (r: bool)
    ensures
        r == need_balance_spec(a),
{
    a == Address { hi: 0xd51a44d3, mid: 0xfae010294c616388, lo: 0xb506acda1bfaae46 }
        || a == Address { hi: 0xbebc4478, mid: 0x2c7db0a1a60cb6fe, lo: 0x97d0b483032ff1c7 }
        || a == Address { hi: 0xa5407eae, mid: 0x9ba41422680e2e00, lo: 0x537571bcc53efbfd }
}

/// The amount that the ABI encoder is asked to put in the swap call: the
/// fixed amount, or zero where the multicaller splices it from the stack.
pub open spec fn encoded_amount(a: SwapAmountType) -> U256 {
    match a {
        SwapAmountType::Fixed(v) => v,
        _ => U256::zero_spec(),
    }
}

pub fn encoded_amount_of(a: SwapAmountType) -> (r: U256)
    ensures
        r == encoded_amount(a),
{
    match a {
        SwapAmountType::Fixed(v) => v,
        _ => U256::zero(),
    }
}

/// The stack slot that a stack-sourced amount is read from: slot 0 counted
/// from the bottom for `Stack0`, else counted from the top.
pub open spec fn stack_source(a: SwapAmountType) -> (bool, u8) {
    match a {
        SwapAmountType::Stack0 => (false, 0),
        SwapAmountType::RelativeStack(k) => (true, k),
        _ => (true, 0),
    }
}

pub open spec fn is_stack_amount(a: SwapAmountType) -> bool {
    a is Stack0 || a is RelativeStack || a is Balance
}

/// `balanceOf(owner)` of `token`, its result pushed on top of the stack.
pub open spec fn balance_to_stack(token: Address, owner: Address) -> CallView {
    with_return_stack(plain_call(token, CallType::StaticCall, erc20_balance_of_data(owner), None), true, 0, 0, 0x20)
}

/// The swap call itself.
pub open spec fn swap_call(pool: Address, data: Seq<u8>, native_in: bool, amount: U256) -> CallView {
    if native_in {
        plain_call(pool, CallType::CallWithValue, data, Some(amount))
    } else {
        plain_call(pool, CallType::Call, data, None)
    }
}

/// What precedes the swap call: unwrapping the input when the pool takes
/// native ether, else an approval when the pool pulls its input.
pub open spec fn pre_swap_calls(from: Address, pool: Address, amount: U256, native_in: bool, pull: bool) -> Seq<CallView> {
    if native_in {
        seq![plain_call(from, CallType::Call, weth_withdraw_data(amount), None)]
    } else if pull {
        seq![plain_call(from, CallType::Call, erc20_approve_data(pool, amount), None)]
    } else {
        Seq::empty()
    }
}

/// The same, with the amount spliced from the stack.
pub open spec fn pre_swap_calls_stack(from: Address, pool: Address, native_in: bool, pull: bool, rel: bool, slot: u8) -> Seq<CallView> {
    if native_in {
        seq![with_call_stack(plain_call(from, CallType::Call, weth_withdraw_data(U256::zero_spec()), None), rel, slot, 0x4, 0x20)]
    } else if pull {
        seq![with_call_stack(
            plain_call(from, CallType::Call, erc20_approve_data(pool, U256::zero_spec()), None),
            rel,
            slot,
            0x24,
            0x20,
        )]
    } else {
        Seq::empty()
    }
}

/// Why a hop has no opcodes: its amount is not set, or it comes from the
/// stack and the ABI encoder gave no offset for it.
pub open spec fn hop_error(amount: SwapAmountType) -> LoomError {
    if amount is NotSet {
        LoomError::AmountNotSet
    } else {
        LoomError::MissingOffset
    }
}

/// The opcodes of the swap itself: `None` when the amount is not set, or
/// comes from the stack and the ABI encoder gave no offset for it.
pub open spec fn swap_part(
    from: Address,
    pool: Address,
    amount: SwapAmountType,
    data: Seq<u8>,
    offset: Option<u16>,
    native_in: bool,
    pull: bool,
    bind_return: bool,
) -> Option<Seq<CallView>> {
    match amount {
        SwapAmountType::Fixed(v) => {
            let s = swap_call(pool, data, native_in, v);
            Some(pre_swap_calls(from, pool, v, native_in, pull) + seq![
                if bind_return { with_return_stack(s, true, 0, 0, 0x20) } else { s },
            ])
        },
        SwapAmountType::NotSet => None,
        _ => match offset {
            None => None,
            Some(off) => {
                let (rel, slot) = stack_source(amount);
                let s = with_call_stack(swap_call(pool, data, native_in, U256::zero_spec()), rel, slot, off, 0x20);
                let bal = match amount {
                    SwapAmountType::Balance(owner) => seq![balance_to_stack(from, owner)],
                    _ => Seq::empty(),
                };
                Some(bal + pre_swap_calls_stack(from, pool, native_in, pull, rel, slot) + seq![
                    if bind_return { with_return_stack(s, true, 0, 0, 0x20) } else { s },
                ])
            },
        },
    }
}

/// Rewrapping native ether that the swap paid out.
pub open spec fn rewrap_calls(to: Address, out_native: bool) -> Seq<CallView> {
    if out_native {
        seq![with_call_stack(plain_call(to, CallType::CallWithValue, weth_deposit_data(), Some(U256::zero_spec())), true, 0, 0, 0)]
    } else {
        Seq::empty()
    }
}

/// The input of a hop: the tokens and pools, where its output goes, and what
/// the ABI encoder gave for its swap call.
pub struct HopInput {
    pub from: Address,
    pub to: Address,
    pub amount: SwapAmountType,
    pub pool: Pool,
    pub next: Option<Pool>,
    pub swap_to: Address,
    pub multicaller: Address,
    pub data: Seq<u8>,
    pub offset: Option<u16>,
}

/// A Curve hop: the pool's output goes to the multicaller; pools on the
/// balance allowlist have their output read back with `balanceOf` before a
/// next hop, others leave their returned amount on the stack; a next pool
/// that wants its input pushed gets a transfer of the amount on the stack.
pub open spec fn curve_hop(h: HopInput) -> Option<Seq<CallView>> {
    let native_in = h.pool.native && h.from == weth_spec();
    let out_native = h.pool.native && h.to == weth_spec();
    let nb = need_balance_spec(h.pool.address);
    match swap_part(h.from, h.pool.address, h.amount, h.data, h.offset, native_in, true, !nb) {
        None => None,
        Some(s) => Some(s + rewrap_calls(h.to, out_native) + match h.next {
            None => Seq::empty(),
            Some(n) => (if nb { seq![balance_to_stack(h.to, h.multicaller)] } else { Seq::empty() }) + match n.preswap {
                PreswapRequirement::Transfer(addr) => seq![with_call_stack(
                    plain_call(h.to, CallType::Call, erc20_transfer_data(addr, U256::zero_spec()), None),
                    true,
                    0,
                    0x24,
                    0x20,
                )],
                _ => Seq::empty(),
            },
        }),
    }
}

/// A hop of the other classes: an approval when the pool pulls its input,
/// the swap sending its output to `swap_to`, its returned amount pushed on
/// the stack.
pub open spec fn common_hop(h: HopInput) -> Option<Seq<CallView>> {
    let native_in = h.pool.native && h.from == weth_spec();
    let out_native = h.pool.native && h.to == weth_spec();
    let pull = !(h.pool.preswap is Transfer);
    match swap_part(h.from, h.pool.address, h.amount, h.data, h.offset, native_in, pull, true) {
        None => None,
        Some(s) => Some(s + rewrap_calls(h.to, out_native)),
    }
}

fn push_pre_swap(
    ops: &mut MulticallerCalls,
    from: Address,
    pool: Address,
    amount: U256,
    native_in: bool,
    pull: bool,
)
    ensures
        final(ops)@ == old(ops)@ + pre_swap_calls(from, pool, amount, native_in, pull),
{
    if native_in {
        ops.add(MulticallerCall::new_call(from, encode_weth_withdraw(amount)));
    } else if pull {
        ops.add(MulticallerCall::new_call(from, encode_erc20_approve(pool, amount)));
    }
    assert(final(ops)@ =~= old(ops)@ + pre_swap_calls(from, pool, amount, native_in, pull));
}

fn push_pre_swap_stack(
    ops: &mut MulticallerCalls,
    from: Address,
    pool: Address,
    native_in: bool,
    pull: bool,
    rel: bool,
    slot: u8,
)
    ensures
        final(ops)@ == old(ops)@ + pre_swap_calls_stack(from, pool, native_in, pull, rel, slot),
{
    if native_in {
        let mut c = MulticallerCall::new_call(from, encode_weth_withdraw(U256::zero()));
        c.set_call_stack(rel, slot, 0x4, 0x20);
        ops.add(c);
    } else if pull {
        let mut c = MulticallerCall::new_call(from, encode_erc20_approve(pool, U256::zero()));
        c.set_call_stack(rel, slot, 0x24, 0x20);
        ops.add(c);
    }
    assert(final(ops)@ =~= old(ops)@ + pre_swap_calls_stack(from, pool, native_in, pull, rel, slot));
}

fn new_swap_call(pool: Address, data: Vec<u8>, native_in: bool, amount: U256) -> (r: MulticallerCall)
    ensures
        r@ == swap_call(pool, data@, native_in, amount),
{
    if native_in {
        MulticallerCall::new_call_with_value(pool, data, amount)
    } else {
        MulticallerCall::new_call(pool, data)
    }
}

/// `balanceOf(owner)` of `token`, its result pushed on top of the stack.
pub fn new_balance_to_stack(token: Address, owner: Address) -> (r: MulticallerCall)
    ensures
        r@ == balance_to_stack(token, owner),
{
    let mut c = MulticallerCall::new_static_call(token, encode_erc20_balance_of(owner));
    c.set_return_stack(true, 0, 0, 0x20);
    c
}

/// Appends the opcodes of `swap_part`; on `None` fails with `hop_error`
/// and appends nothing.
fn push_swap_part(
    ops: &mut MulticallerCalls,
    from: Address,
    pool: Address,
    amount: SwapAmountType,
    data: Vec<u8>,
    offset: Option<u16>,
    native_in: bool,
    pull: bool,
    bind_return: bool,
) -> (r: Result<(), LoomError>)
    ensures
        match swap_part(from, pool, amount, data@, offset, native_in, pull, bind_return) {
            Some(s) => r is Ok && final(ops)@ == old(ops)@ + s,
            None => r == Err::<(), LoomError>(hop_error(amount)) && final(ops)@ == old(ops)@,
        },
{
    let ghost d = data@;
    match amount {
        SwapAmountType::Fixed(v) => {
            push_pre_swap(ops, from, pool, v, native_in, pull);
            let mut s = new_swap_call(pool, data, native_in, v);
            if bind_return {
                s.set_return_stack(true, 0, 0, 0x20);
            }
            ops.add(s);
            assert(final(ops)@ =~= old(ops)@ + swap_part(from, pool, amount, d, offset, native_in, pull, bind_return).unwrap());
            Ok(())
        },
        SwapAmountType::NotSet => Err(LoomError::AmountNotSet),
        _ => {
            let off = match offset {
                Some(o) => o,
                None => {
                    return Err(LoomError::MissingOffset);
                },
            };
            let (rel, slot): (bool, u8) = match amount {
                SwapAmountType::Stack0 => (false, 0),
                SwapAmountType::RelativeStack(k) => (true, k),
                _ => (true, 0),
            };
            match amount {
                SwapAmountType::Balance(owner) => {
                    ops.add(new_balance_to_stack(from, owner));
                },
                _ => {},
            }
            push_pre_swap_stack(ops, from, pool, native_in, pull, rel, slot);
            let mut s = new_swap_call(pool, data, native_in, U256::zero());
            s.set_call_stack(rel, slot, off, 0x20);
            if bind_return {
                s.set_return_stack(true, 0, 0, 0x20);
            }
            ops.add(s);
            assert(final(ops)@ =~= old(ops)@ + swap_part(from, pool, amount, d, offset, native_in, pull, bind_return).unwrap());
            Ok(())
        },
    }
}

fn push_rewrap(ops: &mut MulticallerCalls, to: Address, out_native: bool)
    ensures
        final(ops)@ == old(ops)@ + rewrap_calls(to, out_native),
{
    if out_native {
        let mut c = MulticallerCall::new_call_with_value(to, encode_weth_deposit(), U256::zero());
        c.set_call_stack(true, 0, 0, 0);
        ops.add(c);
    }
    assert(final(ops)@ =~= old(ops)@ + rewrap_calls(to, out_native));
}

pub open spec fn hop_input(
    from: Address,
    to: Address,
    amount: SwapAmountType,
    pool: Pool,
    next: Option<Pool>,
    swap_to: Address,
    multicaller: Address,
    data: Seq<u8>,
    offset: Option<u16>,
) -> HopInput {
    HopInput { from, to, amount, pool, next, swap_to, multicaller, data, offset }
}

/// Appends the opcodes of a Curve hop; fails with `hop_error`, appending
/// nothing, where `curve_hop` has none.
pub fn push_curve_hop(
    ops: &mut MulticallerCalls,
    from: Address,
    to: Address,
    amount: SwapAmountType,
    pool: &Pool,
    next: Option<Pool>,
    multicaller: Address,
    data: Vec<u8>,
    offset: Option<u16>,
) -> (r: Result<(), LoomError>)
    ensures
        match curve_hop(hop_input(from, to, amount, *pool, next, multicaller, multicaller, data@, offset)) {
            Some(s) => r is Ok && final(ops)@ == old(ops)@ + s,
            None => r == Err::<(), LoomError>(hop_error(amount)) && final(ops)@ == old(ops)@,
        },
{
    let ghost h = hop_input(from, to, amount, *pool, next, multicaller, multicaller, data@, offset);
    let native_in = pool.native && is_weth(from);
    let out_native = pool.native && is_weth(to);
    let nb = need_balance(pool.address);
    let ghost start = ops@;
    push_swap_part(ops, from, pool.address, amount, data, offset, native_in, true, !nb)?;
    let ghost after_swap = ops@;
    push_rewrap(ops, to, out_native);
    match next {
        Some(n) => {
            if nb {
                ops.add(new_balance_to_stack(to, multicaller));
            }
            match n.preswap {
                PreswapRequirement::Transfer(addr) => {
                    let mut c = MulticallerCall::new_call(to, encode_erc20_transfer(addr, U256::zero()));
                    c.set_call_stack(true, 0, 0x24, 0x20);
                    ops.add(c);
                },
                _ => {},
            }
        },
        None => {},
    }
    assert(ops@ =~= start + curve_hop(h).unwrap());
    Ok(())
}

/// Appends the opcodes of a hop of the common rule; fails with `hop_error`,
/// appending nothing, where `common_hop` has none.
pub fn push_common_hop(
    ops: &mut MulticallerCalls,
    from: Address,
    to: Address,
    amount: SwapAmountType,
    pool: &Pool,
    next: Option<Pool>,
    swap_to: Address,
    multicaller: Address,
    data: Vec<u8>,
    offset: Option<u16>,
) -> (r: Result<(), LoomError>)
    ensures
        match common_hop(hop_input(from, to, amount, *pool, next, swap_to, multicaller, data@, offset)) {
            Some(s) => r is Ok && final(ops)@ == old(ops)@ + s,
            None => r == Err::<(), LoomError>(hop_error(amount)) && final(ops)@ == old(ops)@,
        },
{
    let ghost h = hop_input(from, to, amount, *pool, next, swap_to, multicaller, data@, offset);
    let native_in = pool.native && is_weth(from);
    let out_native = pool.native && is_weth(to);
    let pull = match pool.preswap {
        PreswapRequirement::Transfer(_) => false,
        _ => true,
    };
    let ghost start = ops@;
    push_swap_part(ops, from, pool.address, amount, data, offset, native_in, pull, true)?;
    push_rewrap(ops, to, out_native);
    assert(ops@ =~= start + common_hop(h).unwrap());
    Ok(())
}

} // verus!
