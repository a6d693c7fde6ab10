//! Call data of the token and multicaller functions that the opcodes call:
//! a 4-byte selector, then 32-byte words.
use vstd::prelude::*;
use crate::primitives::{Address, U256, address_word, u256_bytes, address_lt, push_address_word, push_u256};

verus! {

pub open spec fn selector(a: u8, b: u8, c: u8, d: u8) -> Seq<u8> {
    seq![a, b, c, d]
}

/// `transfer(address,uint256)`
pub open spec fn erc20_transfer_data(to: Address, amount: U256) -> Seq<u8> {
    selector(0xa9, 0x05, 0x9c, 0xbb) + address_word(to) + u256_bytes(amount)
}

/// `approve(address,uint256)`
pub open spec fn erc20_approve_data(spender: Address, amount: U256) -> Seq<u8> {
    selector(0x09, 0x5e, 0xa7, 0xb3) + address_word(spender) + u256_bytes(amount)
}

/// `balanceOf(address)`
pub open spec fn erc20_balance_of_data(owner: Address) -> Seq<u8> {
    selector(0x70, 0xa0, 0x82, 0x31) + address_word(owner)
}

/// `withdraw(uint256)` of the wrapped native token.
pub open spec fn weth_withdraw_data(amount: U256) -> Seq<u8> {
    selector(0x2e, 0x1a, 0x7d, 0x4d) + u256_bytes(amount)
}

/// `deposit()` of the wrapped native token.
pub open spec fn weth_deposit_data() -> Seq<u8> {
    selector(0xd0, 0xe3, 0x0d, 0xb0)
}

/// The multicaller's `uni2GetOutAmountFrom0(address,uint256,uint256)` when
/// `from` sorts before `to`, else `uni2GetOutAmountFrom1(address,uint256,uint256)`.
pub open spec fn uni2_get_out_amount_data(from: Address, to: Address, pool: Address, amount: U256, fee: U256) -> Seq<u8> {
    (if address_lt(from, to) {
        selector(0x9a, 0xec, 0x21, 0xab)
    } else {
        selector(0x0e, 0xac, 0x97, 0x7b)
    }) + address_word(pool) + u256_bytes(amount) + u256_bytes(fee)
}

/// The multicaller's `uni2GetInAmountFrom0(address,uint256,uint256)` when
/// `from` sorts before `to`, else `uni2GetInAmountFrom1(address,uint256,uint256)`.
pub open spec fn uni2_get_in_amount_data(from: Address, to: Address, pool: Address, amount: U256, fee: U256) -> Seq<u8> {
    (if address_lt(from, to) {
        selector(0x2e, 0xb6, 0xda, 0xc9)
    } else {
        selector(0xc1, 0x20, 0x69, 0x8e)
    }) + address_word(pool) + u256_bytes(amount) + u256_bytes(fee)
}

/// The multicaller's `transferTipsMinBalance(address,uint256,uint256,address)`.
pub open spec fn transfer_tips_data(token: Address, min_balance: U256, tips: U256, to: Address) -> Seq<u8> {
    selector(0x4d, 0xf8, 0x6a, 0xdf) + address_word(token) + u256_bytes(min_balance) + u256_bytes(tips)
        + address_word(to)
}

/// The multicaller's `transferTipsMinBalanceWETH(uint256,uint256,address)`.
pub open spec fn transfer_tips_weth_data(min_balance: U256, tips: U256, to: Address) -> Seq<u8> {
    selector(0x05, 0xec, 0x9c, 0xad) + u256_bytes(min_balance) + u256_bytes(tips) + address_word(to)
}

fn selector_vec(a: u8, b: u8, c: u8, d: u8) -> (r: Vec<u8>)
    ensures
        r@ == selector(a, b, c, d),
{
    let mut v: Vec<u8> = Vec::new();
    v.push(a);
    v.push(b);
    v.push(c);
    v.push(d);
    assert(v@ =~= selector(a, b, c, d));
    v
}

pub fn encode_erc20_transfer(to: Address, amount: U256) -> (r: Vec<u8>)
    ensures
        r@ == erc20_transfer_data(to, amount),
{
    let mut v = selector_vec(0xa9, 0x05, 0x9c, 0xbb);
    push_address_word(&mut v, to);
    push_u256(&mut v, amount);
    v
}

pub fn encode_erc20_approve(spender: Address, amount: U256) -> (r: Vec<u8>)
    ensures
        r@ == erc20_approve_data(spender, amount),
{
    let mut v = selector_vec(0x09, 0x5e, 0xa7, 0xb3);
    push_address_word(&mut v, spender);
    push_u256(&mut v, amount);
    v
}

pub fn encode_erc20_balance_of(owner: Address) -> (r: Vec<u8>)
    ensures
        r@ == erc20_balance_of_data(owner),
{
    let mut v = selector_vec(0x70, 0xa0, 0x82, 0x31);
    push_address_word(&mut v, owner);
    v
}

pub fn encode_weth_withdraw(amount: U256) -> (r: Vec<u8>)
    ensures
        r@ == weth_withdraw_data(amount),
{
    let mut v = selector_vec(0x2e, 0x1a, 0x7d, 0x4d);
    push_u256(&mut v, amount);
    v
}

pub fn encode_weth_deposit() -> (r: Vec<u8>)
    ensures
        r@ == weth_deposit_data(),
{
    selector_vec(0xd0, 0xe3, 0x0d, 0xb0)
}

pub fn encode_uni2_get_out_amount(from: Address, to: Address, pool: Address, amount: U256, fee: U256) -> (r: Vec<u8>)
    ensures
        r@ == uni2_get_out_amount_data(from, to, pool, amount, fee),
{
    let mut v = if from.less_than(&to) {
        selector_vec(0x9a, 0xec, 0x21, 0xab)
    } else {
        selector_vec(0x0e, 0xac, 0x97, 0x7b)
    };
    push_address_word(&mut v, pool);
    push_u256(&mut v, amount);
    push_u256(&mut v, fee);
    v
}

pub fn encode_uni2_get_in_amount(from: Address, to: Address, pool: Address, amount: U256, fee: U256) -> (r: Vec<u8>)
    ensures
        r@ == uni2_get_in_amount_data(from, to, pool, amount, fee),
{
    let mut v = if from.less_than(&to) {
        selector_vec(0x2e, 0xb6, 0xda, 0xc9)
    } else {
        selector_vec(0xc1, 0x20, 0x69, 0x8e)
    };
    push_address_word(&mut v, pool);
    push_u256(&mut v, amount);
    push_u256(&mut v, fee);
    v
}

pub fn encode_transfer_tips(token: Address, min_balance: U256, tips: U256, to: Address) -> (r: Vec<u8>)
    ensures
        r@ == transfer_tips_data(token, min_balance, tips, to),
{
    let mut v = selector_vec(0x4d, 0xf8, 0x6a, 0xdf);
    push_address_word(&mut v, token);
    push_u256(&mut v, min_balance);
    push_u256(&mut v, tips);
    push_address_word(&mut v, to);
    v
}

pub fn encode_transfer_tips_weth(min_balance: U256, tips: U256, to: Address) -> (r: Vec<u8>)
    ensures
        r@ == transfer_tips_weth_data(min_balance, tips, to),
{
    let mut v = selector_vec(0x05, 0xec, 0x9c, 0xad);
    push_u256(&mut v, min_balance);
    push_u256(&mut v, tips);
    push_address_word(&mut v, to);
    v
}

} // verus!
