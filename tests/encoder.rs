use loom_market::abi::{encode_erc20_transfer, encode_uni2_get_out_amount};
use loom_market::calls::{pack_do_calls_data, CallType, MulticallerCall, MulticallerCalls, StackBinding};
use loom_market::flash::{flash_in_request, flash_out_request};
use loom_market::encoder::{compile_swap_line, hop_request, CurveSwapOpcodesEncoder, HopAbi, ProtocolAbiSwapEncoder, SwapLineEncoder};
use loom_market::error::LoomError;
use loom_market::pool::{Pool, PoolClass, PreswapRequirement};
use loom_market::primitives::{Address, U256};
use loom_market::swap::{SwapAmountType, SwapLine};
use loom_market::swap_path::SwapPath;

fn addr(n: u64) -> Address {
    Address::new(0x2000_0000 + n as u32, 0x5555_6666_7777_8888 ^ n, n.wrapping_mul(0x9e37_79b9_7f4a_7c15))
}

fn weth() -> Address {
    Address::new(0xc02aaa39, 0xb223fe8d0a0e5c4f, 0x27ead9083c756cc2)
}

fn multicaller() -> Address {
    addr(900)
}

struct TestAbi;

impl ProtocolAbiSwapEncoder for TestAbi {
    fn encode_swap_in_amount_provided(
        &self,
        pool: &Pool,
        _token_from: Address,
        _token_to: Address,
        amount: U256,
        recipient: Address,
        payload: &Vec<u8>,
    ) -> Result<Vec<u8>, LoomError> {
        let mut v = vec![0xaa, pool.address.hi as u8];
        v.extend_from_slice(&amount.lo.to_be_bytes());
        v.extend_from_slice(&recipient.lo.to_be_bytes());
        v.extend_from_slice(payload);
        Ok(v)
    }

    fn encode_swap_out_amount_provided(
        &self,
        pool: &Pool,
        _token_from: Address,
        _token_to: Address,
        amount: U256,
        recipient: Address,
        payload: &Vec<u8>,
    ) -> Result<Vec<u8>, LoomError> {
        let mut v = vec![0xbb, pool.address.hi as u8];
        v.extend_from_slice(&amount.lo.to_be_bytes());
        v.extend_from_slice(&recipient.lo.to_be_bytes());
        v.extend_from_slice(payload);
        Ok(v)
    }

    fn swap_in_amount_offset(&self, _pool: &Pool, _token_from: Address, _token_to: Address) -> Option<u16> {
        Some(0x44)
    }

    fn swap_out_amount_offset(&self, _pool: &Pool, _token_from: Address, _token_to: Address) -> Option<u16> {
        Some(0x64)
    }
}

fn uni2(a: Address) -> Pool {
    Pool::new(a, PoolClass::UniswapV2, U256::from_u64(9970), PreswapRequirement::Transfer(a), false)
}

fn uni3(a: Address) -> Pool {
    Pool::new(a, PoolClass::UniswapV3, U256::from_u64(3000), PreswapRequirement::Callback, false)
}

fn curve(a: Address) -> Pool {
    Pool::new(a, PoolClass::Curve, U256::zero(), PreswapRequirement::Allowance, false)
}

fn line(tokens: Vec<Address>, pools: Vec<Pool>, amount_in: SwapAmountType) -> SwapLine {
    SwapLine::new(SwapPath::new(tokens, pools), amount_in, SwapAmountType::NotSet)
}

fn binding(relative: bool, slot: u8, offset: u16, len: u16) -> Option<StackBinding> {
    Some(StackBinding { relative, slot, offset, len })
}

#[test]
fn erc20_transfer_call_data_is_selector_then_words() {
    let to = Address::new(0x01020304, 0x05060708090a0b0c, 0x0d0e0f1011121314);
    let data = encode_erc20_transfer(to, U256::from_u128(100));
    let mut want = vec![0xa9, 0x05, 0x9c, 0xbb];
    want.extend_from_slice(&[0u8; 12]);
    want.extend_from_slice(&[1, 2, 3, 4, 5, 6, 7, 8, 9, 10, 11, 12, 13, 14, 15, 16, 17, 18, 19, 20]);
    want.extend_from_slice(&[0u8; 31]);
    want.push(100);
    assert_eq!(data, want);
}

#[test]
fn uni2_helper_selector_follows_token_order() {
    let lo = Address::new(1, 0, 0);
    let hi = Address::new(2, 0, 0);
    let a = encode_uni2_get_out_amount(lo, hi, addr(1), U256::zero(), U256::zero());
    let b = encode_uni2_get_out_amount(hi, lo, addr(1), U256::zero(), U256::zero());
    assert_eq!(&a[0..4], &[0x9a, 0xec, 0x21, 0xab]);
    assert_eq!(&b[0..4], &[0x0e, 0xac, 0x97, 0x7b]);
    assert_eq!(a.len(), 4 + 3 * 32);
}

#[test]
fn pack_one_call_layout() {
    let mut calls = MulticallerCalls::new();
    let mut c = MulticallerCall::new_call(Address::new(0x01020304, 0, 5), vec![0xde, 0xad]);
    c.set_call_stack(true, 1, 0x24, 0x20);
    calls.add(c);
    let bytes = pack_do_calls_data(&calls).unwrap();
    let mut want = vec![1, 2, 3, 4, 0, 0, 0, 0, 0, 0, 0, 0, 0, 0, 0, 0, 0, 0, 0, 5];
    want.push(1); // call
    want.push(0); // no value
    want.extend_from_slice(&[0xc1, 0x00, 0x24, 0x00, 0x20]);
    want.extend_from_slice(&[0, 0, 0, 0, 0]);
    want.extend_from_slice(&[0x00, 0x02, 0xde, 0xad]);
    assert_eq!(bytes, want);
}

#[test]
fn pack_refuses_a_high_slot() {
    let mut calls = MulticallerCalls::new();
    let mut c = MulticallerCall::new_call(addr(1), vec![]);
    c.set_return_stack(false, 64, 0, 0x20);
    calls.add(c);
    assert_eq!(pack_do_calls_data(&calls), Err(LoomError::Unpackable));
}

#[test]
fn encoder_stack_binding_uni2_then_uni3() {
    let (t0, t1, t2) = (addr(1), addr(2), addr(3));
    let (pool_one, pool_two) = (addr(11), addr(12));
    let l = line(vec![t0, t1, t2], vec![uni2(pool_one), uni3(pool_two)], SwapAmountType::Fixed(U256::from_u128(100)));
    let hops = vec![HopAbi { data: vec![0x11], offset: None }, HopAbi { data: vec![0x22], offset: Some(0x44) }];
    let ops = compile_swap_line(&l, multicaller(), multicaller(), multicaller(), &hops).unwrap();
    assert_eq!(ops.calls.len(), 4);

    assert_eq!(ops.calls[0].to, t0);
    assert_eq!(ops.calls[0].data, encode_erc20_transfer(pool_one, U256::from_u128(100)));
    assert_eq!(ops.calls[0].call_stack, None);

    assert_eq!(ops.calls[1].to, pool_one);
    assert_eq!(ops.calls[1].call_type, CallType::Call);
    assert_eq!(ops.calls[1].data, vec![0x11]);
    assert_eq!(ops.calls[1].return_stack, binding(true, 0, 0, 0x20));

    assert_eq!(ops.calls[2].to, t1);
    assert_eq!(&ops.calls[2].data[0..4], &[0x09, 0x5e, 0xa7, 0xb3]);
    assert_eq!(ops.calls[2].call_stack, binding(true, 0, 0x24, 0x20));

    assert_eq!(ops.calls[3].to, pool_two);
    assert_eq!(ops.calls[3].data, vec![0x22]);
    assert_eq!(ops.calls[3].call_stack, binding(true, 0, 0x44, 0x20));
    assert_eq!(ops.calls[3].return_stack, binding(true, 0, 0, 0x20));
}

#[test]
fn missing_offset_fails_the_line() {
    let (t0, t1, t2) = (addr(1), addr(2), addr(3));
    let l = line(vec![t0, t1, t2], vec![uni2(addr(11)), uni3(addr(12))], SwapAmountType::Fixed(U256::from_u128(100)));
    let hops = vec![HopAbi { data: vec![0x11], offset: None }, HopAbi { data: vec![0x22], offset: None }];
    assert_eq!(compile_swap_line(&l, multicaller(), multicaller(), multicaller(), &hops).err(), Some(LoomError::MissingOffset));
}

#[test]
fn unknown_class_is_unsupported() {
    let (t0, t1) = (addr(1), addr(2));
    let p = Pool::new(addr(13), PoolClass::Unknown, U256::zero(), PreswapRequirement::Unknown, false);
    let l = line(vec![t0, t1], vec![p], SwapAmountType::Fixed(U256::from_u128(1)));
    let enc = SwapLineEncoder::new(multicaller(), TestAbi);
    assert_eq!(enc.encode_swap_line_in_amount(&l, multicaller(), multicaller()).err(), Some(LoomError::UnsupportedPoolClass));
}

#[test]
fn curve_need_balance_pool_reads_balance_before_transfer() {
    let (t0, t1, t2) = (addr(1), addr(2), addr(3));
    let c = Address::new(0xbebc4478, 0x2c7db0a1a60cb6fe, 0x97d0b483032ff1c7);
    let pool_two = addr(14);
    let l = line(vec![t0, t1, t2], vec![curve(c), uni2(pool_two)], SwapAmountType::Fixed(U256::from_u128(100)));
    let hops = vec![HopAbi { data: vec![0x33], offset: None }, HopAbi { data: vec![0x44], offset: Some(0x24) }];
    let ops = compile_swap_line(&l, multicaller(), multicaller(), multicaller(), &hops).unwrap();
    assert_eq!(ops.calls.len(), 5);
    assert_eq!(ops.calls[0].to, t0);
    assert_eq!(&ops.calls[0].data[0..4], &[0x09, 0x5e, 0xa7, 0xb3]);
    assert_eq!(ops.calls[1].to, c);
    assert_eq!(ops.calls[1].return_stack, None);
    assert_eq!(ops.calls[2].to, t1);
    assert_eq!(ops.calls[2].call_type, CallType::StaticCall);
    assert_eq!(&ops.calls[2].data[0..4], &[0x70, 0xa0, 0x82, 0x31]);
    assert_eq!(ops.calls[2].return_stack, binding(true, 0, 0, 0x20));
    assert_eq!(ops.calls[3].to, t1);
    assert_eq!(ops.calls[3].data, encode_erc20_transfer(pool_two, U256::zero()));
    assert_eq!(ops.calls[3].call_stack, binding(true, 0, 0x24, 0x20));
    assert_eq!(ops.calls[4].to, pool_two);
    assert_eq!(ops.calls[4].call_stack, binding(true, 0, 0x24, 0x20));
}

#[test]
fn curve_other_pool_keeps_returned_amount() {
    let (t0, t1) = (addr(1), addr(2));
    let c = addr(15);
    let mut ops = MulticallerCalls::new();
    CurveSwapOpcodesEncoder
        .encode_swap_in_amount_provided(&mut ops, &TestAbi, t0, t1, SwapAmountType::Stack0, &curve(c), None, multicaller())
        .unwrap();
    assert_eq!(ops.calls.len(), 2);
    assert_eq!(ops.calls[0].call_stack, binding(false, 0, 0x24, 0x20));
    assert_eq!(ops.calls[1].call_stack, binding(false, 0, 0x44, 0x20));
    assert_eq!(ops.calls[1].return_stack, binding(true, 0, 0, 0x20));
}

#[test]
fn curve_native_input_unwraps_first() {
    let c = addr(16);
    let mut pool = curve(c);
    pool.native = true;
    let mut ops = MulticallerCalls::new();
    CurveSwapOpcodesEncoder
        .encode_swap_in_amount_provided(&mut ops, &TestAbi, weth(), addr(2), SwapAmountType::Fixed(U256::from_u128(7)), &pool, None, multicaller())
        .unwrap();
    assert_eq!(ops.calls.len(), 2);
    assert_eq!(&ops.calls[0].data[0..4], &[0x2e, 0x1a, 0x7d, 0x4d]);
    assert_eq!(ops.calls[1].call_type, CallType::CallWithValue);
    assert_eq!(ops.calls[1].value, Some(U256::from_u128(7)));
}

#[test]
fn balance_input_reads_balance_then_transfers() {
    let (t0, t1) = (addr(1), addr(2));
    let pool_one = addr(17);
    let holder = addr(18);
    let l = line(vec![t0, t1], vec![uni2(pool_one)], SwapAmountType::Balance(holder));
    let hops = vec![HopAbi { data: vec![0x55], offset: Some(0x24) }];
    let ops = compile_swap_line(&l, multicaller(), multicaller(), multicaller(), &hops).unwrap();
    assert_eq!(ops.calls.len(), 3);
    assert_eq!(ops.calls[0].call_type, CallType::StaticCall);
    assert_eq!(ops.calls[0].return_stack, binding(true, 0, 0, 0x20));
    assert_eq!(ops.calls[1].call_stack, binding(true, 0, 0x24, 0x20));
    assert_eq!(ops.calls[2].call_stack, binding(true, 0, 0x24, 0x20));
}

#[test]
fn encoding_twice_gives_the_same_bytes() {
    let (t0, t1, t2) = (addr(1), addr(2), addr(3));
    let l = line(vec![t0, t1, t2], vec![uni2(addr(11)), uni3(addr(12))], SwapAmountType::Fixed(U256::from_u128(100)));
    let enc = SwapLineEncoder::new(multicaller(), TestAbi);
    let a = enc.encode_swap_line_in_amount(&l, multicaller(), addr(99)).unwrap();
    let b = enc.encode_swap_line_in_amount(&l, multicaller(), addr(99)).unwrap();
    assert_eq!(pack_do_calls_data(&a).unwrap(), pack_do_calls_data(&b).unwrap());
    assert_eq!(a.calls.len(), 4);
}

#[test]
fn tips_use_the_weth_helper_for_weth() {
    let enc = SwapLineEncoder::new(multicaller(), TestAbi);
    let a = enc.encode_tips(MulticallerCalls::new(), weth(), U256::from_u128(1), U256::from_u128(2), addr(5)).unwrap();
    let b = enc.encode_tips(MulticallerCalls::new(), addr(6), U256::from_u128(1), U256::from_u128(2), addr(5)).unwrap();
    assert_eq!(a.calls[0].call_type, CallType::InternalCall);
    assert_eq!(&a.calls[0].data[0..4], &[0x05, 0xec, 0x9c, 0xad]);
    assert_eq!(&b.calls[0].data[0..4], &[0x4d, 0xf8, 0x6a, 0xdf]);
    assert_eq!(a.calls[0].data.len(), 4 + 3 * 32);
    assert_eq!(b.calls[0].data.len(), 4 + 4 * 32);
}

#[test]
fn dydx_flash_is_not_implemented() {
    let enc = SwapLineEncoder::new(multicaller(), TestAbi);
    assert_eq!(enc.encode_flash_swap_dydx(MulticallerCalls::new(), addr(1)).err(), Some(LoomError::NotImplemented));
}

fn inside_program() -> MulticallerCalls {
    let mut calls = MulticallerCalls::new();
    calls.add(MulticallerCall::new_call(addr(70), vec![0x01, 0x02]));
    calls
}

#[test]
fn flash_in_single_uni3_packs_repayment_as_callback() {
    let (t0, t1) = (addr(1), addr(2));
    let p = addr(21);
    let l = line(vec![t0, t1], vec![uni3(p)], SwapAmountType::Fixed(U256::from_u128(100)));
    let enc = SwapLineEncoder::new(multicaller(), TestAbi);
    let ops = enc.encode_flash_swap_line_in_amount(&l, inside_program(), multicaller()).unwrap();
    assert_eq!(ops.calls.len(), 1);
    assert_eq!(ops.calls[0].to, p);
    assert_eq!(ops.calls[0].data[0], 0xaa);
    let mut expected_inside = inside_program();
    expected_inside.add(MulticallerCall::new_call(t0, encode_erc20_transfer(p, U256::from_u128(100))));
    let packed = pack_do_calls_data(&expected_inside).unwrap();
    let data = &ops.calls[0].data;
    assert_eq!(&data[data.len() - packed.len()..], &packed[..]);
    assert_eq!(&data[2..18], &100u128.to_be_bytes());
}

#[test]
fn flash_in_uni2_then_uni3() {
    let (t0, t1, t2) = (addr(1), addr(2), addr(3));
    let (pool_one, pool_two) = (addr(22), addr(23));
    let l = line(vec![t0, t1, t2], vec![uni2(pool_one), uni3(pool_two)], SwapAmountType::Fixed(U256::from_u128(100)));
    let enc = SwapLineEncoder::new(multicaller(), TestAbi);
    let ops = enc.encode_flash_swap_line_in_amount(&l, inside_program(), addr(99)).unwrap();
    assert_eq!(ops.calls.len(), 2);
    assert_eq!(ops.calls[0].call_type, CallType::InternalCall);
    assert_eq!(ops.calls[0].data, encode_uni2_get_out_amount(t0, t1, pool_one, U256::from_u128(100), U256::from_u64(9970)));
    assert_eq!(ops.calls[1].to, pool_one);
    assert_eq!(ops.calls[1].data[0], 0xbb);
    assert_eq!(ops.calls[1].call_stack, binding(true, 0, 0x64, 0x20));
}

#[test]
fn flash_in_refuses_a_curve_pool() {
    let (t0, t1) = (addr(1), addr(2));
    let l = line(vec![t0, t1], vec![curve(addr(24))], SwapAmountType::Fixed(U256::from_u128(1)));
    let enc = SwapLineEncoder::new(multicaller(), TestAbi);
    assert_eq!(enc.encode_flash_swap_line_in_amount(&l, inside_program(), multicaller()).err(), Some(LoomError::UnsupportedPoolClass));
    assert_eq!(enc.encode_flash_swap_line_out_amount(&l, inside_program(), multicaller()).err(), Some(LoomError::UnsupportedPoolClass));
}

#[test]
fn flash_out_fixed_amount_uni3() {
    let (t0, t1) = (addr(1), addr(2));
    let p = addr(25);
    let mut l = line(vec![t0, t1], vec![uni3(p)], SwapAmountType::NotSet);
    l.amount_out = SwapAmountType::Fixed(U256::from_u128(50));
    let enc = SwapLineEncoder::new(multicaller(), TestAbi);
    let ops = enc.encode_flash_swap_line_out_amount(&l, inside_program(), multicaller()).unwrap();
    assert_eq!(ops.calls.len(), 1);
    assert_eq!(ops.calls[0].to, p);
    assert_eq!(ops.calls[0].data[0], 0xbb);
    assert_eq!(&ops.calls[0].data[2..18], &50u128.to_be_bytes());
    assert_eq!(ops.calls[0].call_stack, None);
}

#[test]
fn flash_out_stack_amount_uni3_uses_calculation() {
    let (t0, t1) = (addr(1), addr(2));
    let p = addr(26);
    let l = line(vec![t0, t1], vec![uni3(p)], SwapAmountType::NotSet);
    let enc = SwapLineEncoder::new(multicaller(), TestAbi);
    let ops = enc.encode_flash_swap_line_out_amount(&l, inside_program(), multicaller()).unwrap();
    assert_eq!(ops.calls.len(), 2);
    assert_eq!(ops.calls[0].call_type, CallType::CalculationCall);
    assert_eq!(ops.calls[0].data, vec![0x08, 0x2a, 0x00]);
    assert_eq!(ops.calls[1].call_stack, binding(true, 0, 0x64, 0x20));
}

#[test]
fn hop_requests_fix_amount_and_recipient() {
    let (t0, t1, t2) = (addr(1), addr(2), addr(3));
    let (pool_one, pool_two) = (addr(31), addr(32));
    let l = line(vec![t0, t1, t2], vec![uni3(pool_one), uni2(pool_two)], SwapAmountType::Fixed(U256::from_u128(100)));
    let first = hop_request(&l, 0, multicaller(), addr(99), multicaller());
    assert_eq!(first.amount, U256::from_u128(100));
    assert_eq!(first.recipient, pool_two);
    assert!(!first.needs_offset);
    let second = hop_request(&l, 1, multicaller(), addr(99), multicaller());
    assert_eq!(second.amount, U256::zero());
    assert_eq!(second.recipient, addr(99));
    assert!(second.needs_offset);
    assert_eq!(second.token_from, t1);
}

#[test]
fn unset_amount_is_an_error() {
    let (t0, t1) = (addr(1), addr(2));
    let mut ops = MulticallerCalls::new();
    let r = CurveSwapOpcodesEncoder.encode_swap_in_amount_provided(&mut ops, &TestAbi, t0, t1, SwapAmountType::NotSet, &curve(addr(40)), None, multicaller());
    assert_eq!(r, Err(LoomError::AmountNotSet));
    assert!(ops.calls.is_empty());
    let l = line(vec![t0, t1], vec![uni3(addr(41))], SwapAmountType::NotSet);
    let enc = SwapLineEncoder::new(multicaller(), TestAbi);
    assert_eq!(enc.encode_swap_line_in_amount(&l, multicaller(), multicaller()).err(), Some(LoomError::AmountNotSet));
}

#[test]
fn flash_requests_fix_recipient_and_payload() {
    let (t0, t1) = (addr(1), addr(2));
    let p = addr(42);
    let l = line(vec![t0, t1], vec![uni3(p)], SwapAmountType::Fixed(U256::from_u128(9)));
    let mut inside = inside_program();
    let q = flash_in_request(&l, 0, &mut inside, addr(99), multicaller()).unwrap();
    assert_eq!(q.recipient, addr(99));
    assert!(!q.swap_out);
    assert_eq!(q.amount, U256::from_u128(9));
    assert_eq!(q.payload, pack_do_calls_data(&inside).unwrap());
    assert_eq!(inside.calls.len(), 2);

    let l2 = line(vec![t0, t1], vec![uni2(p)], SwapAmountType::Fixed(U256::from_u128(9)));
    let mut inside2 = inside_program();
    let q2 = flash_in_request(&l2, 0, &mut inside2, addr(99), multicaller()).unwrap();
    assert!(q2.swap_out);
    assert_eq!(q2.recipient, multicaller());
    assert_eq!(q2.amount, U256::zero());

    let mut inside3 = inside_program();
    let q3 = flash_out_request(&l, 0, &mut inside3, multicaller()).unwrap();
    assert!(q3.swap_out);
    assert!(q3.needs_offset);
    assert_eq!(q3.recipient, multicaller());

    let lc = line(vec![t0, t1], vec![curve(addr(43))], SwapAmountType::Fixed(U256::from_u128(9)));
    let mut inside4 = inside_program();
    assert_eq!(flash_in_request(&lc, 0, &mut inside4, addr(99), multicaller()).err(), Some(LoomError::UnsupportedPoolClass));
    assert_eq!(inside4.calls.len(), 1);
}
