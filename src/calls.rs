//! The multicaller's straight-line program: opcodes with stack bindings, and
//! their binary packing.
use vstd::prelude::*;
use crate::error::LoomError;
use crate::primitives::{Address, U256, address_bytes, u256_bytes, be_bytes, push_address, push_u256, push_be};

verus! {

#[derive(Clone, Copy, Debug, PartialEq, Eq, Structural)]
pub enum CallType {
    Call,
    StaticCall,
    CallWithValue,
    InternalCall,
    CalculationCall,
}

/// A binding between the multicaller's stack and a call's data or return buffer:
/// `len` bytes at byte `offset`, and stack slot `slot`, counted from the top
/// when `relative` holds.
#[derive(Clone, Copy, Debug, PartialEq, Eq, Structural)]
pub struct StackBinding {
    pub relative: bool,
    pub slot: u8,
    pub offset: u16,
    pub len: u16,
}

/// One opcode of the multicaller.
#[derive(Debug)]
pub struct MulticallerCall {
    pub to: Address,
    pub call_type: CallType,
    pub data: Vec<u8>,
    pub value: Option<U256>,
    pub call_stack: Option<StackBinding>,
    pub return_stack: Option<StackBinding>,
}

/// What an opcode is, as a value.
pub struct CallView {
    pub to: Address,
    pub call_type: CallType,
    pub data: Seq<u8>,
    pub value: Option<U256>,
    pub call_stack: Option<StackBinding>,
    pub return_stack: Option<StackBinding>,
}

/// An opcode without bindings.
pub open spec fn plain_call(to: Address, call_type: CallType, data: Seq<u8>, value: Option<U256>) -> CallView {
    CallView { to, call_type, data, value, call_stack: None, return_stack: None }
}

pub open spec fn with_call_stack(c: CallView, relative: bool, slot: u8, offset: u16, len: u16) -> CallView {
    CallView { call_stack: Some(StackBinding { relative, slot, offset, len }), ..c }
}

pub open spec fn with_return_stack(c: CallView, relative: bool, slot: u8, offset: u16, len: u16) -> CallView {
    CallView { return_stack: Some(StackBinding { relative, slot, offset, len }), ..c }
}

impl View for MulticallerCall {
    type V = CallView;

    open spec fn view(&self) -> CallView {
        CallView {
            to: self.to,
            call_type: self.call_type,
            data: self.data@,
            value: self.value,
            call_stack: self.call_stack,
            return_stack: self.return_stack,
        }
    }
}

impl MulticallerCall {
    /// A call of `to` with `data`.
    pub fn new_call(to: Address, data: Vec<u8>) -> (r: MulticallerCall)
        ensures
            r@ == plain_call(to, CallType::Call, data@, None),
    {
        MulticallerCall { to, call_type: CallType::Call, data, value: None, call_stack: None, return_stack: None }
    }

    /// A read-only call of `to` with `data`.
    pub fn new_static_call(to: Address, data: Vec<u8>) -> (r: MulticallerCall)
        ensures
            r@ == plain_call(to, CallType::StaticCall, data@, None),
    {
        MulticallerCall {
            to,
            call_type: CallType::StaticCall,
            data,
            value: None,
            call_stack: None,
            return_stack: None,
        }
    }

    /// A call of `to` with `data` that sends `value` of native currency.
    pub fn new_call_with_value(to: Address, data: Vec<u8>, value: U256) -> (r: MulticallerCall)
        ensures
            r@ == plain_call(to, CallType::CallWithValue, data@, Some(value)),
    {
        MulticallerCall {
            to,
            call_type: CallType::CallWithValue,
            data,
            value: Some(value),
            call_stack: None,
            return_stack: None,
        }
    }

    /// A call of one of the multicaller's own helpers.
    pub fn new_internal_call(data: Vec<u8>) -> (r: MulticallerCall)
        ensures
            r@ == plain_call(Address::zero_spec(), CallType::InternalCall, data@, None),
    {
        MulticallerCall {
            to: Address::zero(),
            call_type: CallType::InternalCall,
            data,
            value: None,
            call_stack: None,
            return_stack: None,
        }
    }

    /// An arithmetic opcode that the multicaller interprets itself.
    pub fn new_calculation_call(data: Vec<u8>) -> (r: MulticallerCall)
        ensures
            r@ == plain_call(Address::zero_spec(), CallType::CalculationCall, data@, None),
    {
        MulticallerCall {
            to: Address::zero(),
            call_type: CallType::CalculationCall,
            data,
            value: None,
            call_stack: None,
            return_stack: None,
        }
    }

    /// Before the call, splice `len` bytes of stack slot `slot` into the data at `offset`.
    pub fn set_call_stack(&mut self, relative: bool, slot: u8, offset: u16, len: u16)
        ensures
            final(self)@ == with_call_stack(old(self)@, relative, slot, offset, len),
    {
        self.call_stack = Some(StackBinding { relative, slot, offset, len });
    }

    /// After the call, push `len` bytes of the return buffer at `offset` to stack slot `slot`.
    pub fn set_return_stack(&mut self, relative: bool, slot: u8, offset: u16, len: u16)
        ensures
            final(self)@ == with_return_stack(old(self)@, relative, slot, offset, len),
    {
        self.return_stack = Some(StackBinding { relative, slot, offset, len });
    }
}

/// A straight-line program of opcodes.
#[derive(Debug)]
pub struct MulticallerCalls {
    pub calls: Vec<MulticallerCall>,
}

impl View for MulticallerCalls {
    type V = Seq<CallView>;

    open spec fn view(&self) -> Seq<CallView> {
        self.calls@.map_values(|c: MulticallerCall| c@)
    }
}

impl MulticallerCalls {
    pub fn new() -> (r: MulticallerCalls)
        ensures
            r@ == Seq::<CallView>::empty(),
    {
        let r = MulticallerCalls { calls: Vec::new() };
        assert(r@ =~= Seq::<CallView>::empty());
        r
    }

    /// Appends an opcode.
    pub fn add(&mut self, call: MulticallerCall)
        ensures
            final(self)@ == old(self)@.push(call@),
    {
        self.calls.push(call);
        assert(final(self)@ =~= old(self)@.push(call@));
    }

    /// Prepends an opcode.
    pub fn insert(&mut self, call: MulticallerCall)
        ensures
            final(self)@ == seq![call@] + old(self)@,
    {
        self.calls.insert(0, call);
        assert(final(self)@ =~= seq![call@] + old(self)@);
    }

    pub fn len(&self) -> (r: usize)
        ensures
            r == self@.len(),
    {
        self.calls.len()
    }
}

/// The byte that stands for a call type.
pub open spec fn call_type_byte(t: CallType) -> u8 {
    match t {
        CallType::Call => 1,
        CallType::StaticCall => 2,
        CallType::CallWithValue => 3,
        CallType::InternalCall => 4,
        CallType::CalculationCall => 5,
    }
}

/// A binding as 5 bytes: a flag byte (0x80 when present, 0x40 when relative,
/// the slot in the low six bits), then offset and length.
pub open spec fn binding_bytes(b: Option<StackBinding>) -> Seq<u8> {
    match b {
        None => seq![0u8, 0u8, 0u8, 0u8, 0u8],
        Some(b) => seq![(0x80 + (if b.relative { 0x40int } else { 0int }) + b.slot) as u8]
            + be_bytes(b.offset as nat, 2) + be_bytes(b.len as nat, 2),
    }
}

/// Whether a binding fits the packed form.
pub open spec fn binding_packable(b: Option<StackBinding>) -> bool {
    match b {
        None => true,
        Some(b) => b.slot < 64,
    }
}

pub open spec fn call_packable(c: CallView) -> bool {
    binding_packable(c.call_stack) && binding_packable(c.return_stack) && c.data.len() < 0x10000
}

/// The target as 20 bytes, zero for the multicaller's own opcodes.
pub open spec fn target_bytes(c: CallView) -> Seq<u8> {
    if c.call_type == CallType::InternalCall || c.call_type == CallType::CalculationCall {
        address_bytes(Address::zero_spec())
    } else {
        address_bytes(c.to)
    }
}

pub open spec fn value_bytes(v: Option<U256>) -> Seq<u8> {
    match v {
        None => seq![0u8],
        Some(w) => seq![1u8] + u256_bytes(w),
    }
}

pub open spec fn all_packable(s: Seq<CallView>) -> bool {
    forall|i: int| 0 <= i < s.len() ==> call_packable(#[trigger] s[i])
}

/// One opcode in packed form.
pub open spec fn pack_call(c: CallView) -> Seq<u8> {
    target_bytes(c) + seq![call_type_byte(c.call_type)] + value_bytes(c.value) + binding_bytes(
        c.call_stack,
    ) + binding_bytes(c.return_stack) + be_bytes(c.data.len(), 2) + c.data
}

/// A program in packed form: its opcodes, one after another.
pub open spec fn pack_calls(s: Seq<CallView>) -> Seq<u8>
    decreases s.len(),
{
    if s.len() == 0 {
        Seq::empty()
    } else {
        pack_calls(s.drop_last()) + pack_call(s.last())
    }
}

fn push_binding(out: &mut Vec<u8>, b: Option<StackBinding>)
    requires
        binding_packable(b),
    ensures
        final(out)@ == old(out)@ + binding_bytes(b),
{
    match b {
        None => {
            out.push(0);
            out.push(0);
            out.push(0);
            out.push(0);
            out.push(0);
            assert(final(out)@ =~= old(out)@ + binding_bytes(b));
        },
        Some(sb) => {
            let flag: u8 = if sb.relative { 0xc0u8 + sb.slot } else { 0x80u8 + sb.slot };
            out.push(flag);
            push_be(out, sb.offset as u128, 2);
            push_be(out, sb.len as u128, 2);
            assert(final(out)@ =~= old(out)@ + binding_bytes(b));
        },
    }
}

fn push_header(out: &mut Vec<u8>, c: &MulticallerCall)
    ensures
        final(out)@ == old(out)@ + target_bytes(c@) + seq![call_type_byte(c.call_type)] + value_bytes(c.value),
{
    match c.call_type {
        CallType::InternalCall | CallType::CalculationCall => push_address(out, Address::zero()),
        _ => push_address(out, c.to),
    }
    let tb: u8 = match c.call_type {
        CallType::Call => 1,
        CallType::StaticCall => 2,
        CallType::CallWithValue => 3,
        CallType::InternalCall => 4,
        CallType::CalculationCall => 5,
    };
    out.push(tb);
    match c.value {
        None => out.push(0),
        Some(w) => {
            out.push(1);
            push_u256(out, w);
        },
    }
    assert(final(out)@ =~= old(out)@ + target_bytes(c@) + seq![call_type_byte(c.call_type)] + value_bytes(c.value));
}

fn push_bytes(out: &mut Vec<u8>, data: &Vec<u8>)
    ensures
        final(out)@ == old(out)@ + data@,
{
    let mut i: usize = 0;
    while i < data.len()
        invariant
            i <= data@.len(),
            out@ =~= old(out)@ + data@.subrange(0, i as int),
        decreases data.len() - i,
    {
        out.push(data[i]);
        i = i + 1;
    }
    assert(data@.subrange(0, data@.len() as int) =~= data@);
}

fn pack_one(out: &mut Vec<u8>, c: &MulticallerCall)
    requires
        call_packable(c@),
    ensures
        final(out)@ == old(out)@ + pack_call(c@),
{
    push_header(out, c);
    push_binding(out, c.call_stack);
    push_binding(out, c.return_stack);
    push_be(out, c.data.len() as u128, 2);
    push_bytes(out, &c.data);
    assert(final(out)@ =~= old(out)@ + pack_call(c@));
}

/// Packs a program into the bytes that the multicaller reads; fails with
/// `Unpackable` when some opcode has a stack slot above 63 or more than
/// 65535 bytes of data.
pub fn pack_do_calls_data(calls: &MulticallerCalls) -> (r: Result<Vec<u8>, LoomError>)
    ensures
        all_packable(calls@) ==> (r matches Ok(b) && b@ == pack_calls(calls@)),
        !all_packable(calls@) ==> r == Err::<Vec<u8>, LoomError>(LoomError::Unpackable),
{
    let mut out: Vec<u8> = Vec::new();
    let mut i: usize = 0;
    while i < calls.calls.len()
        invariant
            i <= calls@.len(),
            calls@.len() == calls.calls@.len(),
            forall|j: int| 0 <= j < i ==> call_packable(#[trigger] calls@[j]),
            out@ == pack_calls(calls@.subrange(0, i as int)),
        decreases calls.calls.len() - i,
    {
        let c = &calls.calls[i];
        assert(calls@[i as int] == c@);
        let packable = match c.call_stack {
            None => true,
            Some(b) => b.slot < 64,
        } && match c.return_stack {
            None => true,
            Some(b) => b.slot < 64,
        } && c.data.len() < 0x10000;
        if !packable {
            return Err(LoomError::Unpackable);
        }
        pack_one(&mut out, c);
        assert(calls@.subrange(0, i + 1 as int).drop_last() =~= calls@.subrange(0, i as int));
        i = i + 1;
    }
    assert(calls@.subrange(0, i as int) =~= calls@);
    Ok(out)
}

} // verus!
