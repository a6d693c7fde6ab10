//! The error kinds that the library raises.
use vstd::prelude::*;

verus! {

#[derive(Clone, Copy, Debug, PartialEq, Eq, Structural)]
pub enum LoomError {
    /// A pool or identifier is already registered.
    Duplicate,
    /// A token or pool lookup missed.
    NotFound,
    /// The encoder has no rule for the pool's class.
    UnsupportedPoolClass,
    /// The ABI encoder gave no stack-splice offset for the hop.
    MissingOffset,
    /// The operation is not implemented.
    NotImplemented,
    /// A hop's input amount is not set.
    AmountNotSet,
    /// A call cannot be packed: a stack slot above 63 or call data over 65535 bytes.
    Unpackable,
    /// The protocol ABI encoder refused to encode a swap.
    AbiEncoding,
    /// A chain read by the pool loader failed.
    RpcError,
    /// The chain id belongs to no named chain.
    NoNamedChain,
    /// The chain is named, but has no default token list.
    ChainTokensNotLoaded,
}

} // verus!
