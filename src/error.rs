use vstd::prelude::*;

verus! {

/// Why an operation on the pool was refused. A refused operation changes nothing.
#[derive(Debug, Clone, Copy, PartialEq, Eq, Structural)]
pub enum PairErrors {
    InsufficientTokenOneBalance,
    InsufficientTokenTwoBalance,
    InsufficientTokenOneAllowance,
    InsufficientTokenTwoAllowance,
    Overflow,
    ZeroLPMinted,
    SlippageTolerance,
    TokenOneTransferFromFailed,
    TokenTwoTransferFromFailed,
    TokenOneTransferFailed,
    TokenTwoTransferFailed,
    InsufficientLPBalance,
    PoolOutOfTokenOne,
    PoolOutOfTokenTwo,
    InsufficientLPAllowance,
    /// Another operation on the pool is still in progress.
    Locked,
}

} // verus!
