use vstd::prelude::*;

verus! {

/// The failure kinds surfaced by the snapshot engine.
#[derive(Debug, Clone, PartialEq, Eq)]
pub enum BtmErr {
    /// The selected backend cannot perform the requested operation.
    Unsupported,
    /// The snapshot catalog is empty, or a lenient rollback found no older fallback.
    NoSnapshots,
    /// A strict rollback asked for an index that is not retained.
    TargetNotFound,
    /// The underlying snapshot tool failed; carries its captured diagnostics.
    ToolExecutionFailed(String),
    /// A coordination call exhausted its retry budget without a matching reply.
    ProtocolTimeout,
    /// A coordination message could not be decoded.
    ProtocolMismatch,
    /// The interval/capacity configuration is unusable.
    ConfigInvalid,
}

} // verus!
