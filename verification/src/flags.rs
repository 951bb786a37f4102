//! The behaviours of a translator, one bit each.
//!
//! A set of behaviours is the bitwise or of the flags wanted. Each flag that
//! is set makes the translator at least as hard to traverse as it is with
//! the flag clear. The empty set is a translator that rewrites addresses and
//! keeps ports wherever it can.

use vstd::prelude::*;

verus! {

/// Address pooling is "arbitrary": a new binding may land on any external
/// address. When clear, pooling is "paired": an internal host always leaves
/// through the external address it was given when it was registered.
pub const IP_POOLING_BEHAVIOR_ARBITRARY: u32 = 0x0001;

/// A destination address not seen before forces a new binding.
pub const ADDRESS_DEPENDENT_MAPPING: u32 = 0x0002;

/// A destination port not seen before forces a new binding.
pub const PORT_DEPENDENT_MAPPING: u32 = 0x0004;

/// Both mapping dependences.
pub const ADDRESS_AND_PORT_DEPENDENT_MAPPING: u32 = ADDRESS_DEPENDENT_MAPPING
    | PORT_DEPENDENT_MAPPING;

/// An inbound packet must come from the address the binding last sent to.
pub const ADDRESS_DEPENDENT_FILTERING: u32 = 0x0008;

/// An inbound packet must come from the port the binding last sent to.
pub const PORT_DEPENDENT_FILTERING: u32 = 0x0010;

/// Both filtering dependences.
pub const ADDRESS_AND_PORT_DEPENDENT_FILTERING: u32 = ADDRESS_DEPENDENT_FILTERING
    | PORT_DEPENDENT_FILTERING;

/// A packet from the inside that is addressed to one of the translator's own
/// external addresses is dropped.
pub const NO_HAIRPINNING: u32 = 0x0020;

/// A hairpinned packet keeps the sender's internal address and port as its
/// source. Without effect when `NO_HAIRPINNING` is set.
pub const INTERNAL_ADDRESS_AND_PORT_HAIRPINNING: u32 = 0x0040;

/// Outbound traffic does not renew a binding's timeout.
pub const OUTBOUND_REFRESH_BEHAVIOR_FALSE: u32 = 0x0080;

/// Inbound traffic does not renew a binding's timeout.
pub const INBOUND_REFRESH_BEHAVIOR_FALSE: u32 = 0x0100;

/// An inbound packet that the filter rejects tears down every binding on the
/// port it was addressed to.
pub const FILTERED_INBOUND_DESTROYS_MAPPING: u32 = 0x0200;

/// The external port is always drawn at random.
pub const NO_PORT_PRESERVATION: u32 = 0x0400;

/// A drawn external port need not have the parity of the internal port.
pub const NO_PORT_PARITY: u32 = 0x0800;

/// Port preservation is enforced by displacing whoever holds the port.
/// Without effect when `NO_PORT_PRESERVATION` is set.
pub const PORT_PRESERVATION_OVERRIDE: u32 = 0x1000;

/// Port preservation is enforced by letting several bindings share the port.
/// Without effect when `NO_PORT_PRESERVATION` is set.
pub const PORT_PRESERVATION_OVERLOAD: u32 = 0x2000;

/// Whether `flag` is set in `flags`.
pub open spec fn is_set(flags: u32, flag: u32) -> bool {
    flags & flag != 0
}

/// Tests one flag of a behaviour set.
pub fn has_flag(flags: u32, flag: u32) -> (set: bool)
    ensures
        set == is_set(flags, flag),
{
    flags & flag != 0
}

} // verus!
