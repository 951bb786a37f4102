//! Behaviour sets of common translators and firewalls.

use vstd::prelude::*;
use crate::flags::{
    ADDRESS_AND_PORT_DEPENDENT_FILTERING, ADDRESS_AND_PORT_DEPENDENT_MAPPING,
    ADDRESS_DEPENDENT_FILTERING, FILTERED_INBOUND_DESTROYS_MAPPING, INBOUND_REFRESH_BEHAVIOR_FALSE,
    INTERNAL_ADDRESS_AND_PORT_HAIRPINNING, IP_POOLING_BEHAVIOR_ARBITRARY, NO_PORT_PARITY,
    NO_PORT_PRESERVATION, OUTBOUND_REFRESH_BEHAVIOR_FALSE, PORT_PRESERVATION_OVERLOAD,
    PORT_PRESERVATION_OVERRIDE,
};

verus! {

/// A firewall that lets replies in on any port the inside has used.
pub const STATEFUL_FIREWALL: u32 = PORT_PRESERVATION_OVERRIDE;

/// `STATEFUL_FIREWALL` with address-dependent filtering.
pub const RESTRICTED_FIREWALL: u32 = STATEFUL_FIREWALL | ADDRESS_DEPENDENT_FILTERING;

/// `STATEFUL_FIREWALL` with address- and port-dependent filtering.
pub const PORT_RESTRICTED_FIREWALL: u32 = STATEFUL_FIREWALL
    | ADDRESS_AND_PORT_DEPENDENT_FILTERING;

/// `PORT_RESTRICTED_FIREWALL` that overloads ports.
pub const MISBEHAVING_FIREWALL: u32 = PORT_RESTRICTED_FIREWALL | PORT_PRESERVATION_OVERLOAD;

/// No flag set: plain address translation with port preservation.
pub const EASY_NAT: u32 = 0;

/// A translator that always draws the external port.
pub const FULL_CONE_NAT: u32 = NO_PORT_PRESERVATION;

/// `FULL_CONE_NAT` with the filter of `RESTRICTED_FIREWALL`.
pub const RESTRICTED_CONE_NAT: u32 = FULL_CONE_NAT | RESTRICTED_FIREWALL;

/// `FULL_CONE_NAT` with the filter of `PORT_RESTRICTED_FIREWALL`.
pub const PORT_RESTRICTED_CONE_NAT: u32 = FULL_CONE_NAT | PORT_RESTRICTED_FIREWALL;

/// `PORT_RESTRICTED_CONE_NAT` with address- and port-dependent mapping.
pub const SYMMETRIC_NAT: u32 = PORT_RESTRICTED_CONE_NAT | ADDRESS_AND_PORT_DEPENDENT_MAPPING;

/// `SYMMETRIC_NAT` with arbitrary pooling, no inbound refresh and no parity.
pub const HARD_NAT: u32 = SYMMETRIC_NAT | IP_POOLING_BEHAVIOR_ARBITRARY
    | INBOUND_REFRESH_BEHAVIOR_FALSE | NO_PORT_PARITY;

/// `HARD_NAT` that hairpins with internal sources, does not refresh on
/// outbound traffic, and tears bindings down on filtered inbound packets.
pub const MISBEHAVING_NAT: u32 = HARD_NAT | INTERNAL_ADDRESS_AND_PORT_HAIRPINNING
    | OUTBOUND_REFRESH_BEHAVIOR_FALSE | FILTERED_INBOUND_DESTROYS_MAPPING;

} // verus!
