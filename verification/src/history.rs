//! The states that a translator can reach, and what holds in all of them.
//!
//! A translator starts with empty tables and an empty registry and moves
//! by four kinds of steps: a host is registered, a host is removed, a
//! packet comes from the outside, a packet comes from the inside. The
//! theorems here say what holds after any number of such steps.

use vstd::prelude::*;
use crate::flags::{is_set, NO_PORT_PARITY, NO_PORT_PRESERVATION};
use crate::laws::{
    law_one_endpoint_inbound, law_one_endpoint_outbound, law_parity, law_parity_inbound,
    law_ports_exclusive_inbound, law_ports_exclusive_outbound, law_ports_unique_at_start,
    law_ports_unique_inbound, law_ports_unique_outbound, law_wf_at_start, law_wf_inbound,
    law_wf_outbound, law_wf_registry, lemma_no_lending,
};
use crate::model::{initial, Model, Pick};

verus! {

/// One step of a translator.
pub enum Step {
    /// The host `addr` is registered and paired with the external address
    /// at `index`.
    Register { addr: u32, index: usize },
    /// The host `addr` is removed from the registry.
    Remove { addr: u32 },
    /// A packet comes from the outside.
    Inbound { src_addr: u32, src_port: u16, dst_addr: u32, dst_port: u16, bypass: bool, now: i64 },
    /// A packet comes from the inside, and `pick` is the external endpoint
    /// selected for it if one has to be.
    Outbound { src_addr: u32, src_port: u16, dst_addr: u32, dst_port: u16, now: i64, pick: Pick },
}

impl Model {
    /// The step is one that a translator in this state can take: a host is
    /// registered with an address of the internal range and an external
    /// address that exists, and an external endpoint selected for a packet
    /// is one that the selection rules allow.
    pub open spec fn can_take(self, step: Step) -> bool {
        match step {
            Step::Register { addr, index } => self.is_internal(addr) && index
                < self.addresses.len(),
            Step::Remove { addr } => true,
            Step::Inbound { .. } => true,
            Step::Outbound { src_addr, src_port, dst_addr, dst_port, now, pick } => self.allows(
                src_addr,
                src_port,
                dst_addr,
                dst_port,
                now,
                pick,
            ),
        }
    }

    /// The state after the step.
    pub open spec fn took(self, step: Step) -> Model {
        match step {
            Step::Register { addr, index } => self.registered(addr, index),
            Step::Remove { addr } => self.unregistered(addr),
            Step::Inbound { src_addr, src_port, dst_addr, dst_port, bypass, now } => self.inbound(
                src_addr,
                src_port,
                dst_addr,
                dst_port,
                bypass,
                now,
            ).0,
            Step::Outbound { src_addr, src_port, dst_addr, dst_port, now, pick } => self.outbound(
                src_addr,
                src_port,
                dst_addr,
                dst_port,
                now,
                pick,
            ).0,
        }
    }

    /// The state after the steps, taken in order.
    pub open spec fn ran(self, steps: Seq<Step>) -> Model
        decreases steps.len(),
    {
        if steps.len() == 0 {
            self
        } else {
            self.ran(steps.drop_last()).took(steps.last())
        }
    }

    /// Each of the steps is one that the translator can take when its turn
    /// comes.
    pub open spec fn can_run(self, steps: Seq<Step>) -> bool
        decreases steps.len(),
    {
        if steps.len() == 0 {
            true
        } else {
            self.can_run(steps.drop_last()) && self.ran(steps.drop_last()).can_take(steps.last())
        }
    }

    /// What holds in every state that a translator can reach, given its
    /// flags: the state is well-formed; the rows of each port of a table
    /// have one owner, unless ports are overloaded; no port of a table has
    /// more than one row, where moreover mapping depends on address and
    /// port; each internal endpoint has one external endpoint, where mapping
    /// is endpoint-independent; and every external port has the parity of
    /// its internal port, where ports are always drawn and parity is kept.
    pub open spec fn sound(self) -> bool {
        &&& self.wf()
        &&& !self.overloads() ==> self.ports_exclusive()
        &&& !self.overloads() && self.endpoint_dependent() ==> self.ports_unique()
        &&& self.endpoint_independent() ==> self.one_endpoint_each()
        &&& is_set(self.flags, NO_PORT_PRESERVATION) && !is_set(self.flags, NO_PORT_PARITY)
            ==> self.parity_kept()
    }
}

/// A new translator is in a sound state.
pub proof fn law_sound_at_start(
    addresses: Seq<u32>,
    internal_first: u32,
    internal_last: u32,
    port_first: u16,
    port_last: u16,
    timeout: i64,
    flags: u32,
)
    requires
        1 <= addresses.len() <= usize::MAX,
        internal_first <= internal_last,
        port_first <= port_last,
    ensures
        initial(
            addresses,
            internal_first,
            internal_last,
            port_first,
            port_last,
            timeout,
            flags,
        ).sound(),
{
    law_wf_at_start(
        addresses,
        internal_first,
        internal_last,
        port_first,
        port_last,
        timeout,
        flags,
    );
    law_ports_unique_at_start(
        addresses,
        internal_first,
        internal_last,
        port_first,
        port_last,
        timeout,
        flags,
    );
}

/// A step that a translator can take leaves a sound state sound, and
/// changes nothing of the configuration.
pub proof fn law_sound_step(m: Model, step: Step)
    requires
        m.sound(),
        m.can_take(step),
    ensures
        m.took(step).sound(),
        m.took(step).flags == m.flags,
        m.took(step).addresses == m.addresses,
        m.took(step).timeout == m.timeout,
{
    match step {
        Step::Register { addr, index } => {
            law_wf_registry(m, addr, index);
        },
        Step::Remove { addr } => {
            law_wf_registry(m, addr, 0);
        },
        Step::Inbound { src_addr, src_port, dst_addr, dst_port, bypass, now } => {
            law_wf_inbound(m, src_addr, src_port, dst_addr, dst_port, bypass, now);
            crate::steps::lemma_inbound_thinned(
                m,
                src_addr,
                src_port,
                dst_addr,
                dst_port,
                bypass,
                now,
            );
            if !m.overloads() {
                law_ports_exclusive_inbound(m, src_addr, src_port, dst_addr, dst_port, bypass, now);
                if m.endpoint_dependent() {
                    law_ports_unique_inbound(m, src_addr, src_port, dst_addr, dst_port, bypass, now);
                }
            }
            if m.endpoint_independent() {
                law_one_endpoint_inbound(m, src_addr, src_port, dst_addr, dst_port, bypass, now);
            }
            if is_set(m.flags, NO_PORT_PRESERVATION) && !is_set(m.flags, NO_PORT_PARITY) {
                law_parity_inbound(m, src_addr, src_port, dst_addr, dst_port, bypass, now);
            }
        },
        Step::Outbound { src_addr, src_port, dst_addr, dst_port, now, pick } => {
            law_wf_outbound(m, src_addr, src_port, dst_addr, dst_port, now, pick);
            crate::steps::lemma_outbound_unfold(m, src_addr, src_port, dst_addr, dst_port, now, pick);
            if m.passes(src_addr, dst_addr) {
                crate::steps::lemma_exit_in_range(
                    m,
                    src_addr,
                    src_port,
                    dst_addr,
                    dst_port,
                    now,
                    pick,
                );
                crate::steps::lemma_hairpin_thinned(
                    m.installed(src_addr, src_port, dst_addr, dst_port, now, pick),
                    src_addr,
                    src_port,
                    m.addresses[m.exit(src_addr, src_port, dst_addr, dst_port, now, pick).index as int],
                    m.exit(src_addr, src_port, dst_addr, dst_port, now, pick).port,
                    dst_addr,
                    dst_port,
                    now,
                );
            }
            if !m.overloads() {
                law_ports_exclusive_outbound(m, src_addr, src_port, dst_addr, dst_port, now, pick);
                if m.endpoint_dependent() {
                    lemma_no_lending(m, src_addr, src_port, dst_addr, dst_port, now);
                    law_ports_unique_outbound(m, src_addr, src_port, dst_addr, dst_port, now, pick);
                }
            }
            if m.endpoint_independent() {
                law_one_endpoint_outbound(m, src_addr, src_port, dst_addr, dst_port, now, pick);
            }
            if is_set(m.flags, NO_PORT_PRESERVATION) && !is_set(m.flags, NO_PORT_PARITY) {
                law_parity(m, src_addr, src_port, dst_addr, dst_port, now, pick);
            }
        },
    }
}

/// Soundness is an invariant: it holds after any steps that a translator
/// can take from a sound state, and so in every state that a new
/// translator can reach.
pub proof fn law_sound_always(m: Model, steps: Seq<Step>)
    requires
        m.sound(),
        m.can_run(steps),
    ensures
        m.ran(steps).sound(),
        m.ran(steps).flags == m.flags,
        m.ran(steps).addresses == m.addresses,
        m.ran(steps).timeout == m.timeout,
    decreases steps.len(),
{
    if steps.len() > 0 {
        law_sound_always(m, steps.drop_last());
        law_sound_step(m.ran(steps.drop_last()), steps.last());
    }
}

} // verus!
