//! What the numbers drawn decide.
//!
//! A stream gives the numbers that a source of random numbers gives out, by
//! their place in the order of the draws. The functions here say which
//! address, which order of the tables and which external endpoint the
//! numbers of a stream select from a given place on, and at which place the
//! selection ends. A 32-bit number stands in a stream with its value.

use vstd::prelude::*;
use crate::binding::port_free;
use crate::draws::{
    ascending, spec_address_for, spec_first_free_port, spec_port_for, spec_shuffled, spec_slot_for,
    MAX_DRAWS,
};
use crate::flags::{is_set, NO_PORT_PRESERVATION};
use crate::model::{Model, Pick, Resolution};
use crate::router::DestType;

verus! {

/// The stream gives the numbers of `drawn` at their places.
pub open spec fn begins_with(s: spec_fn(int) -> u64, drawn: Seq<u64>) -> bool {
    forall|i: int| 0 <= i < drawn.len() ==> s(i) == #[trigger] drawn[i]
}

/// A stream that gives the numbers of `drawn` at their places.
pub open spec fn stream_of(drawn: Seq<u64>) -> spec_fn(int) -> u64 {
    |i: int|
        if 0 <= i < drawn.len() {
            drawn[i]
        } else {
            0
        }
}

/// The address selected for a new host from place `at` on, and the place
/// after the selection: the first address drawn that is not registered, or
/// after `tries` draws in vain the lowest unregistered address of the
/// range.
pub open spec fn spec_drawn_address(m: Model, s: spec_fn(int) -> u64, at: int, tries: nat) -> (
    int,
    u32,
)
    decreases tries,
{
    let addr = spec_address_for(s(at), m.internal_first, m.internal_last);
    if !m.registry.contains_key(addr) {
        (at + 1, addr)
    } else if tries <= 1 {
        (at + 1, m.first_unregistered())
    } else {
        spec_drawn_address(m, s, at + 1, (tries - 1) as nat)
    }
}

/// What the registration of a new host leaves, the place after it, and the
/// host's address. The host's address is drawn first, then the index of
/// its paired external address; a translator built for a `lone` external
/// address draws no index.
pub open spec fn spec_assign(m: Model, s: spec_fn(int) -> u64, at: int, lone: bool) -> (
    Model,
    int,
    u32,
) {
    let (then, addr) = spec_drawn_address(m, s, at, MAX_DRAWS as nat);
    if lone {
        (m.registered(addr, 0), then, addr)
    } else {
        (
            m.registered(addr, spec_slot_for(s(then), m.addresses.len() as usize)),
            then + 1,
            addr,
        )
    }
}

/// The order in which port preservation tries the tables, and the place
/// after it: the paired table alone, or all tables shuffled with one draw
/// for each but one.
pub open spec fn spec_order(m: Model, s: spec_fn(int) -> u64, at: int, paired: Option<usize>) -> (
    int,
    Seq<usize>,
) {
    match paired {
        Some(p) => (at, seq![p]),
        None => {
            let count = m.tables.len() - 1;
            (
                at + count,
                spec_shuffled(
                    ascending(m.tables.len() as usize),
                    Seq::new(count as nat, |i: int| s(at + i)),
                    0,
                ),
            )
        },
    }
}

/// The external endpoint drawn for a new binding from place `at` on, and
/// the place after it: the first pair of table and port drawn whose port is
/// free on its table, or after `tries` draws in vain the first free
/// candidate, in ascending order, on the table drawn last. The table is
/// the paired one where there is one, and the only one where the
/// translator is built for a `lone` external address; otherwise it is drawn
/// before the port.
pub open spec fn spec_drawn_pick(
    m: Model,
    s: spec_fn(int) -> u64,
    at: int,
    paired: Option<usize>,
    src_port: u16,
    tries: nat,
    lone: bool,
) -> (int, Pick)
    decreases tries,
{
    let (at_port, index) = match paired {
        Some(p) => (at, p),
        None => if lone {
            (at, 0usize)
        } else {
            (at + 1, spec_slot_for(s(at), m.tables.len() as usize))
        },
    };
    let port = spec_port_for(s(at_port), m.port_first, m.port_last, src_port, m.flags);
    if port_free(m.tables[index as int], port) {
        (at_port + 1, Pick { index, port, shared: false })
    } else if tries <= 1 {
        (
            at_port + 1,
            Pick {
                index,
                port: spec_first_free_port(
                    m.tables[index as int],
                    m.port_first,
                    m.port_last,
                    src_port,
                    m.flags,
                ),
                shared: false,
            },
        )
    } else {
        spec_drawn_pick(m, s, at_port + 1, paired, src_port, (tries - 1) as nat, lone)
    }
}

/// The external endpoint selected for a new binding from place `at` on,
/// and the place after the selection: what port preservation selects, and
/// where it is off or selects nothing, what is drawn.
pub open spec fn spec_select(
    m: Model,
    s: spec_fn(int) -> u64,
    at: int,
    paired: Option<usize>,
    src_port: u16,
    lone: bool,
) -> (int, Pick) {
    if !is_set(m.flags, NO_PORT_PRESERVATION) {
        let (then, order) = spec_order(m, s, at, paired);
        match m.preserved(order, src_port) {
            Some(pick) => (then, pick),
            None => spec_drawn_pick(m, s, then, paired, src_port, MAX_DRAWS as nat, lone),
        }
    } else {
        spec_drawn_pick(m, s, at, paired, src_port, MAX_DRAWS as nat, lone)
    }
}

/// What a packet from the inside leaves, the place after it, and where the
/// packet goes, with the numbers of the stream from place `at` on.
pub open spec fn spec_outbound(
    m: Model,
    s: spec_fn(int) -> u64,
    at: int,
    src_addr: u32,
    src_port: u16,
    dst_addr: u32,
    dst_port: u16,
    now: i64,
    lone: bool,
) -> (Model, int, DestType) {
    match m.resolved(src_addr, src_port, dst_addr, dst_port, now) {
        (after, Resolution::Settled(dest)) => (after, at, dest),
        (searched, Resolution::Open(paired)) => {
            let (then, pick) = spec_select(searched, s, at, paired, src_port, lone);
            let (after, dest) = searched.completed(
                pick,
                src_addr,
                src_port,
                dst_addr,
                dst_port,
                now,
            );
            (after, then, dest)
        },
    }
}

} // verus!
