//! From random draws to addresses, table indices and ports.
//!
//! The functions here take the numbers that a generator gave out and say
//! what they select. None of them draws a number itself.

use vstd::prelude::*;
use vstd::set_lib::{lemma_int_range, lemma_len_subset, set_int_range};
use crate::binding::{port_free, port_is_free, Binding};
use crate::flags::{has_flag, is_set, NO_PORT_PARITY};

verus! {

/// How many times a random search draws before it falls back on a scan of
/// the range in ascending order.
pub const MAX_DRAWS: u32 = 4096;

/// The address of the range `first..=last` that a draw selects.
pub open spec fn spec_address_for(draw: u64, first: u32, last: u32) -> u32 {
    (first + draw % ((last - first + 1) as u64)) as u32
}

/// Maps a draw onto the address range `first..=last`.
pub fn address_for(draw: u64, first: u32, last: u32) -> (addr: u32)
    requires
        first <= last,
    ensures
        addr == spec_address_for(draw, first, last),
        first <= addr <= last,
{
    let span: u64 = (last - first) as u64 + 1;
    let offset: u64 = draw % span;
    (first as u64 + offset) as u32
}

/// The index below `len` that a draw selects.
pub open spec fn spec_slot_for(draw: u64, len: usize) -> usize {
    (draw % (len as u64)) as usize
}

/// Maps a draw onto the indices below `len`.
pub fn slot_for(draw: u64, len: usize) -> (slot: usize)
    requires
        len > 0,
    ensures
        slot == spec_slot_for(draw, len),
        slot < len,
{
    (draw % (len as u64)) as usize
}

/// The port with its lowest bit replaced by that of `src_port`, unless
/// `NO_PORT_PARITY` is set.
pub open spec fn with_parity(port: u16, src_port: u16, flags: u32) -> u16 {
    if is_set(flags, NO_PORT_PARITY) {
        port
    } else {
        (port & !1u16) | (src_port & 1u16)
    }
}

/// Gives a port the parity of `src_port`, unless `NO_PORT_PARITY` is set.
pub fn match_parity(port: u16, src_port: u16, flags: u32) -> (out: u16)
    ensures
        out == with_parity(port, src_port, flags),
{
    if has_flag(flags, NO_PORT_PARITY) {
        port
    } else {
        (port & !1u16) | (src_port & 1u16)
    }
}

/// The external port that a draw selects for a sender on `src_port`: the
/// draw's place in `first..=last`, with the sender's parity where parity is
/// kept.
pub open spec fn spec_port_for(draw: u64, first: u16, last: u16, src_port: u16, flags: u32) -> u16 {
    with_parity((first + draw % ((last - first + 1) as u64)) as u16, src_port, flags)
}

/// Maps a draw onto the port range `first..=last` and applies the parity
/// rule.
pub fn port_for(draw: u64, first: u16, last: u16, src_port: u16, flags: u32) -> (port: u16)
    requires
        first <= last,
    ensures
        port == spec_port_for(draw, first, last, src_port, flags),
        is_candidate(port, first, last, src_port, flags),
{
    let span: u64 = (last - first) as u64 + 1;
    let offset: u64 = draw % span;
    let raw: u16 = (first as u64 + offset) as u16;
    match_parity(raw, src_port, flags)
}

/// `port` is one that a draw can select: a port of `first..=last` after the
/// parity rule.
pub open spec fn is_candidate(port: u16, first: u16, last: u16, src_port: u16, flags: u32) -> bool {
    exists|raw: u16| first <= raw <= last && port == #[trigger] with_parity(raw, src_port, flags)
}

/// The parity rule leaves a port at its place or moves it to its neighbour:
/// the half of the port stays.
pub proof fn lemma_parity_keeps_half(port: u16, src_port: u16, flags: u32)
    ensures
        with_parity(port, src_port, flags) / 2 == port / 2,
        !is_set(flags, NO_PORT_PARITY) ==> with_parity(port, src_port, flags) % 2 == src_port % 2,
{
    assert(((port & !1u16) | (src_port & 1u16)) / 2 == port / 2) by (bit_vector);
    assert(((port & !1u16) | (src_port & 1u16)) % 2 == src_port % 2) by (bit_vector);
}

/// `raw` is the first port of `first..=last` whose candidate is free in the
/// table.
pub open spec fn is_first_free(
    t: Seq<Binding>,
    first: u16,
    last: u16,
    src_port: u16,
    flags: u32,
    raw: int,
) -> bool {
    &&& first <= raw <= last
    &&& port_free(t, with_parity(raw as u16, src_port, flags))
    &&& forall|q: int|
        first <= q < raw ==> !port_free(t, #[trigger] with_parity(q as u16, src_port, flags))
}

/// The candidate of the first port of `first..=last` whose candidate is free
/// in the table.
pub open spec fn spec_first_free_port(
    t: Seq<Binding>,
    first: u16,
    last: u16,
    src_port: u16,
    flags: u32,
) -> u16 {
    with_parity(
        (choose|raw: int| is_first_free(t, first, last, src_port, flags, raw)) as u16,
        src_port,
        flags,
    )
}

/// The first port whose candidate is free is unique.
proof fn lemma_first_free_is(
    t: Seq<Binding>,
    first: u16,
    last: u16,
    src_port: u16,
    flags: u32,
    raw: int,
)
    requires
        is_first_free(t, first, last, src_port, flags, raw),
    ensures
        spec_first_free_port(t, first, last, src_port, flags) == with_parity(
            raw as u16,
            src_port,
            flags,
        ),
{
    let c = choose|c: int| is_first_free(t, first, last, src_port, flags, c);
    assert(is_first_free(t, first, last, src_port, flags, c));
    if c < raw {
        assert(!port_free(t, with_parity(c as u16, src_port, flags)));
    } else if raw < c {
        assert(!port_free(t, with_parity(raw as u16, src_port, flags)));
    }
}

/// A table with fewer rows than the range has port pairs leaves some
/// candidate free.
proof fn lemma_some_candidate_free(
    t: Seq<Binding>,
    first: u16,
    last: u16,
    src_port: u16,
    flags: u32,
)
    requires
        first <= last,
        t.len() < last / 2 - first / 2 + 1,
    ensures
        exists|q: int|
            first <= q <= last && port_free(t, #[trigger] with_parity(q as u16, src_port, flags)),
{
    if forall|q: int|
        first <= q <= last ==> !port_free(t, #[trigger] with_parity(q as u16, src_port, flags)) {
        let halves = t.map_values(|b: Binding| b.external_port as int / 2);
        let pairs = set_int_range(first as int / 2, last as int / 2 + 1);
        lemma_int_range(first as int / 2, last as int / 2 + 1);
        halves.lemma_cardinality_of_set();
        assert(halves.to_set().finite()) by {
            broadcast use vstd::seq_lib::seq_to_set_is_finite;

        }
        assert forall|k: int| pairs.contains(k) implies halves.to_set().contains(k) by {
            let q: int = if 2 * k >= first {
                2 * k
            } else {
                first as int
            };
            assert(first <= q <= last);
            assert(q / 2 == k);
            let c = with_parity(q as u16, src_port, flags);
            lemma_parity_keeps_half(q as u16, src_port, flags);
            assert(!port_free(t, c));
            let i = choose|i: int| 0 <= i < t.len() && !((#[trigger] t[i]).external_port != c);
            assert(halves[i] == k);
            assert(halves.contains(k));
        }
        assert(pairs.subset_of(halves.to_set()));
        lemma_len_subset(pairs, halves.to_set());
    }
}

/// Scans `first..=last` in ascending order for the first port whose
/// candidate is free in the table.
///
/// The table must have fewer rows than the range has port pairs, so that a
/// free candidate exists.
pub fn first_free_port(
    table: &Vec<Binding>,
    first: u16,
    last: u16,
    src_port: u16,
    flags: u32,
) -> (port: u16)
    requires
        first <= last,
        table.len() < last / 2 - first / 2 + 1,
    ensures
        port == spec_first_free_port(table@, first, last, src_port, flags),
        port_free(table@, port),
        is_candidate(port, first, last, src_port, flags),
{
    let mut raw: u32 = first as u32;
    while raw <= last as u32
        invariant
            first <= raw <= last + 1,
            forall|q: int|
                first <= q < raw ==> !port_free(
                    table@,
                    #[trigger] with_parity(q as u16, src_port, flags),
                ),
        decreases last + 1 - raw,
    {
        let port = match_parity(raw as u16, src_port, flags);
        if port_is_free(table, port) {
            proof {
                lemma_first_free_is(table@, first, last, src_port, flags, raw as int);
            }
            return port;
        }
        raw += 1;
    }
    proof {
        lemma_some_candidate_free(table@, first, last, src_port, flags);
    }
    first
}

/// The indices below `len` in ascending order.
pub open spec fn ascending(len: usize) -> Seq<usize> {
    Seq::new(len as nat, |i: int| i as usize)
}

/// The sequence with the entries at `i` and `j` exchanged.
pub open spec fn swapped(s: Seq<usize>, i: int, j: int) -> Seq<usize> {
    s.update(i, s[j]).update(j, s[i])
}

/// The order that the draws from `done` on make of `order`: from the last
/// place down to the second, each place is exchanged with one that its draw
/// selects among the places up to it.
pub open spec fn spec_shuffled(order: Seq<usize>, draws: Seq<u64>, done: int) -> Seq<usize>
    decreases draws.len() - done,
{
    if done < 0 || done >= draws.len() || done >= order.len() - 1 {
        order
    } else {
        let i = order.len() - 1 - done;
        let j = spec_slot_for(draws[done], (i + 1) as usize) as int;
        spec_shuffled(swapped(order, i, j), draws, done + 1)
    }
}

/// `order` holds each index below `len` and nothing else.
pub open spec fn arranges(order: Seq<usize>, len: usize) -> bool {
    &&& order.len() == len
    &&& forall|k: int| 0 <= k < order.len() ==> #[trigger] order[k] < len
    &&& forall|v: usize| v < len ==> #[trigger] order.contains(v)
}

/// An exchange of two places keeps what an order holds.
proof fn lemma_swapped_arranges(order: Seq<usize>, len: usize, i: int, j: int)
    requires
        arranges(order, len),
        0 <= i < len,
        0 <= j < len,
    ensures
        arranges(swapped(order, i, j), len),
{
    let after = swapped(order, i, j);
    assert forall|v: usize| v < len implies #[trigger] after.contains(v) by {
        assert(order.contains(v));
        let k = choose|k: int| 0 <= k < order.len() && order[k] == v;
        if k == i {
            assert(after[j] == v);
        } else if k == j {
            assert(after[i] == v);
        } else {
            assert(after[k] == v);
        }
    }
}

/// Shuffles the indices below `len` with `len - 1` draws.
pub fn shuffled(len: usize, draws: &Vec<u64>) -> (order: Vec<usize>)
    requires
        len >= 1,
        draws.len() == len - 1,
    ensures
        order@ == spec_shuffled(ascending(len), draws@, 0),
        arranges(order@, len),
{
    let mut order: Vec<usize> = Vec::new();
    let mut n: usize = 0;
    while n < len
        invariant
            n <= len,
            order@ == ascending(n),
        decreases len - n,
    {
        order.push(n);
        n += 1;
        assert(order@ =~= ascending(n));
    }
    proof {
        assert forall|v: usize| v < len implies #[trigger] order@.contains(v) by {
            assert(order@[v as int] == v);
        }
    }
    let mut done: usize = 0;
    while done < len - 1
        invariant
            len >= 1,
            done <= len - 1,
            draws.len() == len - 1,
            arranges(order@, len),
            spec_shuffled(order@, draws@, done as int) == spec_shuffled(
                ascending(len),
                draws@,
                0,
            ),
        decreases len - 1 - done,
    {
        let i: usize = len - 1 - done;
        let j: usize = slot_for(draws[done], i + 1);
        let at_i: usize = order[i];
        let at_j: usize = order[j];
        let ghost before = order@;
        proof {
            lemma_swapped_arranges(before, len, i as int, j as int);
        }
        order[i] = at_j;
        order[j] = at_i;
        assert(order@ =~= swapped(before, i as int, j as int));
        done += 1;
    }
    order
}

} // verus!
