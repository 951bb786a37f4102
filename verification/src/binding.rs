//! Bindings and the tables that hold them.
//!
//! A binding ties an internal endpoint to a port on one external address and
//! remembers the remote endpoint it last sent to. A table holds the bindings
//! of one external address, oldest insertion first. Everything here works on
//! one table at a time and draws no random numbers.

use vstd::prelude::*;
use crate::flags::{
    has_flag, is_set, ADDRESS_DEPENDENT_FILTERING, ADDRESS_DEPENDENT_MAPPING,
    FILTERED_INBOUND_DESTROYS_MAPPING, INBOUND_REFRESH_BEHAVIOR_FALSE,
    OUTBOUND_REFRESH_BEHAVIOR_FALSE, PORT_DEPENDENT_FILTERING, PORT_DEPENDENT_MAPPING,
};
use crate::search::{
    first_where, last_where, lemma_first_where, lemma_first_where_is, lemma_first_where_none,
    lemma_last_where_is, lemma_last_where_none, position,
};

verus! {

/// One row of a binding table.
#[derive(Clone, Copy, Debug, PartialEq, Eq, Structural)]
pub struct Binding {
    /// Address of the internal endpoint that owns the binding.
    pub internal_addr: u32,
    /// Port of the internal endpoint that owns the binding.
    pub internal_port: u16,
    /// Port advertised on the external address.
    pub external_port: u16,
    /// Address of the remote endpoint last sent to.
    pub remote_addr: u32,
    /// Port of the remote endpoint last sent to.
    pub remote_port: u16,
    /// Time of the last refresh.
    pub last_used_time: i64,
}

/// What a table offers to an outbound packet.
#[derive(Clone, Copy, Debug, PartialEq, Eq, Structural)]
pub enum Reuse {
    /// A live binding of the sender to this very destination, on this port.
    Exact(u16),
    /// A live binding of the sender that the mapping rules let it use for
    /// this destination too, on this port.
    Preferred(u16),
    /// No live binding of the sender can serve.
    Nothing,
}

/// A binding is live at `now` while no more than `timeout` has passed since
/// its last refresh.
pub open spec fn is_live(b: Binding, now: i64, timeout: i64) -> bool {
    now - b.last_used_time <= timeout
}

/// The test "is live at `now`".
pub open spec fn live_test(now: i64, timeout: i64) -> spec_fn(Binding) -> bool {
    |b: Binding| is_live(b, now, timeout)
}

/// The test "is not on `port`".
pub open spec fn off_port_test(port: u16) -> spec_fn(Binding) -> bool {
    |b: Binding| b.external_port != port
}

/// The live rows of a table, in order.
pub open spec fn live_rows(t: Seq<Binding>, now: i64, timeout: i64) -> Seq<Binding> {
    t.filter(live_test(now, timeout))
}

/// The rows of a table that are not on `port`, in order.
pub open spec fn without_port(t: Seq<Binding>, port: u16) -> Seq<Binding> {
    t.filter(off_port_test(port))
}

/// No row of the table is on `port`.
pub open spec fn port_free(t: Seq<Binding>, port: u16) -> bool {
    forall|k: int| 0 <= k < t.len() ==> (#[trigger] t[k]).external_port != port
}

/// The binding with its time of last use set to `now`.
pub open spec fn refreshed(b: Binding, now: i64) -> Binding {
    Binding { last_used_time: now, ..b }
}

/// The filter lets a packet from `(src_addr, src_port)` to `dst_port`
/// through to the binding: the binding is on that port and, unless the
/// filter is bypassed, the sender is the remote endpoint that the filtering
/// flags ask for.
pub open spec fn admits(
    b: Binding,
    src_addr: u32,
    src_port: u16,
    dst_port: u16,
    bypass: bool,
    flags: u32,
) -> bool {
    &&& b.external_port == dst_port
    &&& bypass || {
        &&& !is_set(flags, ADDRESS_DEPENDENT_FILTERING) || b.remote_addr == src_addr
        &&& !is_set(flags, PORT_DEPENDENT_FILTERING) || b.remote_port == src_port
    }
}

/// The test "admits this inbound packet".
pub open spec fn admit_test(
    src_addr: u32,
    src_port: u16,
    dst_port: u16,
    bypass: bool,
    flags: u32,
) -> spec_fn(Binding) -> bool {
    |b: Binding| admits(b, src_addr, src_port, dst_port, bypass, flags)
}

/// The binding belongs to the internal endpoint `(src_addr, src_port)`.
pub open spec fn owned_by(b: Binding, src_addr: u32, src_port: u16) -> bool {
    b.internal_addr == src_addr && b.internal_port == src_port
}

/// The binding belongs to the sender and last sent to this destination.
pub open spec fn is_exact(
    b: Binding,
    src_addr: u32,
    src_port: u16,
    dst_addr: u32,
    dst_port: u16,
) -> bool {
    &&& owned_by(b, src_addr, src_port)
    &&& b.remote_addr == dst_addr
    &&& b.remote_port == dst_port
}

/// The binding belongs to the sender, and the mapping flags let it serve
/// this destination: each dependence that is set asks for a match.
pub open spec fn qualifies(
    b: Binding,
    src_addr: u32,
    src_port: u16,
    dst_addr: u32,
    dst_port: u16,
    flags: u32,
) -> bool {
    &&& owned_by(b, src_addr, src_port)
    &&& !is_set(flags, ADDRESS_DEPENDENT_MAPPING) || b.remote_addr == dst_addr
    &&& !is_set(flags, PORT_DEPENDENT_MAPPING) || b.remote_port == dst_port
}

/// The test "is an exact binding for this outbound packet".
pub open spec fn exact_test(
    src_addr: u32,
    src_port: u16,
    dst_addr: u32,
    dst_port: u16,
) -> spec_fn(Binding) -> bool {
    |b: Binding| is_exact(b, src_addr, src_port, dst_addr, dst_port)
}

/// The test "qualifies for this outbound packet".
pub open spec fn qualify_test(
    src_addr: u32,
    src_port: u16,
    dst_addr: u32,
    dst_port: u16,
    flags: u32,
) -> spec_fn(Binding) -> bool {
    |b: Binding| qualifies(b, src_addr, src_port, dst_addr, dst_port, flags)
}

/// `k` is the row to evict: none is older, and of the rows of its age it is
/// the last.
pub open spec fn is_oldest(t: Seq<Binding>, k: int) -> bool {
    &&& 0 <= k < t.len()
    &&& forall|j: int| 0 <= j < t.len() ==> t[k].last_used_time <= (#[trigger] t[j]).last_used_time
    &&& forall|j: int| k < j < t.len() ==> t[k].last_used_time < (#[trigger] t[j]).last_used_time
}

/// The index of the row to evict from a table that is not empty.
pub open spec fn oldest(t: Seq<Binding>) -> int {
    choose|k: int| is_oldest(t, k)
}

/// The table after making room: where it holds `max_len` rows or more, and
/// at least one, the oldest row leaves.
pub open spec fn trimmed(t: Seq<Binding>, max_len: usize) -> Seq<Binding> {
    if t.len() > 0 && t.len() >= max_len {
        t.remove(oldest(t))
    } else {
        t
    }
}

/// The row to evict is unique.
pub proof fn lemma_oldest_is(t: Seq<Binding>, k: int)
    requires
        is_oldest(t, k),
    ensures
        oldest(t) == k,
{
    let c = oldest(t);
    assert(is_oldest(t, c));
    if c < k {
        assert(t[c].last_used_time < t[k].last_used_time);
        assert(t[k].last_used_time <= t[c].last_used_time);
    } else if k < c {
        assert(t[k].last_used_time < t[c].last_used_time);
        assert(t[c].last_used_time <= t[k].last_used_time);
    }
}

/// What an inbound packet does to a table, and where it is delivered.
///
/// Expired rows leave first. The first live row that admits the packet
/// receives it and is refreshed, unless `INBOUND_REFRESH_BEHAVIOR_FALSE` is
/// set. Where no row admits it, nothing is delivered, and with
/// `FILTERED_INBOUND_DESTROYS_MAPPING` every row on the port leaves.
pub open spec fn spec_inbound_scan(
    t: Seq<Binding>,
    src_addr: u32,
    src_port: u16,
    dst_port: u16,
    bypass: bool,
    now: i64,
    timeout: i64,
    flags: u32,
) -> (Seq<Binding>, Option<(u32, u16)>) {
    let live = live_rows(t, now, timeout);
    match first_where(live, admit_test(src_addr, src_port, dst_port, bypass, flags)) {
        Some(k) => (
            if is_set(flags, INBOUND_REFRESH_BEHAVIOR_FALSE) {
                live
            } else {
                live.update(k, refreshed(live[k], now))
            },
            Some((live[k].internal_addr, live[k].internal_port)),
        ),
        None => (
            if is_set(flags, FILTERED_INBOUND_DESTROYS_MAPPING) {
                without_port(live, dst_port)
            } else {
                live
            },
            None,
        ),
    }
}

/// What an outbound packet finds in a table, and what the search leaves.
///
/// Expired rows leave first. The first live exact row serves and is
/// refreshed, unless `OUTBOUND_REFRESH_BEHAVIOR_FALSE` is set; nothing else
/// changes then. Otherwise the last live row that qualifies is offered, and
/// the table makes room for a row to come.
pub open spec fn spec_outbound_scan(
    t: Seq<Binding>,
    src_addr: u32,
    src_port: u16,
    dst_addr: u32,
    dst_port: u16,
    now: i64,
    timeout: i64,
    flags: u32,
    max_len: usize,
) -> (Seq<Binding>, Reuse) {
    let live = live_rows(t, now, timeout);
    match first_where(live, exact_test(src_addr, src_port, dst_addr, dst_port)) {
        Some(k) => (
            if is_set(flags, OUTBOUND_REFRESH_BEHAVIOR_FALSE) {
                live
            } else {
                live.update(k, refreshed(live[k], now))
            },
            Reuse::Exact(live[k].external_port),
        ),
        None => (
            trimmed(live, max_len),
            match last_where(live, qualify_test(src_addr, src_port, dst_addr, dst_port, flags)) {
                Some(k) => Reuse::Preferred(live[k].external_port),
                None => Reuse::Nothing,
            },
        ),
    }
}

/// Whether the binding is live at `now`.
pub fn live_at(b: &Binding, now: i64, timeout: i64) -> (live: bool)
    ensures
        live == is_live(*b, now, timeout),
{
    (now as i128) - (b.last_used_time as i128) <= (timeout as i128)
}

/// Removes the expired rows and keeps the others in order.
pub fn sweep(table: &mut Vec<Binding>, now: i64, timeout: i64)
    ensures
        final(table)@ == live_rows(old(table)@, now, timeout),
{
    let mut kept: Vec<Binding> = Vec::new();
    let mut i: usize = 0;
    assert(table@.take(0) =~= Seq::<Binding>::empty());
    assert(live_rows(Seq::<Binding>::empty(), now, timeout) =~= Seq::<Binding>::empty()) by {
        reveal(Seq::filter);
    }
    while i < table.len()
        invariant
            i <= table.len(),
            kept@ == live_rows(table@.take(i as int), now, timeout),
        decreases table.len() - i,
    {
        let b = table[i];
        proof {
            assert(table@.take(i as int + 1) =~= table@.take(i as int).push(b));
            table@.take(i as int).lemma_filter_push(b, live_test(now, timeout));
        }
        if live_at(&b, now, timeout) {
            kept.push(b);
        }
        i += 1;
    }
    assert(table@.take(i as int) =~= table@);
    *table = kept;
}

/// Removes every row on `port` and keeps the others in order.
pub fn purge_port(table: &mut Vec<Binding>, port: u16)
    ensures
        final(table)@ == without_port(old(table)@, port),
{
    let mut kept: Vec<Binding> = Vec::new();
    let mut i: usize = 0;
    assert(table@.take(0) =~= Seq::<Binding>::empty());
    assert(without_port(Seq::<Binding>::empty(), port) =~= Seq::<Binding>::empty()) by {
        reveal(Seq::filter);
    }
    while i < table.len()
        invariant
            i <= table.len(),
            kept@ == without_port(table@.take(i as int), port),
        decreases table.len() - i,
    {
        let b = table[i];
        proof {
            assert(table@.take(i as int + 1) =~= table@.take(i as int).push(b));
            table@.take(i as int).lemma_filter_push(b, off_port_test(port));
        }
        if b.external_port != port {
            kept.push(b);
        }
        i += 1;
    }
    assert(table@.take(i as int) =~= table@);
    *table = kept;
}

/// Whether no row of the table is on `port`.
pub fn port_is_free(table: &Vec<Binding>, port: u16) -> (free: bool)
    ensures
        free == port_free(table@, port),
{
    let mut i: usize = 0;
    while i < table.len()
        invariant
            i <= table.len(),
            forall|k: int| 0 <= k < i ==> (#[trigger] table@[k]).external_port != port,
        decreases table.len() - i,
    {
        if table[i].external_port == port {
            return false;
        }
        i += 1;
    }
    true
}

/// Whether the filter lets the packet through to the binding.
pub fn admits_packet(
    b: &Binding,
    src_addr: u32,
    src_port: u16,
    dst_port: u16,
    bypass: bool,
    flags: u32,
) -> (ok: bool)
    ensures
        ok == admits(*b, src_addr, src_port, dst_port, bypass, flags),
{
    b.external_port == dst_port && (bypass || ((!has_flag(flags, ADDRESS_DEPENDENT_FILTERING)
        || b.remote_addr == src_addr) && (!has_flag(flags, PORT_DEPENDENT_FILTERING)
        || b.remote_port == src_port)))
}

/// Whether the binding belongs to the sender and the mapping flags let it
/// serve this destination.
pub fn qualifies_for(
    b: &Binding,
    src_addr: u32,
    src_port: u16,
    dst_addr: u32,
    dst_port: u16,
    flags: u32,
) -> (ok: bool)
    ensures
        ok == qualifies(*b, src_addr, src_port, dst_addr, dst_port, flags),
{
    b.internal_addr == src_addr && b.internal_port == src_port && (!has_flag(
        flags,
        ADDRESS_DEPENDENT_MAPPING,
    ) || b.remote_addr == dst_addr) && (!has_flag(flags, PORT_DEPENDENT_MAPPING) || b.remote_port
        == dst_port)
}

/// Finds the first row that admits the inbound packet.
pub fn find_admitting(
    table: &Vec<Binding>,
    src_addr: u32,
    src_port: u16,
    dst_port: u16,
    bypass: bool,
    flags: u32,
) -> (found: Option<usize>)
    ensures
        position(found) == first_where(
            table@,
            admit_test(src_addr, src_port, dst_port, bypass, flags),
        ),
{
    let ghost p = admit_test(src_addr, src_port, dst_port, bypass, flags);
    let mut i: usize = 0;
    while i < table.len()
        invariant
            i <= table.len(),
            p == admit_test(src_addr, src_port, dst_port, bypass, flags),
            forall|j: int| 0 <= j < i ==> !p(#[trigger] table@[j]),
        decreases table.len() - i,
    {
        if admits_packet(&table[i], src_addr, src_port, dst_port, bypass, flags) {
            proof {
                lemma_first_where_is(table@, p, i as int);
            }
            return Some(i);
        }
        i += 1;
    }
    proof {
        lemma_first_where_none(table@, p);
    }
    None
}

/// Finds the first row that is an exact binding for the outbound packet.
pub fn find_exact(
    table: &Vec<Binding>,
    src_addr: u32,
    src_port: u16,
    dst_addr: u32,
    dst_port: u16,
) -> (found: Option<usize>)
    ensures
        position(found) == first_where(table@, exact_test(src_addr, src_port, dst_addr, dst_port)),
{
    let ghost p = exact_test(src_addr, src_port, dst_addr, dst_port);
    let mut i: usize = 0;
    while i < table.len()
        invariant
            i <= table.len(),
            p == exact_test(src_addr, src_port, dst_addr, dst_port),
            forall|j: int| 0 <= j < i ==> !p(#[trigger] table@[j]),
        decreases table.len() - i,
    {
        let b = &table[i];
        if b.internal_addr == src_addr && b.internal_port == src_port && b.remote_addr == dst_addr
            && b.remote_port == dst_port {
            proof {
                lemma_first_where_is(table@, p, i as int);
            }
            return Some(i);
        }
        i += 1;
    }
    proof {
        lemma_first_where_none(table@, p);
    }
    None
}

/// Finds the last row that qualifies for the outbound packet.
pub fn find_last_qualifying(
    table: &Vec<Binding>,
    src_addr: u32,
    src_port: u16,
    dst_addr: u32,
    dst_port: u16,
    flags: u32,
) -> (found: Option<usize>)
    ensures
        position(found) == last_where(
            table@,
            qualify_test(src_addr, src_port, dst_addr, dst_port, flags),
        ),
{
    let ghost p = qualify_test(src_addr, src_port, dst_addr, dst_port, flags);
    let mut i: usize = table.len();
    while i > 0
        invariant
            i <= table.len(),
            p == qualify_test(src_addr, src_port, dst_addr, dst_port, flags),
            forall|j: int| i <= j < table.len() ==> !p(#[trigger] table@[j]),
        decreases i,
    {
        i -= 1;
        if qualifies_for(&table[i], src_addr, src_port, dst_addr, dst_port, flags) {
            proof {
                lemma_last_where_is(table@, p, i as int);
            }
            return Some(i);
        }
    }
    proof {
        lemma_last_where_none(table@, p);
    }
    None
}

/// Finds the row to evict from a table that is not empty.
pub fn oldest_index(table: &Vec<Binding>) -> (k: usize)
    requires
        table.len() > 0,
    ensures
        k as int == oldest(table@),
        k < table.len(),
{
    let mut k: usize = 0;
    let mut i: usize = 1;
    while i < table.len()
        invariant
            1 <= i <= table.len(),
            k < i,
            forall|j: int| 0 <= j < i ==> table@[k as int].last_used_time <= (
            #[trigger] table@[j]).last_used_time,
            forall|j: int| k < j < i ==> table@[k as int].last_used_time < (
            #[trigger] table@[j]).last_used_time,
        decreases table.len() - i,
    {
        if table[k].last_used_time >= table[i].last_used_time {
            k = i;
        }
        i += 1;
    }
    proof {
        lemma_oldest_is(table@, k as int);
    }
    k
}

/// Takes an inbound packet through one table.
pub fn inbound_scan(
    table: &mut Vec<Binding>,
    src_addr: u32,
    src_port: u16,
    dst_port: u16,
    bypass: bool,
    now: i64,
    timeout: i64,
    flags: u32,
) -> (target: Option<(u32, u16)>)
    ensures
        (final(table)@, target) == spec_inbound_scan(
            old(table)@,
            src_addr,
            src_port,
            dst_port,
            bypass,
            now,
            timeout,
            flags,
        ),
{
    sweep(table, now, timeout);
    match find_admitting(table, src_addr, src_port, dst_port, bypass, flags) {
        Some(k) => {
            let b = table[k];
            if !has_flag(flags, INBOUND_REFRESH_BEHAVIOR_FALSE) {
                table[k] = Binding { last_used_time: now, ..b };
            }
            Some((b.internal_addr, b.internal_port))
        },
        None => {
            if has_flag(flags, FILTERED_INBOUND_DESTROYS_MAPPING) {
                purge_port(table, dst_port);
            }
            None
        },
    }
}

/// Takes an outbound packet through one table.
pub fn outbound_scan(
    table: &mut Vec<Binding>,
    src_addr: u32,
    src_port: u16,
    dst_addr: u32,
    dst_port: u16,
    now: i64,
    timeout: i64,
    flags: u32,
    max_len: usize,
) -> (reuse: Reuse)
    ensures
        (final(table)@, reuse) == spec_outbound_scan(
            old(table)@,
            src_addr,
            src_port,
            dst_addr,
            dst_port,
            now,
            timeout,
            flags,
            max_len,
        ),
{
    sweep(table, now, timeout);
    match find_exact(table, src_addr, src_port, dst_addr, dst_port) {
        Some(k) => {
            let b = table[k];
            if !has_flag(flags, OUTBOUND_REFRESH_BEHAVIOR_FALSE) {
                table[k] = Binding { last_used_time: now, ..b };
            }
            Reuse::Exact(b.external_port)
        },
        None => {
            let reuse = match find_last_qualifying(
                table,
                src_addr,
                src_port,
                dst_addr,
                dst_port,
                flags,
            ) {
                Some(k) => Reuse::Preferred(table[k].external_port),
                None => Reuse::Nothing,
            };
            if table.len() > 0 && table.len() >= max_len {
                let k = oldest_index(table);
                table.remove(k);
            }
            reuse
        },
    }
}

/// The rows of each table of a list.
pub open spec fn table_views(tables: Seq<Vec<Binding>>) -> Seq<Seq<Binding>> {
    tables.map_values(|t: Vec<Binding>| t@)
}

/// A sweep does not add rows.
pub proof fn lemma_live_rows_len(t: Seq<Binding>, now: i64, timeout: i64)
    ensures
        live_rows(t, now, timeout).len() <= t.len(),
{
    t.lemma_filter_len(live_test(now, timeout));
}

/// Clearing a port does not add rows.
pub proof fn lemma_without_port_len(t: Seq<Binding>, port: u16)
    ensures
        without_port(t, port).len() <= t.len(),
{
    t.lemma_filter_len(off_port_test(port));
}

/// An inbound packet does not add rows to a table.
pub proof fn lemma_inbound_scan_len(
    t: Seq<Binding>,
    src_addr: u32,
    src_port: u16,
    dst_port: u16,
    bypass: bool,
    now: i64,
    timeout: i64,
    flags: u32,
)
    ensures
        spec_inbound_scan(t, src_addr, src_port, dst_port, bypass, now, timeout, flags).0.len()
            <= t.len(),
{
    let live = live_rows(t, now, timeout);
    lemma_live_rows_len(t, now, timeout);
    lemma_without_port_len(live, dst_port);
    lemma_first_where(live, admit_test(src_addr, src_port, dst_port, bypass, flags));
}

/// The search of an outbound packet does not add rows to a table, and a
/// table that offers no exact binding is left with room for one row.
pub proof fn lemma_outbound_scan_len(
    t: Seq<Binding>,
    src_addr: u32,
    src_port: u16,
    dst_addr: u32,
    dst_port: u16,
    now: i64,
    timeout: i64,
    flags: u32,
    max_len: usize,
)
    ensures
        ({
            let (after, reuse) = spec_outbound_scan(
                t,
                src_addr,
                src_port,
                dst_addr,
                dst_port,
                now,
                timeout,
                flags,
                max_len,
            );
            &&& after.len() <= t.len()
            &&& !(reuse is Exact) && (t.len() <= max_len || t.len() <= 1) ==> after.len() < max_len
                || after.len() == 0
        }),
{
    let live = live_rows(t, now, timeout);
    lemma_live_rows_len(t, now, timeout);
    lemma_first_where(live, exact_test(src_addr, src_port, dst_addr, dst_port));
    if live.len() > 0 {
        lemma_oldest_exists(live);
    }
}

/// A table that is not empty has a row to evict.
pub proof fn lemma_oldest_exists(t: Seq<Binding>)
    requires
        t.len() > 0,
    ensures
        is_oldest(t, oldest(t)),
{
    lemma_oldest_upto(t, t.len() as int);
    assert(t.take(t.len() as int) =~= t);
}

/// Every prefix that is not empty has a row to evict.
proof fn lemma_oldest_upto(t: Seq<Binding>, n: int)
    requires
        0 < n <= t.len(),
    ensures
        exists|k: int| is_oldest(t.take(n), k),
    decreases n,
{
    if n == 1 {
        assert(is_oldest(t.take(1), 0));
    } else {
        lemma_oldest_upto(t, n - 1);
        let pre = t.take(n - 1);
        let k = choose|k: int| is_oldest(pre, k);
        let cur = t.take(n);
        assert forall|j: int| 0 <= j < n - 1 implies pre[j] == cur[j] by {}
        if t[k].last_used_time >= t[n - 1].last_used_time {
            assert forall|j: int| 0 <= j < cur.len() implies cur[n - 1].last_used_time <= (
            #[trigger] cur[j]).last_used_time by {
                if j < n - 1 {
                    assert(pre[k].last_used_time <= pre[j].last_used_time);
                }
            }
            assert(is_oldest(cur, n - 1));
        } else {
            assert forall|j: int| 0 <= j < cur.len() implies cur[k].last_used_time <= (
            #[trigger] cur[j]).last_used_time by {
                if j < n - 1 {
                    assert(pre[k].last_used_time <= pre[j].last_used_time);
                }
            }
            assert forall|j: int| k < j < cur.len() implies cur[k].last_used_time < (
            #[trigger] cur[j]).last_used_time by {
                if j < n - 1 {
                    assert(pre[k].last_used_time < pre[j].last_used_time);
                }
            }
            assert(is_oldest(cur, k));
        }
    }
}

} // verus!
