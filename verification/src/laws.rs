//! Laws of the state machine.
//!
//! Each law is a theorem about the functions of `Model`, which specify the
//! executable translators. The invariants among them hold in the state of a
//! new translator and are kept by every step.

use vstd::prelude::*;
use crate::binding::{admit_test, is_exact, is_live, live_rows, owned_by, port_free, Binding};
use crate::chance::{begins_with, spec_assign, spec_outbound, stream_of};
use crate::draws::{is_candidate, lemma_parity_keeps_half};
use crate::facts::{
    lemma_inbound_scan_on_port, lemma_live_rows_contains, lemma_live_rows_none,
    lemma_on_port_cleared, lemma_on_port_push, lemma_on_port_two, lemma_outbound_scan_exact_row,
    lemma_outbound_scan_offer, lemma_outbound_scan_on_port, lemma_outbound_scan_rows,
    lemma_trimmed_contains, on_port, ports_unique, same_binding,
};
use crate::flags::{
    is_set, ADDRESS_DEPENDENT_MAPPING, NO_PORT_PARITY, NO_PORT_PRESERVATION,
    OUTBOUND_REFRESH_BEHAVIOR_FALSE, PORT_DEPENDENT_MAPPING, PORT_PRESERVATION_OVERLOAD,
    PORT_PRESERVATION_OVERRIDE,
};
use crate::model::{address_test, initial, new_binding, Lookup, Model, Pick};
use crate::router::DestType;
use crate::search::{first_where, lemma_first_where, lemma_first_where_is};
use crate::steps::{
    lemma_exit_in_range, lemma_hairpin_external, lemma_hairpin_thinned, lemma_inbound_thinned,
    lemma_lookup_shape, lemma_lookup_thinned, lemma_outbound_unfold, lemma_pairs_thinned,
    lemma_placed_rows, lemma_rows_inbound, lemma_rows_outbound, survives, timeless,
};

verus! {

/// The relation "rows of one table on one port have one owner".
pub open spec fn one_owner() -> spec_fn(int, Binding, int, Binding) -> bool {
    |i: int, a: Binding, j: int, b: Binding|
        i == j && a.external_port == b.external_port ==> owned_by(
            a,
            b.internal_addr,
            b.internal_port,
        )
}

impl Model {
    /// Port preservation may let several bindings share a port.
    pub open spec fn overloads(self) -> bool {
        !is_set(self.flags, NO_PORT_PRESERVATION) && is_set(self.flags, PORT_PRESERVATION_OVERLOAD)
    }

    /// In every table, no port has more than one row.
    pub open spec fn ports_unique(self) -> bool {
        forall|i: int| 0 <= i < self.tables.len() ==> ports_unique(#[trigger] self.tables[i])
    }

    /// In every table, the rows on one port belong to one internal
    /// endpoint.
    pub open spec fn ports_exclusive(self) -> bool {
        self.all_pairs(one_owner())
    }

    /// The outbound packet finds a binding of its sender that lends its
    /// external endpoint to a new binding for this destination.
    pub open spec fn lends(
        self,
        src_addr: u32,
        src_port: u16,
        dst_addr: u32,
        dst_port: u16,
        now: i64,
    ) -> bool {
        &&& self.passes(src_addr, dst_addr)
        &&& self.lookup(src_addr, src_port, dst_addr, dst_port, now).1 is Preferred
    }
}

/// The tables of a new translator are empty, so that no port has a row.
pub proof fn law_ports_unique_at_start(
    addresses: Seq<u32>,
    internal_first: u32,
    internal_last: u32,
    port_first: u16,
    port_last: u16,
    timeout: i64,
    flags: u32,
)
    ensures
        initial(
            addresses,
            internal_first,
            internal_last,
            port_first,
            port_last,
            timeout,
            flags,
        ).ports_unique(),
        initial(
            addresses,
            internal_first,
            internal_last,
            port_first,
            port_last,
            timeout,
            flags,
        ).ports_exclusive(),
{
    let m = initial(
        addresses,
        internal_first,
        internal_last,
        port_first,
        port_last,
        timeout,
        flags,
    );
    assert forall|i: int| 0 <= i < m.tables.len() implies ports_unique(#[trigger] m.tables[i]) by {
        assert forall|port: u16| (#[trigger] on_port(m.tables[i], port)).len() <= 1 by {
            m.tables[i].lemma_filter_len(crate::facts::on_port_test(port));
        }
    }
}

/// The state of a new translator is one that a translator can be in.
pub proof fn law_wf_at_start(
    addresses: Seq<u32>,
    internal_first: u32,
    internal_last: u32,
    port_first: u16,
    port_last: u16,
    timeout: i64,
    flags: u32,
)
    requires
        1 <= addresses.len() <= usize::MAX,
        internal_first <= internal_last,
        port_first <= port_last,
    ensures
        initial(addresses, internal_first, internal_last, port_first, port_last, timeout, flags).wf(),
{
}

/// A host that comes or goes leaves the translator in a state that it can
/// be in: no table grows, and every registered host has an address of the
/// internal range and a paired external address.
pub proof fn law_wf_registry(m: Model, addr: u32, index: usize)
    requires
        m.wf(),
    ensures
        m.is_internal(addr) && index < m.addresses.len() ==> m.registered(addr, index).wf(),
        m.unregistered(addr).wf(),
{
}

/// A packet from the outside leaves the translator in a state that it can
/// be in: no table grows.
pub proof fn law_wf_inbound(
    m: Model,
    src_addr: u32,
    src_port: u16,
    dst_addr: u32,
    dst_port: u16,
    bypass: bool,
    now: i64,
)
    requires
        m.wf(),
    ensures
        m.inbound(src_addr, src_port, dst_addr, dst_port, bypass, now).0.wf(),
{
    lemma_inbound_thinned(m, src_addr, src_port, dst_addr, dst_port, bypass, now);
    lemma_first_where(m.addresses, address_test(dst_addr));
    match m.address_index(dst_addr) {
        Some(k) => {
            crate::binding::lemma_inbound_scan_len(
                m.tables[k],
                src_addr,
                src_port,
                dst_port,
                bypass,
                now,
                m.timeout,
                m.flags,
            );
        },
        None => {},
    }
}

/// After a search that finds no exact binding every table has room for one
/// more row, and after any search no table holds more rows than before.
pub proof fn lemma_lookup_room(
    m: Model,
    src_addr: u32,
    src_port: u16,
    dst_addr: u32,
    dst_port: u16,
    now: i64,
)
    requires
        m.wf(),
    ensures
        ({
            let (searched, found) = m.lookup(src_addr, src_port, dst_addr, dst_port, now);
            &&& searched.wf()
            &&& searched.has_room(found)
        }),
{
    let (searched, found) = m.lookup(src_addr, src_port, dst_addr, dst_port, now);
    lemma_lookup_shape(m, 0, None, src_addr, src_port, dst_addr, dst_port, now);
    assert forall|i: int| 0 <= i < searched.tables.len() implies {
        &&& (#[trigger] searched.tables[i]).len() <= m.capacity()
        &&& !(found is Exact) ==> searched.tables[i].len() < m.capacity()
    } by {
        assert(m.tables[i].len() <= m.capacity());
        crate::binding::lemma_outbound_scan_len(
            m.tables[i],
            src_addr,
            src_port,
            dst_addr,
            dst_port,
            now,
            m.timeout,
            m.flags,
            m.max_table_len(),
        );
        if searched.tables[i] != m.tables[i] || !(found is Exact) {
            assert(searched.tables[i] == m.scan(i, src_addr, src_port, dst_addr, dst_port, now).0);
        }
    }
}

/// A packet from the inside leaves the translator in a state that it can
/// be in: the table that takes a new binding has made room for it.
pub proof fn law_wf_outbound(
    m: Model,
    src_addr: u32,
    src_port: u16,
    dst_addr: u32,
    dst_port: u16,
    now: i64,
    pick: Pick,
)
    requires
        m.wf(),
        m.allows(src_addr, src_port, dst_addr, dst_port, now, pick),
    ensures
        m.outbound(src_addr, src_port, dst_addr, dst_port, now, pick).0.wf(),
{
    lemma_outbound_unfold(m, src_addr, src_port, dst_addr, dst_port, now, pick);
    if m.passes(src_addr, dst_addr) {
        let (searched, found) = m.lookup(src_addr, src_port, dst_addr, dst_port, now);
        let exit = m.exit(src_addr, src_port, dst_addr, dst_port, now, pick);
        let installed = m.installed(src_addr, src_port, dst_addr, dst_port, now, pick);
        lemma_lookup_room(m, src_addr, src_port, dst_addr, dst_port, now);
        lemma_exit_in_range(m, src_addr, src_port, dst_addr, dst_port, now, pick);
        if !(found is Exact) {
            crate::binding::lemma_without_port_len(searched.tables[exit.index as int], exit.port);
            assert forall|i: int| 0 <= i < installed.tables.len() implies (
            #[trigger] installed.tables[i]).len() <= installed.capacity() by {
                assert(searched.tables[i].len() < searched.capacity());
            }
        }
        assert(installed.wf());
        law_wf_inbound(
            installed,
            m.addresses[exit.index as int],
            exit.port,
            dst_addr,
            dst_port,
            true,
            now,
        );
    }
}

/// The registry has no part in the tables: a host that comes or goes leaves
/// every row where it is.
pub proof fn law_registry_keeps_tables(m: Model, addr: u32, index: usize)
    ensures
        m.registered(addr, index).tables == m.tables,
        m.unregistered(addr).tables == m.tables,
{
}

/// A packet from the outside leaves no port with more than one row.
pub proof fn law_ports_unique_inbound(
    m: Model,
    src_addr: u32,
    src_port: u16,
    dst_addr: u32,
    dst_port: u16,
    bypass: bool,
    now: i64,
)
    requires
        m.wf(),
        m.ports_unique(),
    ensures
        m.inbound(src_addr, src_port, dst_addr, dst_port, bypass, now).0.ports_unique(),
{
    lemma_ports_unique_inbound(m, src_addr, src_port, dst_addr, dst_port, bypass, now);
}

/// A packet from the outside leaves no port with more than one row.
proof fn lemma_ports_unique_inbound(
    m: Model,
    src_addr: u32,
    src_port: u16,
    dst_addr: u32,
    dst_port: u16,
    bypass: bool,
    now: i64,
)
    requires
        m.aligned(),
        m.ports_unique(),
    ensures
        m.inbound(src_addr, src_port, dst_addr, dst_port, bypass, now).0.ports_unique(),
{
    let after = m.inbound(src_addr, src_port, dst_addr, dst_port, bypass, now).0;
    lemma_first_where(m.addresses, address_test(dst_addr));
    assert forall|i: int| 0 <= i < after.tables.len() implies ports_unique(
        #[trigger] after.tables[i],
    ) by {
        assert(ports_unique(m.tables[i]));
        assert forall|port: u16| (#[trigger] on_port(after.tables[i], port)).len() <= 1 by {
            assert(on_port(m.tables[i], port).len() <= 1);
            lemma_inbound_scan_on_port(
                m.tables[i],
                src_addr,
                src_port,
                dst_port,
                bypass,
                now,
                m.timeout,
                m.flags,
                port,
            );
        }
    }
}

/// The search for a reusable binding leaves no port with more than one
/// row.
proof fn lemma_ports_unique_lookup(
    m: Model,
    src_addr: u32,
    src_port: u16,
    dst_addr: u32,
    dst_port: u16,
    now: i64,
)
    requires
        m.wf(),
        m.ports_unique(),
    ensures
        m.lookup(src_addr, src_port, dst_addr, dst_port, now).0.ports_unique(),
{
    let after = m.lookup(src_addr, src_port, dst_addr, dst_port, now).0;
    lemma_lookup_shape(m, 0, None, src_addr, src_port, dst_addr, dst_port, now);
    assert forall|i: int| 0 <= i < after.tables.len() implies ports_unique(
        #[trigger] after.tables[i],
    ) by {
        assert(ports_unique(m.tables[i]));
        assert forall|port: u16| (#[trigger] on_port(after.tables[i], port)).len() <= 1 by {
            assert(on_port(m.tables[i], port).len() <= 1);
            lemma_outbound_scan_on_port(
                m.tables[i],
                src_addr,
                src_port,
                dst_addr,
                dst_port,
                now,
                m.timeout,
                m.flags,
                m.max_table_len(),
                port,
            );
            if after.tables[i] != m.tables[i] {
                assert(after.tables[i] == m.scan(i, src_addr, src_port, dst_addr, dst_port, now).0);
            }
        }
    }
}

/// A binding placed on a port that is not shared leaves no port with more
/// than one row.
proof fn lemma_ports_unique_placed(m: Model, pick: Pick, b: Binding)
    requires
        m.ports_unique(),
        pick.index < m.tables.len(),
        !pick.shared,
        b.external_port == pick.port,
    ensures
        m.placed(pick, b).ports_unique(),
{
    let after = m.placed(pick, b);
    assert forall|i: int| 0 <= i < after.tables.len() implies ports_unique(
        #[trigger] after.tables[i],
    ) by {
        assert(ports_unique(m.tables[i]));
        if i == pick.index {
            let cleared = crate::binding::without_port(m.tables[i], pick.port);
            assert forall|port: u16| (#[trigger] on_port(after.tables[i], port)).len() <= 1 by {
                assert(on_port(m.tables[i], port).len() <= 1);
                lemma_on_port_cleared(m.tables[i], pick.port, port);
                lemma_on_port_push(cleared, b, port);
            }
        }
    }
}

/// A packet from the inside leaves no port with more than one row, as long
/// as ports are not overloaded and no binding lends its port to another.
///
/// A binding that lends its external endpoint to a new binding of the same
/// sender puts a second row on its port: there the rows of a port are
/// several, all of one owner.
pub proof fn law_ports_unique_outbound(
    m: Model,
    src_addr: u32,
    src_port: u16,
    dst_addr: u32,
    dst_port: u16,
    now: i64,
    pick: Pick,
)
    requires
        m.wf(),
        m.ports_unique(),
        !m.overloads(),
        !m.lends(src_addr, src_port, dst_addr, dst_port, now),
        m.allows(src_addr, src_port, dst_addr, dst_port, now, pick),
    ensures
        m.outbound(src_addr, src_port, dst_addr, dst_port, now, pick).0.ports_unique(),
{
    lemma_outbound_unfold(m, src_addr, src_port, dst_addr, dst_port, now, pick);
    if m.passes(src_addr, dst_addr) {
        let (searched, found) = m.lookup(src_addr, src_port, dst_addr, dst_port, now);
        let exit = m.exit(src_addr, src_port, dst_addr, dst_port, now, pick);
        let installed = m.installed(src_addr, src_port, dst_addr, dst_port, now, pick);
        lemma_ports_unique_lookup(m, src_addr, src_port, dst_addr, dst_port, now);
        lemma_lookup_shape(m, 0, None, src_addr, src_port, dst_addr, dst_port, now);
        if found is Fresh {
            lemma_ports_unique_placed(
                searched,
                exit,
                new_binding(src_addr, src_port, exit.port, dst_addr, dst_port, now),
            );
        }
        assert(installed.ports_unique());
        lemma_ports_unique_inbound(
            installed,
            m.addresses[exit.index as int],
            exit.port,
            dst_addr,
            dst_port,
            true,
            now,
        );
    }
}

/// The relation "rows of one table on one port have one owner" does not
/// look at the time of last use.
proof fn lemma_one_owner_timeless()
    ensures
        timeless(one_owner()),
{
    let rel = one_owner();
    assert forall|i: int, a: Binding, j: int, b: Binding, a2: Binding, b2: Binding|
        #![trigger rel(i, a, j, b), same_binding(a2, a), same_binding(b2, b)]
        rel(i, a, j, b) && same_binding(a2, a) && same_binding(b2, b) implies rel(
        i,
        a2,
        j,
        b2,
    ) by {}
}

/// A packet from the outside leaves the rows of each port with one owner.
pub proof fn law_ports_exclusive_inbound(
    m: Model,
    src_addr: u32,
    src_port: u16,
    dst_addr: u32,
    dst_port: u16,
    bypass: bool,
    now: i64,
)
    requires
        m.aligned(),
        m.ports_exclusive(),
    ensures
        m.inbound(src_addr, src_port, dst_addr, dst_port, bypass, now).0.ports_exclusive(),
{
    lemma_one_owner_timeless();
    lemma_inbound_thinned(m, src_addr, src_port, dst_addr, dst_port, bypass, now);
    lemma_pairs_thinned(
        m.inbound(src_addr, src_port, dst_addr, dst_port, bypass, now).0,
        m,
        now,
        one_owner(),
    );
}

/// A binding placed on a port whose other rows, if any are left, belong to
/// its owner leaves the rows of each port with one owner.
proof fn lemma_ports_exclusive_placed(m: Model, pick: Pick, b: Binding)
    requires
        m.ports_exclusive(),
        pick.index < m.tables.len(),
        b.external_port == pick.port,
        pick.shared ==> forall|r: Binding|
            #![trigger m.tables[pick.index as int].contains(r)]
            m.tables[pick.index as int].contains(r) && r.external_port == pick.port ==> owned_by(
                r,
                b.internal_addr,
                b.internal_port,
            ),
    ensures
        m.placed(pick, b).ports_exclusive(),
{
    let after = m.placed(pick, b);
    let rel = one_owner();
    assert forall|i: int, a: Binding, j: int, c: Binding|
        #![trigger after.tables[i].contains(a), after.tables[j].contains(c)]
        0 <= i < after.tables.len() && 0 <= j < after.tables.len() && after.tables[i].contains(a)
            && after.tables[j].contains(c) implies rel(i, a, j, c) by {
        lemma_placed_rows(m, pick, b, i, a);
        lemma_placed_rows(m, pick, b, j, c);
        if i == j && a.external_port == c.external_port {
            if a == b && i == pick.index {
                if c != b {
                    assert(m.tables[i].contains(c));
                }
            } else if c == b && j == pick.index {
                assert(m.tables[i].contains(a));
            } else {
                assert(m.tables[i].contains(a) && m.tables[j].contains(c));
                assert(rel(i, a, j, c));
            }
        }
    }
}

/// The binding found by a search stands in its table before the search,
/// live, on the port found, and belongs to the sender: an exact binding for
/// `Exact`, one that qualifies for `Preferred`.
pub proof fn lemma_found_row(
    m: Model,
    src_addr: u32,
    src_port: u16,
    dst_addr: u32,
    dst_port: u16,
    now: i64,
)
    requires
        m.aligned(),
    ensures
        match m.lookup(src_addr, src_port, dst_addr, dst_port, now).1 {
            Lookup::Exact { index, port } => index < m.tables.len() && exists|r: Binding|
                #![trigger m.tables[index as int].contains(r)]
                m.tables[index as int].contains(r) && is_live(r, now, m.timeout)
                    && r.external_port == port && crate::binding::is_exact(
                    r,
                    src_addr,
                    src_port,
                    dst_addr,
                    dst_port,
                ),
            Lookup::Preferred { index, port } => index < m.tables.len() && exists|r: Binding|
                #![trigger m.tables[index as int].contains(r)]
                m.tables[index as int].contains(r) && is_live(r, now, m.timeout)
                    && r.external_port == port && crate::binding::qualifies(
                    r,
                    src_addr,
                    src_port,
                    dst_addr,
                    dst_port,
                    m.flags,
                ),
            Lookup::Fresh => true,
        },
{
    lemma_lookup_shape(m, 0, None, src_addr, src_port, dst_addr, dst_port, now);
    match m.lookup(src_addr, src_port, dst_addr, dst_port, now).1 {
        Lookup::Exact { index, port } => {
            lemma_outbound_scan_offer(
                m.tables[index as int],
                src_addr,
                src_port,
                dst_addr,
                dst_port,
                now,
                m.timeout,
                m.flags,
                m.max_table_len(),
            );
        },
        Lookup::Preferred { index, port } => {
            lemma_outbound_scan_offer(
                m.tables[index as int],
                src_addr,
                src_port,
                dst_addr,
                dst_port,
                now,
                m.timeout,
                m.flags,
                m.max_table_len(),
            );
        },
        Lookup::Fresh => {},
    }
}

/// Once the binding that serves an outbound packet stands in its table,
/// the rows of each port have one owner, as long as ports are not
/// overloaded.
proof fn lemma_ports_exclusive_installed(
    m: Model,
    src_addr: u32,
    src_port: u16,
    dst_addr: u32,
    dst_port: u16,
    now: i64,
    pick: Pick,
)
    requires
        m.wf(),
        m.ports_exclusive(),
        !m.overloads(),
        m.passes(src_addr, dst_addr),
        m.allows(src_addr, src_port, dst_addr, dst_port, now, pick),
    ensures
        m.installed(src_addr, src_port, dst_addr, dst_port, now, pick).ports_exclusive(),
        m.installed(src_addr, src_port, dst_addr, dst_port, now, pick).keeps(m),
        m.exit(src_addr, src_port, dst_addr, dst_port, now, pick).index < m.tables.len(),
{
    let (searched, found) = m.lookup(src_addr, src_port, dst_addr, dst_port, now);
    let exit = m.exit(src_addr, src_port, dst_addr, dst_port, now, pick);
    let b = new_binding(src_addr, src_port, exit.port, dst_addr, dst_port, now);
    lemma_one_owner_timeless();
    lemma_lookup_thinned(m, src_addr, src_port, dst_addr, dst_port, now);
    lemma_pairs_thinned(searched, m, now, one_owner());
    lemma_found_row(m, src_addr, src_port, dst_addr, dst_port, now);
    match found {
        Lookup::Exact { index, port } => {},
        Lookup::Preferred { index, port } => {
            let lender = choose|r: Binding|
                #![trigger m.tables[index as int].contains(r)]
                m.tables[index as int].contains(r) && r.external_port == port
                    && crate::binding::qualifies(
                    r,
                    src_addr,
                    src_port,
                    dst_addr,
                    dst_port,
                    m.flags,
                );
            assert forall|r: Binding|
                #![trigger searched.tables[index as int].contains(r)]
                searched.tables[index as int].contains(r) && r.external_port == port implies owned_by(
                r,
                src_addr,
                src_port,
            ) by {
                assert(crate::facts::thinned(
                    searched.tables[index as int],
                    m.tables[index as int],
                    now,
                ));
                let r0 = choose|r0: Binding|
                    #![trigger m.tables[index as int].contains(r0)]
                    m.tables[index as int].contains(r0) && same_binding(r, r0);
                let rel = one_owner();
                assert(rel(index as int, r0, index as int, lender));
            }
            lemma_ports_exclusive_placed(searched, exit, b);
        },
        Lookup::Fresh => {
            assert(!exit.shared);
            lemma_ports_exclusive_placed(searched, exit, b);
        },
    }
}

/// A packet from the inside leaves the rows of each port with one owner,
/// as long as ports are not overloaded.
pub proof fn law_ports_exclusive_outbound(
    m: Model,
    src_addr: u32,
    src_port: u16,
    dst_addr: u32,
    dst_port: u16,
    now: i64,
    pick: Pick,
)
    requires
        m.wf(),
        m.ports_exclusive(),
        !m.overloads(),
        m.allows(src_addr, src_port, dst_addr, dst_port, now, pick),
    ensures
        m.outbound(src_addr, src_port, dst_addr, dst_port, now, pick).0.ports_exclusive(),
{
    lemma_outbound_unfold(m, src_addr, src_port, dst_addr, dst_port, now, pick);
    if m.passes(src_addr, dst_addr) {
        let exit = m.exit(src_addr, src_port, dst_addr, dst_port, now, pick);
        let installed = m.installed(src_addr, src_port, dst_addr, dst_port, now, pick);
        lemma_ports_exclusive_installed(m, src_addr, src_port, dst_addr, dst_port, now, pick);
        law_ports_exclusive_inbound(
            installed,
            m.addresses[exit.index as int],
            exit.port,
            dst_addr,
            dst_port,
            true,
            now,
        );
    }
}

/// The binding that serves an outbound packet stands in its table once it
/// is installed: a row of the sender for this destination on the external
/// port used. Its time of last use is `now`, unless it is an exact binding
/// found and outbound traffic does not refresh.
proof fn lemma_serving_row(
    m: Model,
    src_addr: u32,
    src_port: u16,
    dst_addr: u32,
    dst_port: u16,
    now: i64,
    pick: Pick,
)
    requires
        m.aligned(),
        m.passes(src_addr, dst_addr),
        m.allows(src_addr, src_port, dst_addr, dst_port, now, pick),
    ensures
        ({
            let exit = m.exit(src_addr, src_port, dst_addr, dst_port, now, pick);
            let installed = m.installed(src_addr, src_port, dst_addr, dst_port, now, pick);
            let found = m.lookup(src_addr, src_port, dst_addr, dst_port, now).1;
            &&& exit.index < m.tables.len()
            &&& installed.keeps(m)
            &&& exists|r: Binding|
                #![trigger is_exact(r, src_addr, src_port, dst_addr, dst_port)]
                {
                    &&& installed.tables[exit.index as int].contains(r)
                    &&& is_exact(r, src_addr, src_port, dst_addr, dst_port)
                    &&& r.external_port == exit.port
                    &&& !is_set(m.flags, OUTBOUND_REFRESH_BEHAVIOR_FALSE) || !(found is Exact)
                        ==> r.last_used_time == now
                }
        }),
{
    let (searched, found) = m.lookup(src_addr, src_port, dst_addr, dst_port, now);
    let exit = m.exit(src_addr, src_port, dst_addr, dst_port, now, pick);
    let installed = m.installed(src_addr, src_port, dst_addr, dst_port, now, pick);
    lemma_exit_in_range(m, src_addr, src_port, dst_addr, dst_port, now, pick);
    lemma_lookup_shape(m, 0, None, src_addr, src_port, dst_addr, dst_port, now);
    if found is Exact {
        lemma_outbound_scan_exact_row(
            m.tables[exit.index as int],
            src_addr,
            src_port,
            dst_addr,
            dst_port,
            now,
            m.timeout,
            m.flags,
            m.max_table_len(),
        );
    } else {
        let b = new_binding(src_addr, src_port, exit.port, dst_addr, dst_port, now);
        let table = installed.tables[exit.index as int];
        assert(table.last() == b);
        assert(table.contains(b));
        assert(is_exact(b, src_addr, src_port, dst_addr, dst_port));
    }
}

/// Round trip: a packet that left for the external network opens the way
/// back. A reply from its destination to the external endpoint it left
/// from, at a time when the binding is still live, is delivered to the
/// sender.
///
/// The law asks that the external addresses differ from each other, that
/// ports are not overloaded, and that the binding was refreshed by the
/// packet: it leaves out an exact binding found under
/// `OUTBOUND_REFRESH_BEHAVIOR_FALSE`, whose time runs from an earlier
/// packet.
pub proof fn law_round_trip(
    m: Model,
    src_addr: u32,
    src_port: u16,
    dst_addr: u32,
    dst_port: u16,
    now: i64,
    pick: Pick,
    ext_addr: u32,
    ext_port: u16,
    bypass: bool,
    later: i64,
)
    requires
        m.wf(),
        m.ports_exclusive(),
        !m.overloads(),
        m.addresses.no_duplicates(),
        m.allows(src_addr, src_port, dst_addr, dst_port, now, pick),
        m.outbound(src_addr, src_port, dst_addr, dst_port, now, pick).1 == (DestType::External {
            external_src_addr: ext_addr,
            external_src_port: ext_port,
        }),
        !is_set(m.flags, OUTBOUND_REFRESH_BEHAVIOR_FALSE) || !(m.lookup(
            src_addr,
            src_port,
            dst_addr,
            dst_port,
            now,
        ).1 is Exact),
        later - now <= m.timeout,
    ensures
        m.outbound(src_addr, src_port, dst_addr, dst_port, now, pick).0.inbound(
            dst_addr,
            dst_port,
            ext_addr,
            ext_port,
            bypass,
            later,
        ).1 == Some((src_addr, src_port)),
{
    lemma_outbound_unfold(m, src_addr, src_port, dst_addr, dst_port, now, pick);
    let exit = m.exit(src_addr, src_port, dst_addr, dst_port, now, pick);
    let installed = m.installed(src_addr, src_port, dst_addr, dst_port, now, pick);
    let index = exit.index as int;
    lemma_hairpin_external(
        installed,
        src_addr,
        src_port,
        m.addresses[index],
        exit.port,
        dst_addr,
        dst_port,
        now,
    );
    lemma_serving_row(m, src_addr, src_port, dst_addr, dst_port, now, pick);
    lemma_ports_exclusive_installed(m, src_addr, src_port, dst_addr, dst_port, now, pick);
    let serving = choose|r: Binding|
        #![trigger is_exact(r, src_addr, src_port, dst_addr, dst_port)]
        {
            &&& installed.tables[index].contains(r)
            &&& is_exact(r, src_addr, src_port, dst_addr, dst_port)
            &&& r.external_port == exit.port
            &&& r.last_used_time == now
        };
    lemma_first_where_is(installed.addresses, address_test(ext_addr), index);
    let table = installed.tables[index];
    let live = live_rows(table, later, m.timeout);
    let passing = admit_test(dst_addr, dst_port, ext_port, bypass, m.flags);
    lemma_live_rows_contains(table, later, m.timeout, serving);
    let at = choose|at: int| 0 <= at < live.len() && live[at] == serving;
    assert(passing(live[at]));
    lemma_first_where(live, passing);
    let k = first_where(live, passing).unwrap();
    assert(passing(live[k]));
    assert(live.contains(live[k]));
    lemma_live_rows_contains(table, later, m.timeout, live[k]);
    let rel = one_owner();
    assert(rel(index, live[k], index, serving));
}

/// The test "was last used at `t` or before".
pub open spec fn stamp_test(t: i64) -> spec_fn(Binding) -> bool {
    |b: Binding| b.last_used_time <= t
}

/// The test "the external port has the parity of the internal port".
pub open spec fn parity_test() -> spec_fn(Binding) -> bool {
    |b: Binding| b.external_port % 2 == b.internal_port % 2
}

impl Model {
    /// No binding was used later than `t`.
    pub open spec fn stamped_by(self, t: i64) -> bool {
        self.all_rows(stamp_test(t))
    }

    /// Every binding's external port has the parity of its internal port.
    pub open spec fn parity_kept(self) -> bool {
        self.all_rows(parity_test())
    }
}

/// Timeout honesty: once more than the timeout has passed since a packet
/// from the inside, and no packet came between, nothing from the outside is
/// delivered.
///
/// Time is taken to run forward: no binding was used later than the
/// packet's own time.
pub proof fn law_timeout(
    m: Model,
    src_addr: u32,
    src_port: u16,
    dst_addr: u32,
    dst_port: u16,
    now: i64,
    pick: Pick,
    from_addr: u32,
    from_port: u16,
    to_addr: u32,
    to_port: u16,
    bypass: bool,
    later: i64,
)
    requires
        m.wf(),
        m.stamped_by(now),
        m.allows(src_addr, src_port, dst_addr, dst_port, now, pick),
        later - now > m.timeout,
    ensures
        m.outbound(src_addr, src_port, dst_addr, dst_port, now, pick).0.stamped_by(now),
        m.outbound(src_addr, src_port, dst_addr, dst_port, now, pick).0.inbound(
            from_addr,
            from_port,
            to_addr,
            to_port,
            bypass,
            later,
        ).1 is None,
{
    let q = stamp_test(now);
    assert(survives(q, now));
    lemma_rows_outbound(m, src_addr, src_port, dst_addr, dst_port, now, pick, q);
    let after = m.outbound(src_addr, src_port, dst_addr, dst_port, now, pick).0;
    lemma_outbound_unfold(m, src_addr, src_port, dst_addr, dst_port, now, pick);
    if m.passes(src_addr, dst_addr) {
        let exit = m.exit(src_addr, src_port, dst_addr, dst_port, now, pick);
        lemma_exit_in_range(m, src_addr, src_port, dst_addr, dst_port, now, pick);
        lemma_hairpin_thinned(
            m.installed(src_addr, src_port, dst_addr, dst_port, now, pick),
            src_addr,
            src_port,
            m.addresses[exit.index as int],
            exit.port,
            dst_addr,
            dst_port,
            now,
        );
    }
    law_stale_delivers_nothing(after, from_addr, from_port, to_addr, to_port, bypass, later, now);
}

/// Where more than the timeout has passed since any binding was last used,
/// nothing from the outside is delivered.
pub proof fn law_stale_delivers_nothing(
    m: Model,
    src_addr: u32,
    src_port: u16,
    dst_addr: u32,
    dst_port: u16,
    bypass: bool,
    now: i64,
    t: i64,
)
    requires
        m.aligned(),
        m.stamped_by(t),
        now - t > m.timeout,
    ensures
        m.inbound(src_addr, src_port, dst_addr, dst_port, bypass, now).1 is None,
{
    let q = stamp_test(t);
    lemma_first_where(m.addresses, address_test(dst_addr));
    match m.address_index(dst_addr) {
        Some(i) => {
            let table = m.tables[i];
            assert forall|r: Binding| #[trigger] table.contains(r) implies !is_live(
                r,
                now,
                m.timeout,
            ) by {
                assert(q(r));
            }
            lemma_live_rows_none(table, now, m.timeout);
            let live = live_rows(table, now, m.timeout);
            lemma_first_where(live, admit_test(src_addr, src_port, dst_port, bypass, m.flags));
        },
        None => {},
    }
}

/// A packet from the outside, at a time that is not later than `t`, leaves
/// no binding used later than `t`.
pub proof fn law_stamped_inbound(
    m: Model,
    src_addr: u32,
    src_port: u16,
    dst_addr: u32,
    dst_port: u16,
    bypass: bool,
    now: i64,
    t: i64,
)
    requires
        m.aligned(),
        m.stamped_by(t),
        now <= t,
    ensures
        m.inbound(src_addr, src_port, dst_addr, dst_port, bypass, now).0.stamped_by(t),
{
    let q = stamp_test(t);
    assert(survives(q, now));
    lemma_rows_inbound(m, src_addr, src_port, dst_addr, dst_port, bypass, now, q);
}

/// A packet from the inside, at a time that is not later than `t`, leaves
/// no binding used later than `t`.
pub proof fn law_stamped_outbound(
    m: Model,
    src_addr: u32,
    src_port: u16,
    dst_addr: u32,
    dst_port: u16,
    now: i64,
    pick: Pick,
    t: i64,
)
    requires
        m.aligned(),
        m.stamped_by(t),
        m.allows(src_addr, src_port, dst_addr, dst_port, now, pick),
        now <= t,
    ensures
        m.outbound(src_addr, src_port, dst_addr, dst_port, now, pick).0.stamped_by(t),
{
    let q = stamp_test(t);
    assert(survives(q, now));
    lemma_rows_outbound(m, src_addr, src_port, dst_addr, dst_port, now, pick, q);
}

/// Port preservation on idle: where a new external endpoint is selected
/// under port preservation and the sender's port is free on a table that
/// the sender may use, the packet leaves from the sender's own port.
pub proof fn law_port_preserved(
    m: Model,
    src_addr: u32,
    src_port: u16,
    dst_addr: u32,
    dst_port: u16,
    now: i64,
    pick: Pick,
)
    requires
        !is_set(m.flags, NO_PORT_PRESERVATION),
        m.needs_pick(src_addr, src_port, dst_addr, dst_port, now),
        m.lookup(src_addr, src_port, dst_addr, dst_port, now).0.some_table_free(
            m.paired(src_addr),
            src_port,
        ),
        m.allows(src_addr, src_port, dst_addr, dst_port, now, pick),
    ensures
        pick.port == src_port,
        m.outbound(src_addr, src_port, dst_addr, dst_port, now, pick).1 matches DestType::External {
            external_src_port,
            ..
        } ==> external_src_port == src_port,
{
    lemma_outbound_unfold(m, src_addr, src_port, dst_addr, dst_port, now, pick);
    crate::model::lemma_lookup_frame(m, 0, None, src_addr, src_port, dst_addr, dst_port, now);
}

/// Parity preservation: where ports are always drawn and parity is kept,
/// a packet that leaves for the external network leaves from a port with
/// the parity of the sender's port, and every binding keeps the parity of
/// its internal port.
pub proof fn law_parity(
    m: Model,
    src_addr: u32,
    src_port: u16,
    dst_addr: u32,
    dst_port: u16,
    now: i64,
    pick: Pick,
)
    requires
        m.wf(),
        m.parity_kept(),
        is_set(m.flags, NO_PORT_PRESERVATION),
        !is_set(m.flags, NO_PORT_PARITY),
        m.allows(src_addr, src_port, dst_addr, dst_port, now, pick),
    ensures
        m.outbound(src_addr, src_port, dst_addr, dst_port, now, pick).0.parity_kept(),
        m.outbound(src_addr, src_port, dst_addr, dst_port, now, pick).1 matches DestType::External {
            external_src_port,
            ..
        } ==> external_src_port % 2 == src_port % 2,
{
    let q = parity_test();
    assert(survives(q, now));
    lemma_outbound_unfold(m, src_addr, src_port, dst_addr, dst_port, now, pick);
    if m.passes(src_addr, dst_addr) {
        let (searched, found) = m.lookup(src_addr, src_port, dst_addr, dst_port, now);
        let exit = m.exit(src_addr, src_port, dst_addr, dst_port, now, pick);
        lemma_found_row(m, src_addr, src_port, dst_addr, dst_port, now);
        match found {
            Lookup::Exact { index, port } => {
                let r = choose|r: Binding|
                    #![trigger m.tables[index as int].contains(r)]
                    m.tables[index as int].contains(r) && r.external_port == port && is_exact(
                        r,
                        src_addr,
                        src_port,
                        dst_addr,
                        dst_port,
                    );
                assert(q(r));
            },
            Lookup::Preferred { index, port } => {
                let r = choose|r: Binding|
                    #![trigger m.tables[index as int].contains(r)]
                    m.tables[index as int].contains(r) && r.external_port == port
                        && crate::binding::qualifies(
                        r,
                        src_addr,
                        src_port,
                        dst_addr,
                        dst_port,
                        m.flags,
                    );
                assert(q(r));
            },
            Lookup::Fresh => {
                assert(is_candidate(pick.port, m.port_first, m.port_last, src_port, m.flags)) by {
                    crate::model::lemma_lookup_frame(
                        m,
                        0,
                        None,
                        src_addr,
                        src_port,
                        dst_addr,
                        dst_port,
                        now,
                    );
                }
                let raw = choose|raw: u16|
                    m.port_first <= raw <= m.port_last && pick.port
                        == #[trigger] crate::draws::with_parity(raw, src_port, m.flags);
                lemma_parity_keeps_half(raw, src_port, m.flags);
            },
        }
        assert(exit.port % 2 == src_port % 2);
        assert(q(new_binding(src_addr, src_port, exit.port, dst_addr, dst_port, now)));
    }
    lemma_rows_outbound(m, src_addr, src_port, dst_addr, dst_port, now, pick, q);
}

/// A packet from the outside leaves every binding with the parity of its
/// internal port.
pub proof fn law_parity_inbound(
    m: Model,
    src_addr: u32,
    src_port: u16,
    dst_addr: u32,
    dst_port: u16,
    bypass: bool,
    now: i64,
)
    requires
        m.aligned(),
        m.parity_kept(),
    ensures
        m.inbound(src_addr, src_port, dst_addr, dst_port, bypass, now).0.parity_kept(),
{
    let q = parity_test();
    assert(survives(q, now));
    lemma_rows_inbound(m, src_addr, src_port, dst_addr, dst_port, bypass, now, q);
}

/// The relation "the rows of one internal endpoint stand in one table, on
/// one port".
pub open spec fn one_endpoint() -> spec_fn(int, Binding, int, Binding) -> bool {
    |i: int, a: Binding, j: int, b: Binding|
        owned_by(a, b.internal_addr, b.internal_port) ==> i == j && a.external_port
            == b.external_port
}

impl Model {
    /// Mapping is endpoint-independent: neither the destination's address
    /// nor its port forces a new binding.
    pub open spec fn endpoint_independent(self) -> bool {
        !is_set(self.flags, ADDRESS_DEPENDENT_MAPPING) && !is_set(
            self.flags,
            PORT_DEPENDENT_MAPPING,
        )
    }

    /// Mapping depends on the destination's address and on its port.
    pub open spec fn endpoint_dependent(self) -> bool {
        is_set(self.flags, ADDRESS_DEPENDENT_MAPPING) && is_set(self.flags, PORT_DEPENDENT_MAPPING)
    }

    /// Each internal endpoint has one external endpoint: all its rows stand
    /// in one table, on one port.
    pub open spec fn one_endpoint_each(self) -> bool {
        self.all_pairs(one_endpoint())
    }

    /// Port preservation may take a port over from the binding that holds
    /// it.
    pub open spec fn overrides(self) -> bool {
        !is_set(self.flags, NO_PORT_PRESERVATION) && is_set(self.flags, PORT_PRESERVATION_OVERRIDE)
    }
}

/// The relation "the rows of one internal endpoint stand in one table, on
/// one port" does not look at the time of last use.
proof fn lemma_one_endpoint_timeless()
    ensures
        timeless(one_endpoint()),
{
    let rel = one_endpoint();
    assert forall|i: int, a: Binding, j: int, b: Binding, a2: Binding, b2: Binding|
        #![trigger rel(i, a, j, b), same_binding(a2, a), same_binding(b2, b)]
        rel(i, a, j, b) && same_binding(a2, a) && same_binding(b2, b) implies rel(
        i,
        a2,
        j,
        b2,
    ) by {}
}

/// A packet from the outside leaves each internal endpoint with one
/// external endpoint.
pub proof fn law_one_endpoint_inbound(
    m: Model,
    src_addr: u32,
    src_port: u16,
    dst_addr: u32,
    dst_port: u16,
    bypass: bool,
    now: i64,
)
    requires
        m.aligned(),
        m.one_endpoint_each(),
    ensures
        m.inbound(src_addr, src_port, dst_addr, dst_port, bypass, now).0.one_endpoint_each(),
{
    lemma_one_endpoint_timeless();
    lemma_inbound_thinned(m, src_addr, src_port, dst_addr, dst_port, bypass, now);
    lemma_pairs_thinned(
        m.inbound(src_addr, src_port, dst_addr, dst_port, bypass, now).0,
        m,
        now,
        one_endpoint(),
    );
}

/// A binding placed where all rows of its owner stand, on their port,
/// leaves each internal endpoint with one external endpoint.
proof fn lemma_one_endpoint_placed(m: Model, pick: Pick, b: Binding)
    requires
        m.one_endpoint_each(),
        pick.index < m.tables.len(),
        b.external_port == pick.port,
        forall|j: int, c: Binding|
            #![trigger m.tables[j].contains(c)]
            0 <= j < m.tables.len() && m.tables[j].contains(c) && owned_by(
                c,
                b.internal_addr,
                b.internal_port,
            ) ==> j == pick.index && c.external_port == pick.port,
    ensures
        m.placed(pick, b).one_endpoint_each(),
{
    let after = m.placed(pick, b);
    let rel = one_endpoint();
    assert forall|i: int, a: Binding, j: int, c: Binding|
        #![trigger after.tables[i].contains(a), after.tables[j].contains(c)]
        0 <= i < after.tables.len() && 0 <= j < after.tables.len() && after.tables[i].contains(a)
            && after.tables[j].contains(c) implies rel(i, a, j, c) by {
        lemma_placed_rows(m, pick, b, i, a);
        lemma_placed_rows(m, pick, b, j, c);
        if owned_by(a, c.internal_addr, c.internal_port) {
            if a == b && i == pick.index {
                if !(c == b && j == pick.index) {
                    assert(m.tables[j].contains(c));
                }
            } else if c == b && j == pick.index {
                assert(m.tables[i].contains(a));
            } else {
                assert(m.tables[i].contains(a) && m.tables[j].contains(c));
                assert(rel(i, a, j, c));
            }
        }
    }
}

/// After a search that finds nothing, no row of the tables qualifies for
/// the packet.
proof fn lemma_fresh_none_qualify(
    m: Model,
    src_addr: u32,
    src_port: u16,
    dst_addr: u32,
    dst_port: u16,
    now: i64,
    j: int,
    c: Binding,
)
    requires
        m.aligned(),
        m.lookup(src_addr, src_port, dst_addr, dst_port, now).1 is Fresh,
        0 <= j < m.tables.len(),
        m.lookup(src_addr, src_port, dst_addr, dst_port, now).0.tables[j].contains(c),
    ensures
        !crate::binding::qualifies(c, src_addr, src_port, dst_addr, dst_port, m.flags),
        m.tables[j].contains(c),
        is_live(c, now, m.timeout),
{
    lemma_lookup_shape(m, 0, None, src_addr, src_port, dst_addr, dst_port, now);
    let searched = m.lookup(src_addr, src_port, dst_addr, dst_port, now).0;
    assert(searched.tables[j] == m.scan(j, src_addr, src_port, dst_addr, dst_port, now).0);
    assert(m.scan(j, src_addr, src_port, dst_addr, dst_port, now).1 is Nothing);
    lemma_outbound_scan_rows(
        m.tables[j],
        src_addr,
        src_port,
        dst_addr,
        dst_port,
        now,
        m.timeout,
        m.flags,
        m.max_table_len(),
        c,
    );
    lemma_outbound_scan_offer(
        m.tables[j],
        src_addr,
        src_port,
        dst_addr,
        dst_port,
        now,
        m.timeout,
        m.flags,
        m.max_table_len(),
    );
}

/// Once the binding that serves an outbound packet stands in its table,
/// each internal endpoint has one external endpoint, where mapping is
/// endpoint-independent.
proof fn lemma_one_endpoint_installed(
    m: Model,
    src_addr: u32,
    src_port: u16,
    dst_addr: u32,
    dst_port: u16,
    now: i64,
    pick: Pick,
)
    requires
        m.wf(),
        m.endpoint_independent(),
        m.one_endpoint_each(),
        m.passes(src_addr, dst_addr),
        m.allows(src_addr, src_port, dst_addr, dst_port, now, pick),
    ensures
        m.installed(src_addr, src_port, dst_addr, dst_port, now, pick).one_endpoint_each(),
{
    let (searched, found) = m.lookup(src_addr, src_port, dst_addr, dst_port, now);
    let exit = m.exit(src_addr, src_port, dst_addr, dst_port, now, pick);
    let b = new_binding(src_addr, src_port, exit.port, dst_addr, dst_port, now);
    let rel = one_endpoint();
    lemma_one_endpoint_timeless();
    lemma_exit_in_range(m, src_addr, src_port, dst_addr, dst_port, now, pick);
    lemma_lookup_thinned(m, src_addr, src_port, dst_addr, dst_port, now);
    lemma_pairs_thinned(searched, m, now, rel);
    lemma_found_row(m, src_addr, src_port, dst_addr, dst_port, now);
    match found {
        Lookup::Exact { index, port } => {},
        Lookup::Preferred { index, port } => {
            let lender = choose|r: Binding|
                #![trigger m.tables[index as int].contains(r)]
                m.tables[index as int].contains(r) && r.external_port == port
                    && crate::binding::qualifies(
                    r,
                    src_addr,
                    src_port,
                    dst_addr,
                    dst_port,
                    m.flags,
                );
            assert forall|j: int, c: Binding|
                #![trigger searched.tables[j].contains(c)]
                0 <= j < searched.tables.len() && searched.tables[j].contains(c) && owned_by(
                    c,
                    src_addr,
                    src_port,
                ) implies j == index && c.external_port == port by {
                assert(crate::facts::thinned(searched.tables[j], m.tables[j], now));
                let c0 = choose|c0: Binding|
                    #![trigger m.tables[j].contains(c0)]
                    m.tables[j].contains(c0) && same_binding(c, c0);
                assert(rel(j, c0, index as int, lender));
            }
            lemma_one_endpoint_placed(searched, exit, b);
        },
        Lookup::Fresh => {
            assert forall|j: int, c: Binding|
                #![trigger searched.tables[j].contains(c)]
                0 <= j < searched.tables.len() && searched.tables[j].contains(c) && owned_by(
                    c,
                    src_addr,
                    src_port,
                ) implies j == exit.index && c.external_port == exit.port by {
                lemma_fresh_none_qualify(m, src_addr, src_port, dst_addr, dst_port, now, j, c);
            }
            lemma_one_endpoint_placed(searched, exit, b);
        },
    }
}

/// A packet from the inside leaves each internal endpoint with one
/// external endpoint, where mapping is endpoint-independent.
pub proof fn law_one_endpoint_outbound(
    m: Model,
    src_addr: u32,
    src_port: u16,
    dst_addr: u32,
    dst_port: u16,
    now: i64,
    pick: Pick,
)
    requires
        m.wf(),
        m.endpoint_independent(),
        m.one_endpoint_each(),
        m.allows(src_addr, src_port, dst_addr, dst_port, now, pick),
    ensures
        m.outbound(src_addr, src_port, dst_addr, dst_port, now, pick).0.one_endpoint_each(),
{
    lemma_outbound_unfold(m, src_addr, src_port, dst_addr, dst_port, now, pick);
    if m.passes(src_addr, dst_addr) {
        let exit = m.exit(src_addr, src_port, dst_addr, dst_port, now, pick);
        let installed = m.installed(src_addr, src_port, dst_addr, dst_port, now, pick);
        lemma_one_endpoint_installed(m, src_addr, src_port, dst_addr, dst_port, now, pick);
        lemma_exit_in_range(m, src_addr, src_port, dst_addr, dst_port, now, pick);
        law_one_endpoint_inbound(
            installed,
            m.addresses[exit.index as int],
            exit.port,
            dst_addr,
            dst_port,
            true,
            now,
        );
    }
}

/// Endpoint-independent mapping: where neither mapping dependence is set,
/// two packets of one internal endpoint that leave for the external
/// network, the second while the binding of the first is live, leave from
/// the same external address and port, whatever their destinations.
///
/// The law leaves out a first packet served by an exact binding found under
/// `OUTBOUND_REFRESH_BEHAVIOR_FALSE`, whose time runs from an earlier
/// packet.
pub proof fn law_endpoint_independent_mapping(
    m: Model,
    src_addr: u32,
    src_port: u16,
    dst_addr: u32,
    dst_port: u16,
    now: i64,
    pick: Pick,
    next_addr: u32,
    next_port: u16,
    later: i64,
    next_pick: Pick,
)
    requires
        m.wf(),
        m.endpoint_independent(),
        m.one_endpoint_each(),
        m.allows(src_addr, src_port, dst_addr, dst_port, now, pick),
        m.outbound(src_addr, src_port, dst_addr, dst_port, now, pick).1 is External,
        !is_set(m.flags, OUTBOUND_REFRESH_BEHAVIOR_FALSE) || !(m.lookup(
            src_addr,
            src_port,
            dst_addr,
            dst_port,
            now,
        ).1 is Exact),
        later - now <= m.timeout,
    ensures
        ({
            let (after, first) = m.outbound(src_addr, src_port, dst_addr, dst_port, now, pick);
            let second = after.outbound(src_addr, src_port, next_addr, next_port, later, next_pick).1;
            second is External ==> second == first
        }),
{
    let (after, first) = m.outbound(src_addr, src_port, dst_addr, dst_port, now, pick);
    let second = after.outbound(src_addr, src_port, next_addr, next_port, later, next_pick).1;
    lemma_outbound_unfold(m, src_addr, src_port, dst_addr, dst_port, now, pick);
    let exit = m.exit(src_addr, src_port, dst_addr, dst_port, now, pick);
    let installed = m.installed(src_addr, src_port, dst_addr, dst_port, now, pick);
    let index = exit.index as int;
    lemma_hairpin_external(
        installed,
        src_addr,
        src_port,
        m.addresses[index],
        exit.port,
        dst_addr,
        dst_port,
        now,
    );
    lemma_serving_row(m, src_addr, src_port, dst_addr, dst_port, now, pick);
    lemma_one_endpoint_installed(m, src_addr, src_port, dst_addr, dst_port, now, pick);
    assert(after == installed);
    let serving = choose|r: Binding|
        #![trigger is_exact(r, src_addr, src_port, dst_addr, dst_port)]
        {
            &&& after.tables[index].contains(r)
            &&& is_exact(r, src_addr, src_port, dst_addr, dst_port)
            &&& r.external_port == exit.port
            &&& r.last_used_time == now
        };
    if second is External {
        lemma_outbound_unfold(after, src_addr, src_port, next_addr, next_port, later, next_pick);
        let found = after.lookup(src_addr, src_port, next_addr, next_port, later).1;
        let next_exit = after.exit(src_addr, src_port, next_addr, next_port, later, next_pick);
        lemma_found_row(after, src_addr, src_port, next_addr, next_port, later);
        lemma_lookup_shape(after, 0, None, src_addr, src_port, next_addr, next_port, later);
        let rel = one_endpoint();
        match found {
            Lookup::Exact { index: other, port: held_port } => {
                let r2 = choose|r: Binding|
                    #![trigger after.tables[other as int].contains(r)]
                    after.tables[other as int].contains(r) && r.external_port == held_port && is_exact(
                        r,
                        src_addr,
                        src_port,
                        next_addr,
                        next_port,
                    );
                assert(rel(other as int, r2, index, serving));
            },
            Lookup::Preferred { index: other, port: held_port } => {
                let r2 = choose|r: Binding|
                    #![trigger after.tables[other as int].contains(r)]
                    after.tables[other as int].contains(r) && r.external_port == held_port
                        && crate::binding::qualifies(
                        r,
                        src_addr,
                        src_port,
                        next_addr,
                        next_port,
                        after.flags,
                    );
                assert(rel(other as int, r2, index, serving));
            },
            Lookup::Fresh => {
                assert(after.scan(index, src_addr, src_port, next_addr, next_port, later).1
                    is Nothing);
                lemma_outbound_scan_offer(
                    after.tables[index],
                    src_addr,
                    src_port,
                    next_addr,
                    next_port,
                    later,
                    after.timeout,
                    after.flags,
                    after.max_table_len(),
                );
                assert(after.tables[index].contains(serving));
                assert(crate::binding::qualifies(
                    serving,
                    src_addr,
                    src_port,
                    next_addr,
                    next_port,
                    after.flags,
                ));
            },
        }
        assert(next_exit.index == exit.index && next_exit.port == exit.port);
        lemma_hairpin_external(
            after.installed(src_addr, src_port, next_addr, next_port, later, next_pick),
            src_addr,
            src_port,
            after.addresses[next_exit.index as int],
            next_exit.port,
            next_addr,
            next_port,
            later,
        );
    }
}

/// Where mapping depends on the destination's address and port, a binding
/// serves one destination only: no search ends with a binding that lends
/// its external endpoint.
pub proof fn lemma_no_lending(
    m: Model,
    src_addr: u32,
    src_port: u16,
    dst_addr: u32,
    dst_port: u16,
    now: i64,
)
    requires
        m.aligned(),
        m.endpoint_dependent(),
    ensures
        !(m.lookup(src_addr, src_port, dst_addr, dst_port, now).1 is Preferred),
{
    lemma_lookup_shape(m, 0, None, src_addr, src_port, dst_addr, dst_port, now);
    match m.lookup(src_addr, src_port, dst_addr, dst_port, now).1 {
        Lookup::Preferred { index, port } => {
            let t = m.tables[index as int];
            let live = live_rows(t, now, m.timeout);
            let exact = crate::binding::exact_test(src_addr, src_port, dst_addr, dst_port);
            let qualify = crate::binding::qualify_test(
                src_addr,
                src_port,
                dst_addr,
                dst_port,
                m.flags,
            );
            lemma_first_where(live, exact);
            crate::search::lemma_last_where(live, qualify);
            let k = crate::search::last_where(live, qualify).unwrap();
            assert(qualify(live[k]));
            assert(!exact(live[k]));
        },
        _ => {},
    }
}

/// Endpoint-dependent mapping: where both mapping dependences are set, two
/// packets of one internal endpoint to different destinations that leave
/// for the external network, the second while the binding of the first is
/// live and in its table, leave from different external endpoints: from
/// different ports if from the same address.
///
/// The law asks that the external addresses differ from each other, that
/// no port has more than one row, that port preservation neither overloads
/// nor overrides, and that the table of the first binding is not full when
/// the second packet comes, so that the binding is not evicted. It leaves
/// out a first packet served by an exact binding found under
/// `OUTBOUND_REFRESH_BEHAVIOR_FALSE`.
pub proof fn law_endpoint_dependent_mapping(
    m: Model,
    src_addr: u32,
    src_port: u16,
    dst_addr: u32,
    dst_port: u16,
    now: i64,
    pick: Pick,
    next_addr: u32,
    next_port: u16,
    later: i64,
    next_pick: Pick,
)
    requires
        m.wf(),
        m.endpoint_dependent(),
        m.ports_unique(),
        !m.overloads(),
        !m.overrides(),
        m.addresses.no_duplicates(),
        dst_addr != next_addr || dst_port != next_port,
        m.allows(src_addr, src_port, dst_addr, dst_port, now, pick),
        m.outbound(src_addr, src_port, dst_addr, dst_port, now, pick).1 is External,
        m.outbound(src_addr, src_port, dst_addr, dst_port, now, pick).0.allows(
            src_addr,
            src_port,
            next_addr,
            next_port,
            later,
            next_pick,
        ),
        !is_set(m.flags, OUTBOUND_REFRESH_BEHAVIOR_FALSE) || !(m.lookup(
            src_addr,
            src_port,
            dst_addr,
            dst_port,
            now,
        ).1 is Exact),
        later - now <= m.timeout,
        m.outbound(src_addr, src_port, dst_addr, dst_port, now, pick).0.tables[m.exit(
            src_addr,
            src_port,
            dst_addr,
            dst_port,
            now,
            pick,
        ).index as int].len() < m.max_table_len(),
    ensures
        ({
            let (after, first) = m.outbound(src_addr, src_port, dst_addr, dst_port, now, pick);
            let second = after.outbound(src_addr, src_port, next_addr, next_port, later, next_pick).1;
            second is External ==> second != first
        }),
{
    let (after, first) = m.outbound(src_addr, src_port, dst_addr, dst_port, now, pick);
    let second = after.outbound(src_addr, src_port, next_addr, next_port, later, next_pick).1;
    lemma_outbound_unfold(m, src_addr, src_port, dst_addr, dst_port, now, pick);
    let exit = m.exit(src_addr, src_port, dst_addr, dst_port, now, pick);
    let installed = m.installed(src_addr, src_port, dst_addr, dst_port, now, pick);
    let index = exit.index as int;
    lemma_hairpin_external(
        installed,
        src_addr,
        src_port,
        m.addresses[index],
        exit.port,
        dst_addr,
        dst_port,
        now,
    );
    lemma_serving_row(m, src_addr, src_port, dst_addr, dst_port, now, pick);
    lemma_no_lending(m, src_addr, src_port, dst_addr, dst_port, now);
    law_ports_unique_outbound(m, src_addr, src_port, dst_addr, dst_port, now, pick);
    assert(after == installed);
    let serving = choose|r: Binding|
        #![trigger is_exact(r, src_addr, src_port, dst_addr, dst_port)]
        {
            &&& after.tables[index].contains(r)
            &&& is_exact(r, src_addr, src_port, dst_addr, dst_port)
            &&& r.external_port == exit.port
            &&& r.last_used_time == now
        };
    if second is External && second == first {
        lemma_outbound_unfold(after, src_addr, src_port, next_addr, next_port, later, next_pick);
        let (searched, found) = after.lookup(src_addr, src_port, next_addr, next_port, later);
        let next_exit = after.exit(src_addr, src_port, next_addr, next_port, later, next_pick);
        lemma_found_row(after, src_addr, src_port, next_addr, next_port, later);
        lemma_lookup_shape(after, 0, None, src_addr, src_port, next_addr, next_port, later);
        lemma_no_lending(after, src_addr, src_port, next_addr, next_port, later);
        lemma_exit_in_range(after, src_addr, src_port, next_addr, next_port, later, next_pick);
        lemma_hairpin_external(
            after.installed(src_addr, src_port, next_addr, next_port, later, next_pick),
            src_addr,
            src_port,
            after.addresses[next_exit.index as int],
            next_exit.port,
            next_addr,
            next_port,
            later,
        );
        assert(after.addresses[next_exit.index as int] == m.addresses[index]);
        assert(next_exit.index == index);
        assert(next_exit.port == exit.port);
        let table = after.tables[index];
        match found {
            Lookup::Exact { index: other, port: held_port } => {
                let r2 = choose|r: Binding|
                    #![trigger after.tables[other as int].contains(r)]
                    after.tables[other as int].contains(r) && r.external_port == held_port && is_exact(
                        r,
                        src_addr,
                        src_port,
                        next_addr,
                        next_port,
                    );
                let at = choose|at: int| 0 <= at < table.len() && table[at] == serving;
                let at2 = choose|at2: int| 0 <= at2 < table.len() && table[at2] == r2;
                assert(ports_unique(table));
                assert(on_port(table, exit.port).len() <= 1);
                if at < at2 {
                    lemma_on_port_two(table, at, at2, exit.port);
                } else {
                    lemma_on_port_two(table, at2, at, exit.port);
                }
            },
            Lookup::Preferred { index: other, port: held_port } => {},
            Lookup::Fresh => {
                let live = live_rows(table, later, after.timeout);
                lemma_live_rows_contains(table, later, after.timeout, serving);
                crate::binding::lemma_live_rows_len(table, later, after.timeout);
                lemma_trimmed_contains(live, after.max_table_len(), serving);
                lemma_first_where(
                    live,
                    crate::binding::exact_test(src_addr, src_port, next_addr, next_port),
                );
                assert(searched.tables[index] == after.scan(
                    index,
                    src_addr,
                    src_port,
                    next_addr,
                    next_port,
                    later,
                ).0);
                assert(searched.tables[index].contains(serving));
                let held = choose|k: int|
                    0 <= k < searched.tables[index].len() && searched.tables[index][k] == serving;
                assert(searched.tables[index][held].external_port == exit.port);
                assert(!port_free(searched.tables[index], exit.port));
            },
        }
    }
}

/// Determinism with a generator of its own: what such a translator does is
/// a function of its state, of its generator's state and of the call. Two
/// translators in the same state, with generators in the same state, give
/// the same answers to the same call and are in the same state after it.
pub proof fn law_determinism_seeded(
    a: Model,
    a_rng: u64,
    b: Model,
    b_rng: u64,
    src_addr: u32,
    src_port: u16,
    dst_addr: u32,
    dst_port: u16,
    bypass: bool,
    now: i64,
)
    requires
        a == b,
        a_rng == b_rng,
    ensures
        crate::simple::spec_assign_intranet_address(a, a_rng)
            == crate::simple::spec_assign_intranet_address(b, b_rng),
        crate::simple::spec_from_intranet(a, a_rng, src_addr, src_port, dst_addr, dst_port, now)
            == crate::simple::spec_from_intranet(
            b,
            b_rng,
            src_addr,
            src_port,
            dst_addr,
            dst_port,
            now,
        ),
        a.inbound(src_addr, src_port, dst_addr, dst_port, bypass, now) == b.inbound(
            src_addr,
            src_port,
            dst_addr,
            dst_port,
            bypass,
            now,
        ),
        a.unregistered(src_addr) == b.unregistered(src_addr),
{
}

/// Determinism with a source of the caller's: the numbers drawn decide.
/// Where two answers to a packet from the inside are each what every stream
/// gives that begins with the numbers drawn, the two are one answer: two
/// translators in the same state whose sources give out the same numbers
/// send the packet the same way and are in the same state after it.
pub proof fn law_determinism_outbound(
    m: Model,
    drawn: Seq<u64>,
    at: int,
    src_addr: u32,
    src_port: u16,
    dst_addr: u32,
    dst_port: u16,
    now: i64,
    lone: bool,
    first: (Model, int, DestType),
    second: (Model, int, DestType),
)
    requires
        forall|s: spec_fn(int) -> u64| #[trigger]
            begins_with(s, drawn) ==> spec_outbound(
                m,
                s,
                at,
                src_addr,
                src_port,
                dst_addr,
                dst_port,
                now,
                lone,
            ) == first,
        forall|s: spec_fn(int) -> u64| #[trigger]
            begins_with(s, drawn) ==> spec_outbound(
                m,
                s,
                at,
                src_addr,
                src_port,
                dst_addr,
                dst_port,
                now,
                lone,
            ) == second,
    ensures
        first == second,
{
    assert(begins_with(stream_of(drawn), drawn));
}

/// The numbers drawn decide the address and the pairing of a new host, as
/// they decide the way of a packet.
pub proof fn law_determinism_assign(
    m: Model,
    drawn: Seq<u64>,
    at: int,
    lone: bool,
    first: (Model, int, u32),
    second: (Model, int, u32),
)
    requires
        forall|s: spec_fn(int) -> u64| #[trigger]
            begins_with(s, drawn) ==> spec_assign(m, s, at, lone) == first,
        forall|s: spec_fn(int) -> u64| #[trigger]
            begins_with(s, drawn) ==> spec_assign(m, s, at, lone) == second,
    ensures
        first == second,
{
    assert(begins_with(stream_of(drawn), drawn));
}

} // verus!
