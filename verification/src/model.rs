//! The translator as a mathematical state machine.
//!
//! A `Model` is the whole state of a translator: its configuration, one
//! binding table for each external address, and the registry of internal
//! hosts. The functions here say what each packet does to that state and
//! where the packet goes. The executable translators are specified by them.

use vstd::prelude::*;
use vstd::set_lib::{lemma_int_range, lemma_len_subset, lemma_map_size, set_int_range};
use crate::binding::{
    port_free, spec_inbound_scan, spec_outbound_scan, without_port, Binding, Reuse,
};
use crate::draws::{arranges, is_candidate};
use crate::flags::{
    is_set, INTERNAL_ADDRESS_AND_PORT_HAIRPINNING, IP_POOLING_BEHAVIOR_ARBITRARY, NO_HAIRPINNING,
    NO_PORT_PRESERVATION, PORT_PRESERVATION_OVERLOAD, PORT_PRESERVATION_OVERRIDE,
};
use crate::router::DestType;
use crate::search::first_where;

verus! {

/// The state of a translator that has seen no packet and no host.
pub open spec fn initial(
    addresses: Seq<u32>,
    internal_first: u32,
    internal_last: u32,
    port_first: u16,
    port_last: u16,
    timeout: i64,
    flags: u32,
) -> Model {
    Model {
        addresses,
        tables: Seq::new(addresses.len(), |i: int| Seq::<Binding>::empty()),
        registry: Map::<u32, usize>::empty(),
        internal_first,
        internal_last,
        port_first,
        port_last,
        timeout,
        flags,
    }
}

/// The state of a translator.
pub struct Model {
    /// The external addresses, in the order they were given.
    pub addresses: Seq<u32>,
    /// The binding table of each external address.
    pub tables: Seq<Seq<Binding>>,
    /// The internal hosts, each with the index of its paired external
    /// address.
    pub registry: Map<u32, usize>,
    /// First address of the internal range.
    pub internal_first: u32,
    /// Last address of the internal range.
    pub internal_last: u32,
    /// First port of the dynamic range.
    pub port_first: u16,
    /// Last port of the dynamic range.
    pub port_last: u16,
    /// How long a binding lives after its last refresh.
    pub timeout: i64,
    /// The behaviour flags.
    pub flags: u32,
}

/// What the search for a reusable binding found.
#[derive(Clone, Copy, Debug, PartialEq, Eq, Structural)]
pub enum Lookup {
    /// A binding of the sender to this destination, in table `index`.
    Exact { index: usize, port: u16 },
    /// A binding of the sender that may serve this destination too.
    Preferred { index: usize, port: u16 },
    /// Nothing: a new external endpoint has to be selected.
    Fresh,
}

/// The external endpoint selected for a new binding.
#[derive(Clone, Copy, Debug, PartialEq, Eq, Structural)]
pub struct Pick {
    /// Index of the external address.
    pub index: usize,
    /// The external port.
    pub port: u16,
    /// Whether bindings already on the port stay beside the new one. Where
    /// it is false they are displaced.
    pub shared: bool,
}

/// What the search for a binding left to do.
#[derive(Clone, Copy, Debug, PartialEq, Eq, Structural)]
pub enum Resolution {
    /// Nothing: the packet goes there.
    Settled(DestType),
    /// An external endpoint has to be selected for a new binding, on the
    /// table of this index if the sender is paired.
    Open(Option<usize>),
}

/// A pick for packets that need none.
pub open spec fn idle_pick() -> Pick {
    Pick { index: 0, port: 0, shared: false }
}

/// The test "is the address `addr`".
pub open spec fn address_test(addr: u32) -> spec_fn(u32) -> bool {
    |a: u32| a == addr
}

/// The test "the table at this index has no row on `port`".
pub open spec fn free_test(tables: Seq<Seq<Binding>>, port: u16) -> spec_fn(usize) -> bool {
    |i: usize| port_free(tables[i as int], port)
}

/// The binding that an outbound packet creates.
pub open spec fn new_binding(
    src_addr: u32,
    src_port: u16,
    port: u16,
    dst_addr: u32,
    dst_port: u16,
    now: i64,
) -> Binding {
    Binding {
        internal_addr: src_addr,
        internal_port: src_port,
        external_port: port,
        remote_addr: dst_addr,
        remote_port: dst_port,
        last_used_time: now,
    }
}

impl Model {
    /// The number of rows at which a table makes room before it takes
    /// another: two fifths of the size of the dynamic port range.
    pub open spec fn max_table_len(self) -> usize {
        ((self.port_last - self.port_first + 1) * 2 / 5) as usize
    }

    /// The most rows a table ever holds.
    pub open spec fn capacity(self) -> int {
        if self.max_table_len() >= 1 {
            self.max_table_len() as int
        } else {
            1
        }
    }

    /// There is one table for each external address.
    pub open spec fn aligned(self) -> bool {
        self.tables.len() == self.addresses.len() && self.tables.len() <= usize::MAX
    }

    /// The state is one that a translator can be in.
    pub open spec fn wf(self) -> bool {
        &&& 1 <= self.addresses.len() <= usize::MAX
        &&& self.tables.len() == self.addresses.len()
        &&& self.internal_first <= self.internal_last
        &&& self.port_first <= self.port_last
        &&& self.registry.dom().finite()
        &&& forall|a: u32| #[trigger]
            self.registry.contains_key(a) ==> self.is_internal(a) && self.registry[a]
                < self.addresses.len()
        &&& forall|i: int|
            0 <= i < self.tables.len() ==> (#[trigger] self.tables[i]).len() <= self.capacity()
    }

    /// The state differs from `before` in the rows of its tables at most.
    pub open spec fn keeps(self, before: Model) -> bool {
        &&& self == before.with_tables(self.tables)
        &&& self.tables.len() == before.tables.len()
    }

    /// The same state with other tables.
    pub open spec fn with_tables(self, tables: Seq<Seq<Binding>>) -> Model {
        Model { tables, ..self }
    }

    /// The index of the first external address equal to `addr`.
    pub open spec fn address_index(self, addr: u32) -> Option<int> {
        first_where(self.addresses, address_test(addr))
    }

    /// `addr` is one of the external addresses.
    pub open spec fn owns(self, addr: u32) -> bool {
        self.addresses.contains(addr)
    }

    /// `addr` lies in the internal address range.
    pub open spec fn is_internal(self, addr: u32) -> bool {
        self.internal_first <= addr <= self.internal_last
    }

    /// The external address that the sender must use, if pooling is paired.
    pub open spec fn paired(self, src_addr: u32) -> Option<usize> {
        if is_set(self.flags, IP_POOLING_BEHAVIOR_ARBITRARY) {
            None
        } else {
            Some(self.registry[src_addr])
        }
    }

    /// What a packet from the outside does, and the internal endpoint it is
    /// delivered to.
    ///
    /// A packet to an address that is not the translator's changes nothing
    /// and is not delivered. Otherwise the table of the first external
    /// address equal to `dst_addr` takes the packet.
    pub open spec fn inbound(
        self,
        src_addr: u32,
        src_port: u16,
        dst_addr: u32,
        dst_port: u16,
        bypass: bool,
        now: i64,
    ) -> (Model, Option<(u32, u16)>) {
        match self.address_index(dst_addr) {
            Some(i) => {
                let (table, target) = spec_inbound_scan(
                    self.tables[i],
                    src_addr,
                    src_port,
                    dst_port,
                    bypass,
                    now,
                    self.timeout,
                    self.flags,
                );
                (self.with_tables(self.tables.update(i, table)), target)
            },
            None => (self, None),
        }
    }

    /// The search for a reusable binding from table `from` on, with `held`
    /// the offer of the tables before it.
    ///
    /// Tables are visited in order. A table with an exact binding ends the
    /// search. Any other table makes room, and its offer replaces the one
    /// held.
    pub open spec fn lookup_from(
        self,
        from: int,
        held: Option<(usize, u16)>,
        src_addr: u32,
        src_port: u16,
        dst_addr: u32,
        dst_port: u16,
        now: i64,
    ) -> (Model, Lookup)
        decreases self.tables.len() - from,
    {
        if from < 0 || from >= self.tables.len() {
            (
                self,
                match held {
                    Some((index, port)) => Lookup::Preferred { index, port },
                    None => Lookup::Fresh,
                },
            )
        } else {
            let (table, reuse) = spec_outbound_scan(
                self.tables[from],
                src_addr,
                src_port,
                dst_addr,
                dst_port,
                now,
                self.timeout,
                self.flags,
                self.max_table_len(),
            );
            let next = self.with_tables(self.tables.update(from, table));
            match reuse {
                Reuse::Exact(port) => (next, Lookup::Exact { index: from as usize, port }),
                Reuse::Preferred(port) => next.lookup_from(
                    from + 1,
                    Some((from as usize, port)),
                    src_addr,
                    src_port,
                    dst_addr,
                    dst_port,
                    now,
                ),
                Reuse::Nothing => next.lookup_from(
                    from + 1,
                    held,
                    src_addr,
                    src_port,
                    dst_addr,
                    dst_port,
                    now,
                ),
            }
        }
    }

    /// The search for a reusable binding over all tables.
    pub open spec fn lookup(
        self,
        src_addr: u32,
        src_port: u16,
        dst_addr: u32,
        dst_port: u16,
        now: i64,
    ) -> (Model, Lookup) {
        self.lookup_from(0, None, src_addr, src_port, dst_addr, dst_port, now)
    }

    /// Table `i` may take a new binding of a sender with this pairing.
    pub open spec fn eligible(self, paired: Option<usize>, i: usize) -> bool {
        &&& i < self.tables.len()
        &&& paired matches Some(p) ==> i == p
    }

    /// Some eligible table has no row on `port`.
    pub open spec fn some_table_free(self, paired: Option<usize>, port: u16) -> bool {
        exists|i: usize| #[trigger] self.eligible(paired, i) && port_free(self.tables[i as int], port)
    }

    /// `pick` is an external endpoint that the selection rules allow for a
    /// new binding of a sender on `src_port`.
    ///
    /// With port preservation, the sender's own port is taken on an eligible
    /// table where it is free. Where it is free on none, it is shared under
    /// `PORT_PRESERVATION_OVERLOAD`, and otherwise taken over under
    /// `PORT_PRESERVATION_OVERRIDE`. In every other case the port is a
    /// candidate of the dynamic range that is free on the table picked.
    pub open spec fn fits(self, paired: Option<usize>, src_port: u16, pick: Pick) -> bool {
        &&& self.eligible(paired, pick.index)
        &&& if !is_set(self.flags, NO_PORT_PRESERVATION) && self.some_table_free(paired, src_port) {
            &&& pick.port == src_port
            &&& !pick.shared
            &&& port_free(self.tables[pick.index as int], src_port)
        } else if !is_set(self.flags, NO_PORT_PRESERVATION) && is_set(
            self.flags,
            PORT_PRESERVATION_OVERLOAD,
        ) {
            &&& pick.port == src_port
            &&& pick.shared
        } else if !is_set(self.flags, NO_PORT_PRESERVATION) && is_set(
            self.flags,
            PORT_PRESERVATION_OVERRIDE,
        ) {
            &&& pick.port == src_port
            &&& !pick.shared
        } else {
            &&& !pick.shared
            &&& is_candidate(pick.port, self.port_first, self.port_last, src_port, self.flags)
            &&& port_free(self.tables[pick.index as int], pick.port)
        }
    }

    /// The state after a new binding took the place that `pick` names.
    pub open spec fn placed(self, pick: Pick, b: Binding) -> Model {
        let table = self.tables[pick.index as int];
        let cleared = if pick.shared {
            table
        } else {
            without_port(table, pick.port)
        };
        self.with_tables(self.tables.update(pick.index as int, cleared.push(b)))
    }

    /// Where a packet goes once its external source `(ext_addr, ext_port)`
    /// is settled.
    ///
    /// The packet is offered to the translator's own tables with the filter
    /// bypassed. Where a binding takes it, it turns back to that binding's
    /// internal endpoint, with the sender's internal endpoint as its source
    /// under `INTERNAL_ADDRESS_AND_PORT_HAIRPINNING` and the external source
    /// otherwise. Where none takes it, it is dropped if it was addressed to
    /// the translator, and leaves for the external network if not.
    pub open spec fn hairpin(
        self,
        src_addr: u32,
        src_port: u16,
        ext_addr: u32,
        ext_port: u16,
        dst_addr: u32,
        dst_port: u16,
        now: i64,
    ) -> (Model, DestType) {
        let (after, target) = self.inbound(ext_addr, ext_port, dst_addr, dst_port, true, now);
        match target {
            Some((addr, port)) => (
                after,
                if is_set(self.flags, INTERNAL_ADDRESS_AND_PORT_HAIRPINNING) {
                    DestType::Internal {
                        external_src_addr: src_addr,
                        external_src_port: src_port,
                        internal_dest_addr: addr,
                        internal_dest_port: port,
                    }
                } else {
                    DestType::Internal {
                        external_src_addr: ext_addr,
                        external_src_port: ext_port,
                        internal_dest_addr: addr,
                        internal_dest_port: port,
                    }
                },
            ),
            None => (
                after,
                if self.owns(dst_addr) {
                    DestType::Drop
                } else {
                    DestType::External { external_src_addr: ext_addr, external_src_port: ext_port }
                },
            ),
        }
    }

    /// What a packet from the inside does, and where it goes, with `pick`
    /// the external endpoint to use if a new one is needed.
    ///
    /// In order: a packet to an internal address stays inside unchanged; a
    /// packet to one of the translator's addresses is dropped under
    /// `NO_HAIRPINNING`; a packet from an unregistered host is dropped.
    /// Otherwise the tables are searched. An exact binding serves as it is.
    /// A preferred binding lends its external endpoint to a new binding.
    /// Failing both, the new binding takes the endpoint that `pick` names.
    pub open spec fn outbound(
        self,
        src_addr: u32,
        src_port: u16,
        dst_addr: u32,
        dst_port: u16,
        now: i64,
        pick: Pick,
    ) -> (Model, DestType) {
        if self.is_internal(dst_addr) {
            (
                self,
                DestType::Internal {
                    external_src_addr: src_addr,
                    external_src_port: src_port,
                    internal_dest_addr: dst_addr,
                    internal_dest_port: dst_port,
                },
            )
        } else if is_set(self.flags, NO_HAIRPINNING) && self.owns(dst_addr) {
            (self, DestType::Drop)
        } else if !self.registry.contains_key(src_addr) {
            (self, DestType::Drop)
        } else {
            let (searched, found) = self.lookup(src_addr, src_port, dst_addr, dst_port, now);
            match found {
                Lookup::Exact { index, port } => searched.hairpin(
                    src_addr,
                    src_port,
                    self.addresses[index as int],
                    port,
                    dst_addr,
                    dst_port,
                    now,
                ),
                Lookup::Preferred { index, port } => searched.placed(
                    Pick { index, port, shared: true },
                    new_binding(src_addr, src_port, port, dst_addr, dst_port, now),
                ).hairpin(
                    src_addr,
                    src_port,
                    self.addresses[index as int],
                    port,
                    dst_addr,
                    dst_port,
                    now,
                ),
                Lookup::Fresh => searched.placed(
                    pick,
                    new_binding(src_addr, src_port, pick.port, dst_addr, dst_port, now),
                ).hairpin(
                    src_addr,
                    src_port,
                    self.addresses[pick.index as int],
                    pick.port,
                    dst_addr,
                    dst_port,
                    now,
                ),
            }
        }
    }

    /// After a search that found `found`, the table that is to take a new
    /// binding has room for it: every table after a search without an exact
    /// binding.
    pub open spec fn has_room(self, found: Lookup) -> bool {
        &&& found matches Lookup::Exact { index, .. } ==> index < self.tables.len()
        &&& found matches Lookup::Preferred { index, .. } ==> index < self.tables.len()
        &&& !(found is Exact) ==> forall|i: int|
            0 <= i < self.tables.len() ==> (#[trigger] self.tables[i]).len() < self.capacity()
    }

    /// The outbound packet needs a newly selected external endpoint.
    pub open spec fn needs_pick(
        self,
        src_addr: u32,
        src_port: u16,
        dst_addr: u32,
        dst_port: u16,
        now: i64,
    ) -> bool {
        &&& !self.is_internal(dst_addr)
        &&& !(is_set(self.flags, NO_HAIRPINNING) && self.owns(dst_addr))
        &&& self.registry.contains_key(src_addr)
        &&& self.lookup(src_addr, src_port, dst_addr, dst_port, now).1 is Fresh
    }

    /// The external port must be drawn: port preservation is off, or the
    /// sender's port is taken on every eligible table and may be neither
    /// shared nor taken over.
    pub open spec fn must_draw(self, paired: Option<usize>, src_port: u16) -> bool {
        ||| is_set(self.flags, NO_PORT_PRESERVATION)
        ||| {
            &&& !self.some_table_free(paired, src_port)
            &&& !is_set(self.flags, PORT_PRESERVATION_OVERLOAD)
            &&& !is_set(self.flags, PORT_PRESERVATION_OVERRIDE)
        }
    }

    /// What port preservation selects when the eligible tables are tried in
    /// the order `order`: the sender's port on the first table where it is
    /// free; failing that, on the first table of the order, shared under
    /// `PORT_PRESERVATION_OVERLOAD` or taken over under
    /// `PORT_PRESERVATION_OVERRIDE`; failing those, nothing.
    pub open spec fn preserved(self, order: Seq<usize>, src_port: u16) -> Option<Pick> {
        match first_where(order, free_test(self.tables, src_port)) {
            Some(k) => Some(Pick { index: order[k], port: src_port, shared: false }),
            None => if is_set(self.flags, PORT_PRESERVATION_OVERLOAD) {
                Some(Pick { index: order[0], port: src_port, shared: true })
            } else if is_set(self.flags, PORT_PRESERVATION_OVERRIDE) {
                Some(Pick { index: order[0], port: src_port, shared: false })
            } else {
                None
            },
        }
    }

    /// `order` lists the tables that a sender with this pairing may use: the
    /// paired table alone, or every table once.
    pub open spec fn is_order(self, paired: Option<usize>, order: Seq<usize>) -> bool {
        match paired {
            Some(p) => order == seq![p] && p < self.tables.len(),
            None => arranges(order, self.tables.len() as usize),
        }
    }

    /// `addr` is the lowest address of the internal range that is not
    /// registered.
    pub open spec fn is_first_unregistered(self, addr: u32) -> bool {
        &&& self.is_internal(addr)
        &&& !self.registry.contains_key(addr)
        &&& forall|a: u32|
            self.internal_first <= a < addr ==> #[trigger] self.registry.contains_key(a)
    }

    /// The lowest address of the internal range that is not registered.
    pub open spec fn first_unregistered(self) -> u32 {
        choose|addr: u32| self.is_first_unregistered(addr)
    }

    /// The addresses of the internal range.
    pub open spec fn internal_set(self) -> Set<u32> {
        Set::new(|a: u32| self.is_internal(a))
    }

    /// Some address of the internal range is not registered.
    pub open spec fn has_spare_address(self) -> bool {
        exists|a: u32| self.is_internal(a) && !#[trigger] self.registry.contains_key(a)
    }

    /// What the first part of an outbound packet's way leaves, and what is
    /// left to do: everything up to the selection of a new external
    /// endpoint, and all of it where none has to be selected.
    pub open spec fn resolved(
        self,
        src_addr: u32,
        src_port: u16,
        dst_addr: u32,
        dst_port: u16,
        now: i64,
    ) -> (Model, Resolution) {
        if self.needs_pick(src_addr, src_port, dst_addr, dst_port, now) {
            (
                self.lookup(src_addr, src_port, dst_addr, dst_port, now).0,
                Resolution::Open(self.paired(src_addr)),
            )
        } else {
            let (after, dest) = self.outbound(
                src_addr,
                src_port,
                dst_addr,
                dst_port,
                now,
                idle_pick(),
            );
            (after, Resolution::Settled(dest))
        }
    }

    /// What the rest of an outbound packet's way does once `pick` is
    /// selected: the new binding takes its place and the packet leaves from
    /// it.
    pub open spec fn completed(
        self,
        pick: Pick,
        src_addr: u32,
        src_port: u16,
        dst_addr: u32,
        dst_port: u16,
        now: i64,
    ) -> (Model, DestType) {
        self.placed(
            pick,
            new_binding(src_addr, src_port, pick.port, dst_addr, dst_port, now),
        ).hairpin(
            src_addr,
            src_port,
            self.addresses[pick.index as int],
            pick.port,
            dst_addr,
            dst_port,
            now,
        )
    }

    /// `pick` is an external endpoint that the selection rules allow for
    /// the outbound packet, if one has to be selected for it.
    pub open spec fn allows(
        self,
        src_addr: u32,
        src_port: u16,
        dst_addr: u32,
        dst_port: u16,
        now: i64,
        pick: Pick,
    ) -> bool {
        self.needs_pick(src_addr, src_port, dst_addr, dst_port, now) ==> self.lookup(
            src_addr,
            src_port,
            dst_addr,
            dst_port,
            now,
        ).0.fits(self.paired(src_addr), src_port, pick)
    }

    /// `after` and `dest` are what the outbound packet leaves and where it
    /// goes when `pick` is the external endpoint selected, and `pick` is one
    /// that the selection rules allow wherever an endpoint has to be
    /// selected.
    pub open spec fn sends(
        self,
        src_addr: u32,
        src_port: u16,
        dst_addr: u32,
        dst_port: u16,
        now: i64,
        pick: Pick,
        after: Model,
        dest: DestType,
    ) -> bool {
        &&& self.allows(src_addr, src_port, dst_addr, dst_port, now, pick)
        &&& (after, dest) == self.outbound(src_addr, src_port, dst_addr, dst_port, now, pick)
    }

    /// The state after the host `addr` was registered with the external
    /// address at `index`.
    pub open spec fn registered(self, addr: u32, index: usize) -> Model {
        Model { registry: self.registry.insert(addr, index), ..self }
    }

    /// The state after the host `addr` was removed from the registry.
    pub open spec fn unregistered(self, addr: u32) -> Model {
        Model { registry: self.registry.remove(addr), ..self }
    }
}

/// The lowest unregistered address is unique.
pub proof fn lemma_first_unregistered_is(m: Model, addr: u32)
    requires
        m.is_first_unregistered(addr),
    ensures
        m.first_unregistered() == addr,
{
    let c = m.first_unregistered();
    assert(m.is_first_unregistered(c));
    if c < addr {
        assert(m.registry.contains_key(c));
    } else if addr < c {
        assert(m.registry.contains_key(addr));
    }
}

/// The search changes nothing but the tables, and keeps their number.
pub proof fn lemma_lookup_frame(
    m: Model,
    from: int,
    held: Option<(usize, u16)>,
    src_addr: u32,
    src_port: u16,
    dst_addr: u32,
    dst_port: u16,
    now: i64,
)
    ensures
        ({
            let after = m.lookup_from(from, held, src_addr, src_port, dst_addr, dst_port, now).0;
            &&& after == m.with_tables(after.tables)
            &&& after.tables.len() == m.tables.len()
        }),
    decreases m.tables.len() - from,
{
    if 0 <= from < m.tables.len() {
        let (table, reuse) = spec_outbound_scan(
            m.tables[from],
            src_addr,
            src_port,
            dst_addr,
            dst_port,
            now,
            m.timeout,
            m.flags,
            m.max_table_len(),
        );
        let next = m.with_tables(m.tables.update(from, table));
        match reuse {
            Reuse::Exact(port) => {},
            Reuse::Preferred(port) => {
                lemma_lookup_frame(
                    next,
                    from + 1,
                    Some((from as usize, port)),
                    src_addr,
                    src_port,
                    dst_addr,
                    dst_port,
                    now,
                );
            },
            Reuse::Nothing => {
                lemma_lookup_frame(next, from + 1, held, src_addr, src_port, dst_addr, dst_port, now);
            },
        }
    } else {
        assert(m == m.with_tables(m.tables));
    }
}

/// A pick that port preservation selects from a full order of the eligible
/// tables fits the selection rules, and where it selects nothing the port
/// must be drawn.
pub proof fn lemma_preserved_fits(m: Model, paired: Option<usize>, order: Seq<usize>, src_port: u16)
    requires
        m.tables.len() >= 1,
        m.tables.len() <= usize::MAX,
        m.is_order(paired, order),
        !is_set(m.flags, NO_PORT_PRESERVATION),
    ensures
        match m.preserved(order, src_port) {
            Some(pick) => m.fits(paired, src_port, pick),
            None => m.must_draw(paired, src_port),
        },
{
    let p = free_test(m.tables, src_port);
    crate::search::lemma_first_where(order, p);
    assert(order.len() >= 1);
    assert(m.eligible(paired, order[0]));
    match first_where(order, p) {
        Some(k) => {
            assert(p(order[k]));
            assert(m.eligible(paired, order[k]));
        },
        None => {
            assert forall|i: usize| #[trigger] m.eligible(paired, i) implies !port_free(
                m.tables[i as int],
                src_port,
            ) by {
                assert(order.contains(i));
                let k = choose|k: int| 0 <= k < order.len() && order[k] == i;
                assert(!p(order[k]));
            }
        },
    }
}

/// A drawn port that is free on an eligible table fits the selection rules
/// wherever the port must be drawn.
pub proof fn lemma_drawn_fits(m: Model, paired: Option<usize>, src_port: u16, pick: Pick)
    requires
        m.must_draw(paired, src_port),
        m.eligible(paired, pick.index),
        !pick.shared,
        is_candidate(pick.port, m.port_first, m.port_last, src_port, m.flags),
        port_free(m.tables[pick.index as int], pick.port),
    ensures
        m.fits(paired, src_port, pick),
{
}

/// An outbound packet is its first part followed, where an endpoint has to
/// be selected, by the rest; and where none has to be, the pick is of no
/// account.
pub proof fn lemma_outbound_in_parts(
    m: Model,
    src_addr: u32,
    src_port: u16,
    dst_addr: u32,
    dst_port: u16,
    now: i64,
    pick: Pick,
)
    ensures
        m.outbound(src_addr, src_port, dst_addr, dst_port, now, pick) == match m.resolved(
            src_addr,
            src_port,
            dst_addr,
            dst_port,
            now,
        ) {
            (after, Resolution::Settled(dest)) => (after, dest),
            (searched, Resolution::Open(_)) => searched.completed(
                pick,
                src_addr,
                src_port,
                dst_addr,
                dst_port,
                now,
            ),
        },
{
    lemma_lookup_frame(m, 0, None, src_addr, src_port, dst_addr, dst_port, now);
}

/// The internal range holds as many addresses as lie between its ends.
pub proof fn lemma_internal_set_len(m: Model)
    requires
        m.internal_first <= m.internal_last,
    ensures
        m.internal_set().finite(),
        m.internal_set().len() == m.internal_last - m.internal_first + 1,
{
    let ints = set_int_range(m.internal_first as int, m.internal_last as int + 1);
    let f = |i: int| i as u32;
    lemma_int_range(m.internal_first as int, m.internal_last as int + 1);
    assert(vstd::relations::injective_on(f, ints));
    assert forall|a: u32| m.internal_set().contains(a) implies #[trigger] ints.map(f).contains(
        a,
    ) by {
        assert(ints.contains(a as int));
        assert(f(a as int) == a);
    }
    assert(ints.map(f) =~= m.internal_set());
    lemma_map_size(ints, m.internal_set(), f);
}

/// An address of the internal range is spare exactly when fewer hosts are
/// registered than the range holds addresses.
pub proof fn lemma_spare_iff_fewer(m: Model)
    requires
        m.wf(),
    ensures
        m.has_spare_address() <==> m.registry.dom().len() < m.internal_last - m.internal_first + 1,
{
    let range = m.internal_set();
    let hosts = m.registry.dom();
    lemma_internal_set_len(m);
    assert(hosts.subset_of(range)) by {
        assert forall|a: u32| hosts.contains(a) implies range.contains(a) by {
            assert(m.registry.contains_key(a));
        }
    }
    lemma_len_subset(hosts, range);
    if m.has_spare_address() {
        let spare = choose|a: u32| m.is_internal(a) && !#[trigger] m.registry.contains_key(a);
        assert(hosts.subset_of(range.remove(spare)));
        lemma_len_subset(hosts, range.remove(spare));
    } else if hosts.len() < range.len() {
        assert(range.subset_of(hosts)) by {
            assert forall|a: u32| range.contains(a) implies hosts.contains(a) by {
                assert(m.registry.contains_key(a));
            }
        }
        lemma_len_subset(range, hosts);
    }
}

} // verus!
