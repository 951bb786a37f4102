//! The translator's state in memory, and the steps that take no random
//! number.

use vstd::prelude::*;
use std::collections::HashMap;
use crate::binding::{
    inbound_scan, lemma_inbound_scan_len, lemma_outbound_scan_len, lemma_without_port_len,
    outbound_scan, port_free, port_is_free, purge_port, table_views, Binding, Reuse,
};
use crate::draws::{first_free_port, is_candidate, spec_first_free_port};
use crate::flags::{
    has_flag, is_set, INTERNAL_ADDRESS_AND_PORT_HAIRPINNING, IP_POOLING_BEHAVIOR_ARBITRARY,
    NO_HAIRPINNING, NO_PORT_PRESERVATION, PORT_PRESERVATION_OVERLOAD, PORT_PRESERVATION_OVERRIDE,
};
use crate::model::{
    address_test, free_test, lemma_first_unregistered_is, lemma_lookup_frame, lemma_preserved_fits,
    lemma_spare_iff_fewer, Lookup, Model, Pick, Resolution,
};
use crate::router::DestType;
use crate::search::{first_where, lemma_first_where_is, lemma_first_where_none, position};

verus! {

/// The state of a translator: configuration, binding tables and registry.
pub struct Engine {
    addresses: Vec<u32>,
    tables: Vec<Vec<Binding>>,
    registry: HashMap<u32, usize>,
    internal_first: u32,
    internal_last: u32,
    port_first: u16,
    port_last: u16,
    max_table_len: usize,
    timeout: i64,
    flags: u32,
}

impl View for Engine {
    type V = Model;

    closed spec fn view(&self) -> Model {
        Model {
            addresses: self.addresses@,
            tables: table_views(self.tables@),
            registry: self.registry@,
            internal_first: self.internal_first,
            internal_last: self.internal_last,
            port_first: self.port_first,
            port_last: self.port_last,
            timeout: self.timeout,
            flags: self.flags,
        }
    }
}

impl Engine {
    /// The stored table limit is the one that the port range gives.
    pub closed spec fn inv(&self) -> bool {
        self.max_table_len == self@.max_table_len()
    }

    /// The state is one that a translator can be in.
    pub open spec fn wf(&self) -> bool {
        self.inv() && self@.wf()
    }

    /// A translator with empty tables and an empty registry.
    pub fn new(
        addresses: Vec<u32>,
        internal_first: u32,
        internal_last: u32,
        port_first: u16,
        port_last: u16,
        timeout: i64,
        flags: u32,
    ) -> (engine: Engine)
        requires
            addresses.len() >= 1,
            internal_first <= internal_last,
            port_first <= port_last,
        ensures
            engine.wf(),
            engine@.addresses == addresses@,
            engine@.tables == Seq::new(addresses@.len(), |i: int| Seq::<Binding>::empty()),
            engine@.registry == Map::<u32, usize>::empty(),
            engine@.internal_first == internal_first,
            engine@.internal_last == internal_last,
            engine@.port_first == port_first,
            engine@.port_last == port_last,
            engine@.timeout == timeout,
            engine@.flags == flags,
    {
        broadcast use vstd::std_specs::hash::group_hash_axioms;

        let mut tables: Vec<Vec<Binding>> = Vec::new();
        let mut i: usize = 0;
        while i < addresses.len()
            invariant
                i <= addresses.len(),
                tables@.len() == i,
                forall|k: int| 0 <= k < i ==> (#[trigger] tables@[k])@ == Seq::<Binding>::empty(),
            decreases addresses.len() - i,
        {
            tables.push(Vec::new());
            i += 1;
        }
        let span: usize = (port_last - port_first) as usize + 1;
        let engine = Engine {
            addresses,
            tables,
            registry: HashMap::new(),
            internal_first,
            internal_last,
            port_first,
            port_last,
            max_table_len: span * 2 / 5,
            timeout,
            flags,
        };
        assert(engine@.tables =~= Seq::new(addresses@.len(), |i: int| Seq::<Binding>::empty()));
        engine
    }

    /// The external addresses.
    pub fn addresses(&self) -> (list: &[u32])
        ensures
            list@ == self@.addresses,
    {
        self.addresses.as_slice()
    }

    /// The behaviour flags.
    pub fn flags(&self) -> (flags: u32)
        ensures
            flags == self@.flags,
    {
        self.flags
    }

    /// How long a binding lives after its last refresh.
    pub fn timeout(&self) -> (timeout: i64)
        ensures
            timeout == self@.timeout,
    {
        self.timeout
    }

    /// The internal address range, first and last.
    pub fn internal_range(&self) -> (range: (u32, u32))
        ensures
            range == (self@.internal_first, self@.internal_last),
    {
        (self.internal_first, self.internal_last)
    }

    /// The dynamic port range, first and last.
    pub fn port_range(&self) -> (range: (u16, u16))
        ensures
            range == (self@.port_first, self@.port_last),
    {
        (self.port_first, self.port_last)
    }

    /// The number of external addresses.
    pub fn address_count(&self) -> (count: usize)
        requires
            self.wf(),
        ensures
            count == self@.addresses.len(),
            count == self@.tables.len(),
            count >= 1,
    {
        self.addresses.len()
    }

    /// The external address at `index`.
    pub fn address_at(&self, index: usize) -> (addr: u32)
        requires
            index < self@.addresses.len(),
        ensures
            addr == self@.addresses[index as int],
    {
        self.addresses[index]
    }

    /// The rows of the table at `index`, oldest insertion first.
    pub fn table(&self, index: usize) -> (rows: &[Binding])
        requires
            index < self@.tables.len(),
        ensures
            rows@ == self@.tables[index as int],
    {
        self.tables[index].as_slice()
    }

    /// The index of the first external address equal to `addr`.
    pub fn index_of(&self, addr: u32) -> (found: Option<usize>)
        ensures
            position(found) == self@.address_index(addr),
            found is Some == self@.owns(addr),
            found matches Some(i) ==> i < self@.addresses.len(),
    {
        let ghost p = address_test(addr);
        let mut i: usize = 0;
        while i < self.addresses.len()
            invariant
                i <= self.addresses.len(),
                p == address_test(addr),
                forall|j: int| 0 <= j < i ==> !p(#[trigger] self.addresses@[j]),
            decreases self.addresses.len() - i,
        {
            if self.addresses[i] == addr {
                proof {
                    lemma_first_where_is(self.addresses@, p, i as int);
                    assert(self.addresses@[i as int] == addr);
                }
                return Some(i);
            }
            i += 1;
        }
        proof {
            lemma_first_where_none(self.addresses@, p);
            assert forall|j: int| 0 <= j < self.addresses@.len() implies self.addresses@[j]
                != addr by {
                assert(!p(self.addresses@[j]));
            }
        }
        None
    }

    /// Whether `addr` lies in the internal address range.
    pub fn is_internal(&self, addr: u32) -> (yes: bool)
        ensures
            yes == self@.is_internal(addr),
    {
        self.internal_first <= addr && addr <= self.internal_last
    }

    /// The paired index of a registered host.
    pub fn registered_index(&self, addr: u32) -> (found: Option<usize>)
        ensures
            found is Some == self@.registry.contains_key(addr),
            found matches Some(i) ==> i == self@.registry[addr],
    {
        broadcast use vstd::std_specs::hash::group_hash_axioms;

        match self.registry.get(&addr) {
            Some(index) => Some(*index),
            None => None,
        }
    }

    /// Registers the host `addr` with the external address at `index`.
    pub fn register(&mut self, addr: u32, index: usize)
        requires
            old(self).wf(),
            old(self)@.is_internal(addr),
            index < old(self)@.addresses.len(),
        ensures
            final(self).wf(),
            final(self)@ == old(self)@.registered(addr, index),
    {
        broadcast use vstd::std_specs::hash::group_hash_axioms;

        self.registry.insert(addr, index);
    }

    /// Removes the host `addr` from the registry.
    pub fn unregister(&mut self, addr: u32)
        requires
            old(self).wf(),
        ensures
            final(self).wf(),
            final(self)@ == old(self)@.unregistered(addr),
    {
        broadcast use vstd::std_specs::hash::group_hash_axioms;

        self.registry.remove(&addr);
    }
}

impl Engine {
    /// Takes a packet from the outside and returns the internal endpoint it
    /// is delivered to, if any.
    pub fn inbound(
        &mut self,
        src_addr: u32,
        src_port: u16,
        dst_addr: u32,
        dst_port: u16,
        bypass: bool,
        now: i64,
    ) -> (target: Option<(u32, u16)>)
        requires
            old(self).wf(),
        ensures
            final(self).wf(),
            final(self)@.keeps(old(self)@),
            (final(self)@, target) == old(self)@.inbound(
                src_addr,
                src_port,
                dst_addr,
                dst_port,
                bypass,
                now,
            ),
    {
        match self.index_of(dst_addr) {
            Some(i) => {
                let ghost before = self@;
                let timeout = self.timeout;
                let flags = self.flags;
                let target = inbound_scan(
                    &mut self.tables[i],
                    src_addr,
                    src_port,
                    dst_port,
                    bypass,
                    now,
                    timeout,
                    flags,
                );
                proof {
                    lemma_inbound_scan_len(
                        before.tables[i as int],
                        src_addr,
                        src_port,
                        dst_port,
                        bypass,
                        now,
                        timeout,
                        flags,
                    );
                    assert(self@.tables =~= before.tables.update(
                        i as int,
                        self@.tables[i as int],
                    ));
                }
                target
            },
            None => None,
        }
    }

    /// Searches the tables for a binding that an outbound packet can reuse.
    pub fn lookup(
        &mut self,
        src_addr: u32,
        src_port: u16,
        dst_addr: u32,
        dst_port: u16,
        now: i64,
    ) -> (found: Lookup)
        requires
            old(self).wf(),
        ensures
            final(self).wf(),
            final(self)@.keeps(old(self)@),
            (final(self)@, found) == old(self)@.lookup(src_addr, src_port, dst_addr, dst_port, now),
            final(self)@.has_room(found),
    {
        let ghost start = self@;
        let mut held: Option<(usize, u16)> = None;
        let mut a: usize = 0;
        while a < self.tables.len()
            invariant
                self.wf(),
                start == old(self)@,
                self@.keeps(start),
                a <= self@.tables.len(),
                self@.lookup_from(a as int, held, src_addr, src_port, dst_addr, dst_port, now)
                    == start.lookup(src_addr, src_port, dst_addr, dst_port, now),
                forall|i: int| 0 <= i < a ==> (#[trigger] self@.tables[i]).len() < self@.capacity(),
                held matches Some((index, _)) ==> index < self@.tables.len(),
            decreases self.tables.len() - a,
        {
            let ghost before = self@;
            let timeout = self.timeout;
            let flags = self.flags;
            let max_len = self.max_table_len;
            let reuse = outbound_scan(
                &mut self.tables[a],
                src_addr,
                src_port,
                dst_addr,
                dst_port,
                now,
                timeout,
                flags,
                max_len,
            );
            proof {
                lemma_outbound_scan_len(
                    before.tables[a as int],
                    src_addr,
                    src_port,
                    dst_addr,
                    dst_port,
                    now,
                    timeout,
                    flags,
                    max_len,
                );
                assert(self@.tables =~= before.tables.update(a as int, self@.tables[a as int]));
                assert(self@ == before.with_tables(
                    before.tables.update(a as int, self@.tables[a as int]),
                ));
                assert(before.lookup_from(
                    a as int,
                    held,
                    src_addr,
                    src_port,
                    dst_addr,
                    dst_port,
                    now,
                ) == start.lookup(src_addr, src_port, dst_addr, dst_port, now));
            }
            match reuse {
                Reuse::Exact(port) => {
                    return Lookup::Exact { index: a, port };
                },
                Reuse::Preferred(port) => {
                    held = Some((a, port));
                },
                Reuse::Nothing => {},
            }
            a += 1;
        }
        match held {
            Some((index, port)) => Lookup::Preferred { index, port },
            None => Lookup::Fresh,
        }
    }

    /// Puts a new binding at the place that `pick` names.
    pub fn place(&mut self, pick: Pick, b: Binding)
        requires
            old(self).wf(),
            pick.index < old(self)@.tables.len(),
            old(self)@.tables[pick.index as int].len() < old(self)@.capacity(),
        ensures
            final(self).wf(),
            final(self)@.keeps(old(self)@),
            final(self)@ == old(self)@.placed(pick, b),
    {
        let ghost before = self@;
        if !pick.shared {
            purge_port(&mut self.tables[pick.index], pick.port);
        }
        self.tables[pick.index].push(b);
        proof {
            lemma_without_port_len(before.tables[pick.index as int], pick.port);
            assert(self@.tables =~= before.placed(pick, b).tables);
        }
    }

    /// Settles where a packet goes once its external source is known.
    pub fn hairpin(
        &mut self,
        src_addr: u32,
        src_port: u16,
        ext_addr: u32,
        ext_port: u16,
        dst_addr: u32,
        dst_port: u16,
        now: i64,
    ) -> (dest: DestType)
        requires
            old(self).wf(),
        ensures
            final(self).wf(),
            final(self)@.keeps(old(self)@),
            (final(self)@, dest) == old(self)@.hairpin(
                src_addr,
                src_port,
                ext_addr,
                ext_port,
                dst_addr,
                dst_port,
                now,
            ),
    {
        let owned = self.index_of(dst_addr).is_some();
        match self.inbound(ext_addr, ext_port, dst_addr, dst_port, true, now) {
            Some((addr, port)) => {
                if has_flag(self.flags, INTERNAL_ADDRESS_AND_PORT_HAIRPINNING) {
                    DestType::Internal {
                        external_src_addr: src_addr,
                        external_src_port: src_port,
                        internal_dest_addr: addr,
                        internal_dest_port: port,
                    }
                } else {
                    DestType::Internal {
                        external_src_addr: ext_addr,
                        external_src_port: ext_port,
                        internal_dest_addr: addr,
                        internal_dest_port: port,
                    }
                }
            },
            None => {
                if owned {
                    DestType::Drop
                } else {
                    DestType::External { external_src_addr: ext_addr, external_src_port: ext_port }
                }
            },
        }
    }

    /// The external address that the sender must use, if pooling is paired.
    pub fn paired(&self, src_addr: u32) -> (paired: Option<usize>)
        requires
            self@.registry.contains_key(src_addr),
        ensures
            paired == self@.paired(src_addr),
    {
        if has_flag(self.flags, IP_POOLING_BEHAVIOR_ARBITRARY) {
            None
        } else {
            self.registered_index(src_addr)
        }
    }

    /// Whether the table at `index` has no row on `port`.
    pub fn port_free_at(&self, index: usize, port: u16) -> (free: bool)
        requires
            index < self@.tables.len(),
        ensures
            free == port_free(self@.tables[index as int], port),
    {
        port_is_free(&self.tables[index], port)
    }

    /// The first table of `order` that has no row on `port`.
    pub fn first_free_table(&self, order: &Vec<usize>, port: u16) -> (found: Option<usize>)
        requires
            forall|k: int| 0 <= k < order@.len() ==> #[trigger] order@[k] < self@.tables.len(),
        ensures
            found == match first_where(order@, free_test(self@.tables, port)) {
                Some(k) => Some(order@[k]),
                None => None,
            },
    {
        let ghost p = free_test(self@.tables, port);
        let mut k: usize = 0;
        while k < order.len()
            invariant
                k <= order.len(),
                p == free_test(self@.tables, port),
                forall|j: int| 0 <= j < order@.len() ==> #[trigger] order@[j] < self@.tables.len(),
                forall|j: int| 0 <= j < k ==> !p(#[trigger] order@[j]),
            decreases order.len() - k,
        {
            let index = order[k];
            if port_is_free(&self.tables[index], port) {
                proof {
                    lemma_first_where_is(order@, p, k as int);
                }
                return Some(index);
            }
            k += 1;
        }
        proof {
            lemma_first_where_none(order@, p);
        }
        None
    }

    /// The first candidate of the dynamic port range, in ascending order,
    /// that is free in the table at `index`.
    pub fn first_free_port_at(&self, index: usize, src_port: u16) -> (port: u16)
        requires
            self.wf(),
            index < self@.tables.len(),
            self@.tables[index as int].len() < self@.capacity(),
        ensures
            port == spec_first_free_port(
                self@.tables[index as int],
                self@.port_first,
                self@.port_last,
                src_port,
                self@.flags,
            ),
            port_free(self@.tables[index as int], port),
            is_candidate(port, self@.port_first, self@.port_last, src_port, self@.flags),
    {
        first_free_port(&self.tables[index], self.port_first, self.port_last, src_port, self.flags)
    }
}

impl Engine {
    /// Whether some address of the internal range is not registered.
    pub fn has_spare_address(&self) -> (spare: bool)
        requires
            self.wf(),
        ensures
            spare == self@.has_spare_address(),
    {
        broadcast use vstd::std_specs::hash::group_hash_axioms;

        proof {
            lemma_spare_iff_fewer(self@);
        }
        let span: u64 = (self.internal_last - self.internal_first) as u64 + 1;
        (self.registry.len() as u64) < span
    }

    /// Scans the internal range in ascending order for the first address
    /// that is not registered.
    pub fn first_unregistered(&self) -> (addr: u32)
        requires
            self@.has_spare_address(),
        ensures
            addr == self@.first_unregistered(),
            self@.is_first_unregistered(addr),
    {
        broadcast use vstd::std_specs::hash::group_hash_axioms;

        let mut next: u64 = self.internal_first as u64;
        while next <= self.internal_last as u64
            invariant
                self.internal_first <= next <= self.internal_last + 1,
                forall|a: u32|
                    self.internal_first <= a < next ==> #[trigger] self@.registry.contains_key(a),
            decreases self.internal_last + 1 - next,
        {
            let addr = next as u32;
            if !self.registry.contains_key(&addr) {
                proof {
                    lemma_first_unregistered_is(self@, addr);
                }
                return addr;
            }
            next += 1;
        }
        proof {
            let spare = choose|a: u32| self@.is_internal(a) && !self@.registry.contains_key(a);
            assert(self@.registry.contains_key(spare));
        }
        self.internal_first
    }

    /// Tries port preservation on the tables of `order`, in that order.
    pub fn preserved_pick(&self, paired: Option<usize>, order: &Vec<usize>, src_port: u16) -> (pick:
        Option<Pick>)
        requires
            self.wf(),
            self@.is_order(paired, order@),
            !is_set(self@.flags, NO_PORT_PRESERVATION),
        ensures
            pick == self@.preserved(order@, src_port),
            pick matches Some(p) ==> self@.fits(paired, src_port, p),
            pick is None ==> self@.must_draw(paired, src_port),
    {
        proof {
            lemma_preserved_fits(self@, paired, order@, src_port);
        }
        match self.first_free_table(order, src_port) {
            Some(index) => Some(Pick { index, port: src_port, shared: false }),
            None => {
                if has_flag(self.flags, PORT_PRESERVATION_OVERLOAD) {
                    Some(Pick { index: order[0], port: src_port, shared: true })
                } else if has_flag(self.flags, PORT_PRESERVATION_OVERRIDE) {
                    Some(Pick { index: order[0], port: src_port, shared: false })
                } else {
                    None
                }
            },
        }
    }
}

impl Engine {
    /// Takes a packet from the inside as far as it goes without a random
    /// number: to its destination, or to the point where an external
    /// endpoint has to be selected for a new binding.
    pub fn resolve(
        &mut self,
        src_addr: u32,
        src_port: u16,
        dst_addr: u32,
        dst_port: u16,
        now: i64,
    ) -> (left: Resolution)
        requires
            old(self).wf(),
        ensures
            final(self).wf(),
            final(self)@.keeps(old(self)@),
            (final(self)@, left) == old(self)@.resolved(src_addr, src_port, dst_addr, dst_port, now),
            left matches Resolution::Open(paired) ==> {
                &&& paired matches Some(p) ==> p < final(self)@.tables.len()
                &&& forall|i: int|
                    0 <= i < final(self)@.tables.len() ==> (#[trigger] final(self)@.tables[i]).len()
                        < final(self)@.capacity()
            },
    {
        let ghost start = self@;
        if self.is_internal(dst_addr) {
            return Resolution::Settled(
                DestType::Internal {
                    external_src_addr: src_addr,
                    external_src_port: src_port,
                    internal_dest_addr: dst_addr,
                    internal_dest_port: dst_port,
                },
            );
        }
        if has_flag(self.flags, NO_HAIRPINNING) && self.index_of(dst_addr).is_some() {
            return Resolution::Settled(DestType::Drop);
        }
        if self.registered_index(src_addr).is_none() {
            return Resolution::Settled(DestType::Drop);
        }
        let found = self.lookup(src_addr, src_port, dst_addr, dst_port, now);
        proof {
            lemma_lookup_frame(start, 0, None, src_addr, src_port, dst_addr, dst_port, now);
        }
        match found {
            Lookup::Exact { index, port } => {
                let ext_addr = self.addresses[index];
                Resolution::Settled(
                    self.hairpin(src_addr, src_port, ext_addr, port, dst_addr, dst_port, now),
                )
            },
            Lookup::Preferred { index, port } => {
                self.place(
                    Pick { index, port, shared: true },
                    Binding {
                        internal_addr: src_addr,
                        internal_port: src_port,
                        external_port: port,
                        remote_addr: dst_addr,
                        remote_port: dst_port,
                        last_used_time: now,
                    },
                );
                let ext_addr = self.addresses[index];
                Resolution::Settled(
                    self.hairpin(src_addr, src_port, ext_addr, port, dst_addr, dst_port, now),
                )
            },
            Lookup::Fresh => Resolution::Open(self.paired(src_addr)),
        }
    }

    /// Takes a packet from the inside the rest of its way, with `pick` the
    /// external endpoint selected for its new binding.
    pub fn complete(
        &mut self,
        pick: Pick,
        src_addr: u32,
        src_port: u16,
        dst_addr: u32,
        dst_port: u16,
        now: i64,
    ) -> (dest: DestType)
        requires
            old(self).wf(),
            pick.index < old(self)@.tables.len(),
            old(self)@.tables[pick.index as int].len() < old(self)@.capacity(),
        ensures
            final(self).wf(),
            final(self)@.keeps(old(self)@),
            (final(self)@, dest) == old(self)@.completed(
                pick,
                src_addr,
                src_port,
                dst_addr,
                dst_port,
                now,
            ),
    {
        self.place(
            pick,
            Binding {
                internal_addr: src_addr,
                internal_port: src_port,
                external_port: pick.port,
                remote_addr: dst_addr,
                remote_port: dst_port,
                last_used_time: now,
            },
        );
        let ext_addr = self.addresses[pick.index];
        self.hairpin(src_addr, src_port, ext_addr, pick.port, dst_addr, dst_port, now)
    }
}

} // verus!
