//! The translator with a generator of its own, seeded by the caller.
//!
//! Every random number comes from the xorshift64* generator, so that a
//! translator's whole behaviour is a function of its seed and of the packets
//! it is given.

use vstd::prelude::*;
use std::ops::Range;
use crate::chance::{
    spec_assign, spec_drawn_address, spec_drawn_pick, spec_order, spec_outbound, spec_select,
};
use crate::draws::{address_for, port_for, shuffled, slot_for, MAX_DRAWS};
use crate::engine::Engine;
use crate::flags::has_flag;
use crate::history::{law_sound_step, Step};
use crate::model::{initial, lemma_drawn_fits, lemma_outbound_in_parts, Model, Pick, Resolution};
use crate::rng::{
    lemma_xorshift_run, xorshift64star, xorshift_after, xorshift_stream, xorshift_take,
};

pub use crate::flags::{
    ADDRESS_AND_PORT_DEPENDENT_FILTERING, ADDRESS_AND_PORT_DEPENDENT_MAPPING,
    ADDRESS_DEPENDENT_FILTERING, ADDRESS_DEPENDENT_MAPPING, FILTERED_INBOUND_DESTROYS_MAPPING,
    INBOUND_REFRESH_BEHAVIOR_FALSE, INTERNAL_ADDRESS_AND_PORT_HAIRPINNING,
    IP_POOLING_BEHAVIOR_ARBITRARY, NO_HAIRPINNING, NO_PORT_PARITY, NO_PORT_PRESERVATION,
    OUTBOUND_REFRESH_BEHAVIOR_FALSE, PORT_DEPENDENT_FILTERING, PORT_DEPENDENT_MAPPING,
    PORT_PRESERVATION_OVERLOAD, PORT_PRESERVATION_OVERRIDE,
};
pub use crate::predefines::{
    EASY_NAT, FULL_CONE_NAT, HARD_NAT, MISBEHAVING_FIREWALL, MISBEHAVING_NAT,
    PORT_RESTRICTED_CONE_NAT, PORT_RESTRICTED_FIREWALL, RESTRICTED_CONE_NAT, RESTRICTED_FIREWALL,
    STATEFUL_FIREWALL, SYMMETRIC_NAT,
};

verus! {

/// The most external addresses a translator can have.
pub const IP_POOLING_MAXIMUM: usize = 64;

/// Where a packet goes, with the addresses and ports to write into it.
#[derive(Clone, Copy, Debug, PartialEq, Eq, Structural)]
pub enum DestType {
    /// To the external network.
    Internet { src_address: u32, src_port: u16, dest_address: u32, dest_port: u16 },
    /// To the internal network.
    Intranet { src_address: u32, src_port: u16, dest_address: u32, dest_port: u16 },
    /// Nowhere.
    Drop,
}

impl DestType {
    /// The packet's new source and destination, unless it is dropped.
    pub fn unwrap(&self) -> (fields: Option<(u32, u16, u32, u16)>)
        ensures
            fields == match *self {
                DestType::Internet { src_address, src_port, dest_address, dest_port } => Some(
                    (src_address, src_port, dest_address, dest_port),
                ),
                DestType::Intranet { src_address, src_port, dest_address, dest_port } => Some(
                    (src_address, src_port, dest_address, dest_port),
                ),
                DestType::Drop => None,
            },
    {
        match self {
            DestType::Internet { src_address, src_port, dest_address, dest_port } => Some(
                (*src_address, *src_port, *dest_address, *dest_port),
            ),
            DestType::Intranet { src_address, src_port, dest_address, dest_port } => Some(
                (*src_address, *src_port, *dest_address, *dest_port),
            ),
            DestType::Drop => None,
        }
    }
}

/// An outbound packet's way in the terms of this module: a packet that
/// leaves keeps its destination, and one that turns back has the internal
/// endpoint it reached as its destination.
pub open spec fn routed(dest: crate::router::DestType, dst_addr: u32, dst_port: u16) -> DestType {
    match dest {
        crate::router::DestType::External { external_src_addr, external_src_port } => {
            DestType::Internet {
                src_address: external_src_addr,
                src_port: external_src_port,
                dest_address: dst_addr,
                dest_port: dst_port,
            }
        },
        crate::router::DestType::Internal {
            external_src_addr,
            external_src_port,
            internal_dest_addr,
            internal_dest_port,
        } => DestType::Intranet {
            src_address: external_src_addr,
            src_port: external_src_port,
            dest_address: internal_dest_addr,
            dest_port: internal_dest_port,
        },
        crate::router::DestType::Drop => DestType::Drop,
    }
}

/// What the registration of a new host leaves, the generator's state after
/// it, and the host's address, where the generator starts from `rng`.
pub open spec fn spec_assign_intranet_address(m: Model, rng: u64) -> (Model, u64, u32) {
    let (after, taken, addr) = spec_assign(m, xorshift_stream(rng), 0, false);
    (after, xorshift_after(rng, taken as nat), addr)
}

/// What a packet from the inside leaves, the generator's state after it,
/// and where the packet goes, where the generator starts from `rng`.
pub open spec fn spec_from_intranet(
    m: Model,
    rng: u64,
    src_addr: u32,
    src_port: u16,
    dst_addr: u32,
    dst_port: u16,
    now: i64,
) -> (Model, u64, DestType) {
    let (after, taken, dest) = spec_outbound(
        m,
        xorshift_stream(rng),
        0,
        src_addr,
        src_port,
        dst_addr,
        dst_port,
        now,
        false,
    );
    (after, xorshift_after(rng, taken as nat), routed(dest, dst_addr, dst_port))
}

/// `after` and `dest` are what the outbound packet leaves and where it goes,
/// in the terms of this module, when `pick` is the external endpoint
/// selected, and `pick` is one that the selection rules allow wherever an
/// endpoint has to be selected.
pub open spec fn sends_routed(
    m: Model,
    src_addr: u32,
    src_port: u16,
    dst_addr: u32,
    dst_port: u16,
    now: i64,
    pick: Pick,
    after: Model,
    dest: DestType,
) -> bool {
    let (left, unrouted) = m.outbound(src_addr, src_port, dst_addr, dst_port, now, pick);
    &&& m.sends(src_addr, src_port, dst_addr, dst_port, now, pick, after, unrouted)
    &&& dest == routed(unrouted, dst_addr, dst_port)
}

/// A translator with up to `IP_POOLING_MAXIMUM` external addresses and a
/// generator of its own.
pub struct NAT {
    engine: Engine,
    rng: u64,
}

impl View for NAT {
    type V = Model;

    closed spec fn view(&self) -> Model {
        self.engine@
    }
}

impl NAT {
    /// The state of the translator's generator.
    pub closed spec fn rng_state(&self) -> u64 {
        self.rng
    }

    /// The translator's parts agree with each other.
    pub closed spec fn inv(&self) -> bool {
        &&& self.engine.wf()
        &&& self.engine@.addresses.len() <= IP_POOLING_MAXIMUM
    }

    /// The translator is in a state that it can reach: its parts agree, and
    /// what holds in every state that can be reached holds in its state.
    pub open spec fn wf(&self) -> bool {
        self.inv() && self@.sound()
    }

    /// A translator with the external addresses given, internal addresses
    /// drawn from `assigned_intranet_addresses`, dynamic external ports
    /// drawn from `assigned_internet_ports`, and a generator that starts
    /// from `rng_seed`. Both ranges must hold something, and the addresses
    /// be at least one and at most `IP_POOLING_MAXIMUM`.
    pub fn new(
        assigned_internet_addresses: &[u32],
        assigned_intranet_addresses: Range<u32>,
        assigned_internet_ports: Range<u16>,
        rng_seed: u64,
        mapping_timeout: i64,
        flags: u32,
    ) -> (made: Self)
        requires
            1 <= assigned_internet_addresses@.len() <= IP_POOLING_MAXIMUM,
            assigned_intranet_addresses.start < assigned_intranet_addresses.end,
            assigned_internet_ports.start < assigned_internet_ports.end,
        ensures
            made.wf(),
            made.rng_state() == rng_seed,
            made@ == initial(
                assigned_internet_addresses@,
                assigned_intranet_addresses.start,
                (assigned_intranet_addresses.end - 1) as u32,
                assigned_internet_ports.start,
                (assigned_internet_ports.end - 1) as u16,
                mapping_timeout,
                flags,
            ),
    {
        let mut addresses: Vec<u32> = Vec::new();
        let mut i: usize = 0;
        while i < assigned_internet_addresses.len()
            invariant
                i <= assigned_internet_addresses@.len(),
                addresses@ == assigned_internet_addresses@.take(i as int),
            decreases assigned_internet_addresses@.len() - i,
        {
            addresses.push(assigned_internet_addresses[i]);
            i += 1;
            assert(addresses@ =~= assigned_internet_addresses@.take(i as int));
        }
        assert(addresses@ =~= assigned_internet_addresses@);
        let engine = Engine::new(
            addresses,
            assigned_intranet_addresses.start,
            assigned_intranet_addresses.end - 1,
            assigned_internet_ports.start,
            assigned_internet_ports.end - 1,
            mapping_timeout,
            flags,
        );
        NAT { engine, rng: rng_seed }
    }

    /// The external addresses.
    pub fn assigned_addresses(&self) -> (list: &[u32])
        ensures
            list@ == self@.addresses,
    {
        self.engine.addresses()
    }

    /// Whether an internal address is left for a new host.
    pub fn has_spare_address(&self) -> (spare: bool)
        requires
            self.wf(),
        ensures
            spare == self@.has_spare_address(),
    {
        self.engine.has_spare_address()
    }

    /// Draws the address of a new host until one comes that is not
    /// registered, `MAX_DRAWS` times at most; then the lowest unregistered
    /// address is taken.
    fn draw_address(&mut self, Ghost(seed): Ghost<u64>, Ghost(at): Ghost<int>) -> (addr: u32)
        requires
            old(self).wf(),
            old(self)@.has_spare_address(),
            at >= 0,
            old(self).rng_state() == xorshift_after(seed, at as nat),
        ensures
            final(self).wf(),
            final(self)@ == old(self)@,
            old(self)@.is_internal(addr),
            !old(self)@.registry.contains_key(addr),
            ({
                let (then, drawn) = spec_drawn_address(
                    old(self)@,
                    xorshift_stream(seed),
                    at,
                    MAX_DRAWS as nat,
                );
                &&& then >= at
                &&& drawn == addr
                &&& final(self).rng_state() == xorshift_after(seed, then as nat)
            }),
    {
        let (first, last) = self.engine.internal_range();
        let ghost m = self@;
        let ghost stream = xorshift_stream(seed);
        let ghost mut place = at;
        let mut left: u32 = MAX_DRAWS;
        loop
            invariant
                self.wf(),
                self@ == old(self)@,
                m == old(self)@,
                stream == xorshift_stream(seed),
                self@.has_spare_address(),
                (first, last) == (self@.internal_first, self@.internal_last),
                1 <= left <= MAX_DRAWS,
                place >= at >= 0,
                self.rng == xorshift_after(seed, place as nat),
                spec_drawn_address(m, stream, place, left as nat) == spec_drawn_address(
                    m,
                    stream,
                    at,
                    MAX_DRAWS as nat,
                ),
            decreases left,
        {
            let x = xorshift64star(&mut self.rng);
            assert(x == stream(place));
            let addr = address_for(x, first, last);
            proof {
                place = place + 1;
            }
            if self.engine.registered_index(addr).is_none() {
                return addr;
            }
            if left <= 1 {
                return self.engine.first_unregistered();
            }
            left -= 1;
        }
    }

    /// Registers a new internal host and returns its address.
    ///
    /// The address is drawn from the internal range until one comes that is
    /// not registered. After `MAX_DRAWS` draws without success the lowest
    /// unregistered address of the range is taken. The host is paired with
    /// an external address drawn among those of the translator.
    pub fn assign_intranet_address(&mut self) -> (addr: u32)
        requires
            old(self).wf(),
            old(self)@.has_spare_address(),
        ensures
            final(self).wf(),
            (final(self)@, final(self).rng_state(), addr) == spec_assign_intranet_address(
                old(self)@,
                old(self).rng_state(),
            ),
            old(self)@.is_internal(addr),
            !old(self)@.registry.contains_key(addr),
    {
        let ghost seed = self.rng;
        let addr = self.draw_address(Ghost(seed), Ghost(0));
        let count = self.engine.address_count();
        let index = slot_for(xorshift64star(&mut self.rng), count);
        self.engine.register(addr, index);
        addr
    }

    /// Removes an internal host from the registry. Its bindings stay until
    /// they expire.
    pub fn remove_intranet_address(&mut self, intranet_address: u32)
        requires
            old(self).wf(),
        ensures
            final(self).wf(),
            final(self).rng_state() == old(self).rng_state(),
            final(self)@ == old(self)@.unregistered(intranet_address),
    {
        self.engine.unregister(intranet_address);
    }

    /// Draws table and port of a new binding until the port is free on the
    /// table, `MAX_DRAWS` times at most; then the first free candidate of
    /// the port range is taken on the table drawn last.
    fn draw_pick(
        &mut self,
        paired: Option<usize>,
        src_port: u16,
        Ghost(seed): Ghost<u64>,
        Ghost(at): Ghost<int>,
    ) -> (pick: Pick)
        requires
            old(self).inv(),
            old(self)@.wf(),
            old(self)@.must_draw(paired, src_port),
            paired matches Some(p) ==> p < old(self)@.tables.len(),
            forall|i: int|
                0 <= i < old(self)@.tables.len() ==> (#[trigger] old(self)@.tables[i]).len() < old(
                    self,
                )@.capacity(),
            at >= 0,
            old(self).rng_state() == xorshift_after(seed, at as nat),
        ensures
            final(self).inv(),
            final(self)@ == old(self)@,
            old(self)@.fits(paired, src_port, pick),
            ({
                let (then, drawn) = spec_drawn_pick(
                    old(self)@,
                    xorshift_stream(seed),
                    at,
                    paired,
                    src_port,
                    MAX_DRAWS as nat,
                    false,
                );
                &&& then >= at
                &&& drawn == pick
                &&& final(self).rng_state() == xorshift_after(seed, then as nat)
            }),
    {
        let count = self.engine.address_count();
        let flags = self.engine.flags();
        let (first, last) = self.engine.port_range();
        let ghost m = self@;
        let ghost stream = xorshift_stream(seed);
        let ghost mut place = at;
        let mut left: u32 = MAX_DRAWS;
        loop
            invariant
                self.inv(),
                self@.wf(),
                self@ == old(self)@,
                m == old(self)@,
                stream == xorshift_stream(seed),
                count == self@.tables.len(),
                flags == self@.flags,
                (first, last) == (self@.port_first, self@.port_last),
                1 <= left <= MAX_DRAWS,
                place >= at >= 0,
                self.rng == xorshift_after(seed, place as nat),
                self@.must_draw(paired, src_port),
                paired matches Some(p) ==> p < self@.tables.len(),
                forall|i: int|
                    0 <= i < self@.tables.len() ==> (#[trigger] self@.tables[i]).len()
                        < self@.capacity(),
                spec_drawn_pick(m, stream, place, paired, src_port, left as nat, false)
                    == spec_drawn_pick(m, stream, at, paired, src_port, MAX_DRAWS as nat, false),
            decreases left,
        {
            let index = match paired {
                Some(p) => p,
                None => {
                    let x = xorshift64star(&mut self.rng);
                    assert(x == stream(place));
                    proof {
                        place = place + 1;
                    }
                    slot_for(x, count)
                },
            };
            let y = xorshift64star(&mut self.rng);
            assert(y == stream(place));
            proof {
                place = place + 1;
            }
            let port = port_for(y, first, last, src_port, flags);
            if self.engine.port_free_at(index, port) {
                let pick = Pick { index, port, shared: false };
                proof {
                    lemma_drawn_fits(self@, paired, src_port, pick);
                }
                return pick;
            }
            if left <= 1 {
                let port = self.engine.first_free_port_at(index, src_port);
                let pick = Pick { index, port, shared: false };
                proof {
                    lemma_drawn_fits(self@, paired, src_port, pick);
                }
                return pick;
            }
            left -= 1;
        }
    }

    /// Selects the external endpoint of a new binding.
    ///
    /// Port preservation comes first, unless it is off: the tables that the
    /// sender may use are tried in a drawn order for one where the sender's
    /// port is free, and where it is free on none the port is shared or
    /// taken over if the flags say so. Otherwise table and port are drawn
    /// until the port is free on the table. After `MAX_DRAWS` draws without
    /// success the first free candidate of the port range, in ascending
    /// order, is taken on the table drawn last.
    fn select_inet_address(&mut self, paired: Option<usize>, src_port: u16) -> (pick: Pick)
        requires
            old(self).inv(),
            old(self)@.wf(),
            paired matches Some(p) ==> p < old(self)@.tables.len(),
            forall|i: int|
                0 <= i < old(self)@.tables.len() ==> (#[trigger] old(self)@.tables[i]).len() < old(
                    self,
                )@.capacity(),
        ensures
            final(self).inv(),
            final(self)@ == old(self)@,
            old(self)@.fits(paired, src_port, pick),
            ({
                let (then, selected) = spec_select(
                    old(self)@,
                    xorshift_stream(old(self).rng_state()),
                    0,
                    paired,
                    src_port,
                    false,
                );
                &&& then >= 0
                &&& selected == pick
                &&& final(self).rng_state() == xorshift_after(old(self).rng_state(), then as nat)
            }),
    {
        let count = self.engine.address_count();
        let ghost seed = self.rng;
        let ghost stream = xorshift_stream(seed);
        if !has_flag(self.engine.flags(), NO_PORT_PRESERVATION) {
            let draws = match paired {
                Some(_) => Vec::new(),
                None => xorshift_take(&mut self.rng, count - 1),
            };
            let order = match paired {
                Some(p) => {
                    let mut only: Vec<usize> = Vec::new();
                    only.push(p);
                    assert(only@ =~= seq![p]);
                    only
                },
                None => shuffled(count, &draws),
            };
            let ghost then: int = if paired is None {
                count - 1
            } else {
                0
            };
            proof {
                if paired is None {
                    lemma_xorshift_run(seed, (count - 1) as nat);
                    assert(draws@ =~= Seq::new((count - 1) as nat, |i: int| stream(0 + i)));
                }
                assert(spec_order(self@, stream, 0, paired) == (then, order@));
            }
            match self.engine.preserved_pick(paired, &order, src_port) {
                Some(pick) => {
                    return pick;
                },
                None => {},
            }
            return self.draw_pick(paired, src_port, Ghost(seed), Ghost(then));
        }
        self.draw_pick(paired, src_port, Ghost(seed), Ghost(0))
    }

    /// Takes a packet from the inside and says where it goes.
    ///
    /// `Intranet` with the packet's own fields where the destination is an
    /// internal address. `Drop` where the translator's own address is the
    /// destination and hairpinning is off, or where the sender is not
    /// registered. Otherwise the sender's binding is found or made, and the
    /// packet leaves from its external endpoint, or turns back inside where
    /// that endpoint reaches one of the translator's own bindings.
    pub fn from_intranet(
        &mut self,
        src_address: u32,
        src_port: u16,
        dest_address: u32,
        dest_port: u16,
        current_time: i64,
    ) -> (dest: DestType)
        requires
            old(self).wf(),
        ensures
            final(self).wf(),
            (final(self)@, final(self).rng_state(), dest) == spec_from_intranet(
                old(self)@,
                old(self).rng_state(),
                src_address,
                src_port,
                dest_address,
                dest_port,
                current_time,
            ),
            exists|pick: Pick| #[trigger]
                sends_routed(
                    old(self)@,
                    src_address,
                    src_port,
                    dest_address,
                    dest_port,
                    current_time,
                    pick,
                    final(self)@,
                    dest,
                ),
    {
        let ghost start = self@;
        match self.engine.resolve(src_address, src_port, dest_address, dest_port, current_time) {
            Resolution::Settled(dest) => {
                proof {
                    lemma_outbound_in_parts(
                        start,
                        src_address,
                        src_port,
                        dest_address,
                        dest_port,
                        current_time,
                        crate::model::idle_pick(),
                    );
                    assert(sends_routed(
                        start,
                        src_address,
                        src_port,
                        dest_address,
                        dest_port,
                        current_time,
                        crate::model::idle_pick(),
                        self@,
                        routed(dest, dest_address, dest_port),
                    ));
                    law_sound_step(
                        start,
                        Step::Outbound {
                            src_addr: src_address,
                            src_port,
                            dst_addr: dest_address,
                            dst_port: dest_port,
                            now: current_time,
                            pick: crate::model::idle_pick(),
                        },
                    );
                }
                Self::convert(dest, dest_address, dest_port)
            },
            Resolution::Open(paired) => {
                let pick = self.select_inet_address(paired, src_port);
                let dest = self.engine.complete(
                    pick,
                    src_address,
                    src_port,
                    dest_address,
                    dest_port,
                    current_time,
                );
                proof {
                    lemma_outbound_in_parts(
                        start,
                        src_address,
                        src_port,
                        dest_address,
                        dest_port,
                        current_time,
                        pick,
                    );
                    assert(sends_routed(
                        start,
                        src_address,
                        src_port,
                        dest_address,
                        dest_port,
                        current_time,
                        pick,
                        self@,
                        routed(dest, dest_address, dest_port),
                    ));
                    law_sound_step(
                        start,
                        Step::Outbound {
                            src_addr: src_address,
                            src_port,
                            dst_addr: dest_address,
                            dst_port: dest_port,
                            now: current_time,
                            pick,
                        },
                    );
                }
                Self::convert(dest, dest_address, dest_port)
            },
        }
    }

    /// Writes an outbound packet's way in the terms of this module.
    fn convert(dest: crate::router::DestType, dst_addr: u32, dst_port: u16) -> (out: DestType)
        ensures
            out == routed(dest, dst_addr, dst_port),
    {
        match dest {
            crate::router::DestType::External { external_src_addr, external_src_port } => {
                DestType::Internet {
                    src_address: external_src_addr,
                    src_port: external_src_port,
                    dest_address: dst_addr,
                    dest_port: dst_port,
                }
            },
            crate::router::DestType::Internal {
                external_src_addr,
                external_src_port,
                internal_dest_addr,
                internal_dest_port,
            } => DestType::Intranet {
                src_address: external_src_addr,
                src_port: external_src_port,
                dest_address: internal_dest_addr,
                dest_port: internal_dest_port,
            },
            crate::router::DestType::Drop => DestType::Drop,
        }
    }

    /// Takes a packet from the outside and returns its source together with
    /// the internal endpoint it is delivered to, or `None` where it is not
    /// addressed to the translator, finds no live binding on its port, or
    /// is filtered. With `disable_filtering` the filter is bypassed for
    /// this packet.
    pub fn from_internet(
        &mut self,
        src_address: u32,
        src_port: u16,
        dest_address: u32,
        dest_port: u16,
        disable_filtering: bool,
        current_time: i64,
    ) -> (fields: Option<(u32, u16, u32, u16)>)
        requires
            old(self).wf(),
        ensures
            final(self).wf(),
            final(self).rng_state() == old(self).rng_state(),
            final(self)@ == old(self)@.inbound(
                src_address,
                src_port,
                dest_address,
                dest_port,
                disable_filtering,
                current_time,
            ).0,
            fields == match old(self)@.inbound(
                src_address,
                src_port,
                dest_address,
                dest_port,
                disable_filtering,
                current_time,
            ).1 {
                Some((addr, port)) => Some((src_address, src_port, addr, port)),
                None => None,
            },
    {
        proof {
            law_sound_step(
                self@,
                Step::Inbound {
                    src_addr: src_address,
                    src_port,
                    dst_addr: dest_address,
                    dst_port: dest_port,
                    bypass: disable_filtering,
                    now: current_time,
                },
            );
        }
        match self.engine.inbound(
            src_address,
            src_port,
            dest_address,
            dest_port,
            disable_filtering,
            current_time,
        ) {
            Some((addr, port)) => Some((src_address, src_port, addr, port)),
            None => None,
        }
    }
}

} // verus!
