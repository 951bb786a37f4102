//! The translator with a random source of the caller's choice.

use vstd::prelude::*;
use std::ops::RangeInclusive;
use crate::chance::{
    begins_with, spec_assign, spec_drawn_address, spec_drawn_pick, spec_order, spec_outbound,
    spec_select,
};
use crate::draws::{address_for, port_for, shuffled, slot_for, MAX_DRAWS};
use crate::engine::Engine;
use crate::flags::{has_flag, NO_PORT_PRESERVATION};
use crate::history::{law_sound_step, Step};
use crate::model::{
    idle_pick, initial, lemma_drawn_fits, lemma_outbound_in_parts, Model, Pick, Resolution,
};
use crate::source::DrawSource;

verus! {

/// `RangeInclusive::start` of std returns the lower bound that the range was
/// made with.
pub assume_specification<Idx>[ RangeInclusive::<Idx>::start ](
    range: &RangeInclusive<Idx>,
) -> (start: &Idx)
    ensures
        *start == range@.start,
;

/// `RangeInclusive::end` of std returns the upper bound that the range was
/// made with.
pub assume_specification<Idx>[ RangeInclusive::<Idx>::end ](range: &RangeInclusive<Idx>) -> (end:
    &Idx)
    ensures
        *end == range@.end,
;

/// Where a packet from the inside goes.
#[derive(Clone, Copy, Debug, PartialEq, Eq, Structural)]
pub enum DestType {
    /// To the external network, with this source address and port.
    External { external_src_addr: u32, external_src_port: u16 },
    /// Back to the internal network, with this source and this destination.
    Internal {
        external_src_addr: u32,
        external_src_port: u16,
        internal_dest_addr: u32,
        internal_dest_port: u16,
    },
    /// Nowhere.
    Drop,
}

impl DestType {
    /// Whether the packet goes to the external network.
    #[inline]
    pub fn is_external(&self) -> (yes: bool)
        ensures
            yes == (*self is External),
    {
        match self {
            DestType::External { .. } => true,
            DestType::Internal { .. } => false,
            DestType::Drop => false,
        }
    }

    /// Whether the packet goes back to the internal network.
    #[inline]
    pub fn is_internal(&self) -> (yes: bool)
        ensures
            yes == (*self is Internal),
    {
        match self {
            DestType::External { .. } => false,
            DestType::Internal { .. } => true,
            DestType::Drop => false,
        }
    }

    /// Whether the packet is dropped.
    #[inline]
    pub fn is_drop(&self) -> (yes: bool)
        ensures
            yes == (*self is Drop),
    {
        match self {
            DestType::External { .. } => false,
            DestType::Internal { .. } => false,
            DestType::Drop => true,
        }
    }
}

/// A translator with up to `M` external addresses that draws its random
/// numbers from `R`.
pub struct NATRouter<R: DrawSource, const M: usize> {
    engine: Engine,
    rng: R,
    assigned_internal_addresses: RangeInclusive<u32>,
    assigned_external_ports: RangeInclusive<u16>,
    drawn: Ghost<Seq<u64>>,
}

impl<R: DrawSource, const M: usize> View for NATRouter<R, M> {
    type V = Model;

    closed spec fn view(&self) -> Model {
        self.engine@
    }
}

impl<R: DrawSource> NATRouter<R, 1> {
    /// A firewall: one address, the same inside and outside, and every port
    /// open to assignment.
    pub fn new_no_address_translation(
        flags: u32,
        assigned_address: u32,
        rng: R,
        mapping_timeout: i64,
    ) -> (router: Self)
        ensures
            router.wf(),
            router.drawn() == Seq::<u64>::empty(),
            router@ == initial(
                seq![assigned_address],
                assigned_address,
                assigned_address,
                0,
                u16::MAX,
                mapping_timeout,
                flags,
            ),
    {
        let router = Self::new(
            flags,
            [assigned_address],
            assigned_address..=assigned_address,
            0..=u16::MAX,
            rng,
            mapping_timeout,
        );
        assert(router@.addresses =~= seq![assigned_address]);
        assert(router@.tables =~= initial(
            seq![assigned_address],
            assigned_address,
            assigned_address,
            0,
            u16::MAX,
            mapping_timeout,
            flags,
        ).tables);
        router
    }
}

impl<R: DrawSource, const M: usize> NATRouter<R, M> {
    /// The ranges kept for the getters are those of the state.
    pub closed spec fn inv(&self) -> bool {
        &&& self.engine.wf()
        &&& self.engine@.addresses.len() <= M
        &&& self.assigned_internal_addresses@.start == self.engine@.internal_first
        &&& self.assigned_internal_addresses@.end == self.engine@.internal_last
        &&& self.assigned_external_ports@.start == self.engine@.port_first
        &&& self.assigned_external_ports@.end == self.engine@.port_last
    }

    /// The translator is in a state that it can reach: its parts agree, and
    /// what holds in every state that can be reached holds in its state.
    pub open spec fn wf(&self) -> bool {
        self.inv() && self@.sound()
    }

    /// A translator with fewer external addresses than `M`.
    pub fn with_capacity(
        flags: u32,
        external_addresses: &[u32],
        internal_addresses: RangeInclusive<u32>,
        external_dynamic_ports: RangeInclusive<u16>,
        rng: R,
        mapping_timeout: i64,
    ) -> (router: Self)
        requires
            1 <= external_addresses@.len() <= M,
            internal_addresses@.start <= internal_addresses@.end,
            external_dynamic_ports@.start <= external_dynamic_ports@.end,
        ensures
            router.wf(),
            router.drawn() == Seq::<u64>::empty(),
            router@ == initial(
                external_addresses@,
                internal_addresses@.start,
                internal_addresses@.end,
                external_dynamic_ports@.start,
                external_dynamic_ports@.end,
                mapping_timeout,
                flags,
            ),
    {
        let mut addresses: Vec<u32> = Vec::new();
        let mut i: usize = 0;
        while i < external_addresses.len()
            invariant
                i <= external_addresses@.len(),
                addresses@ == external_addresses@.take(i as int),
            decreases external_addresses@.len() - i,
        {
            addresses.push(external_addresses[i]);
            i += 1;
            assert(addresses@ =~= external_addresses@.take(i as int));
        }
        assert(addresses@ =~= external_addresses@);
        let engine = Engine::new(
            addresses,
            *internal_addresses.start(),
            *internal_addresses.end(),
            *external_dynamic_ports.start(),
            *external_dynamic_ports.end(),
            mapping_timeout,
            flags,
        );
        NATRouter {
            engine,
            rng,
            assigned_internal_addresses: internal_addresses,
            assigned_external_ports: external_dynamic_ports,
            drawn: Ghost(Seq::empty()),
        }
    }

    /// A translator with the external addresses given, internal addresses
    /// drawn from `internal_addresses`, and dynamic external ports drawn
    /// from `external_dynamic_ports`. Both ranges must hold something.
    pub fn new(
        flags: u32,
        external_addresses: [u32; M],
        internal_addresses: RangeInclusive<u32>,
        external_dynamic_ports: RangeInclusive<u16>,
        rng: R,
        mapping_timeout: i64,
    ) -> (router: Self)
        requires
            M >= 1,
            internal_addresses@.start <= internal_addresses@.end,
            external_dynamic_ports@.start <= external_dynamic_ports@.end,
        ensures
            router.wf(),
            router.drawn() == Seq::<u64>::empty(),
            router@ == initial(
                external_addresses@,
                internal_addresses@.start,
                internal_addresses@.end,
                external_dynamic_ports@.start,
                external_dynamic_ports@.end,
                mapping_timeout,
                flags,
            ),
    {
        Self::with_capacity(
            flags,
            external_addresses.as_slice(),
            internal_addresses,
            external_dynamic_ports,
            rng,
            mapping_timeout,
        )
    }

    /// The external addresses.
    #[inline]
    pub fn external_addresses(&self) -> (list: &[u32])
        ensures
            list@ == self@.addresses,
    {
        self.engine.addresses()
    }

    /// The range that internal addresses are drawn from.
    #[inline]
    pub fn internal_addresses(&self) -> (range: &RangeInclusive<u32>)
        requires
            self.wf(),
        ensures
            range@.start == self@.internal_first,
            range@.end == self@.internal_last,
    {
        &self.assigned_internal_addresses
    }

    /// The range that dynamic external ports are drawn from.
    #[inline]
    pub fn external_dynamic_ports(&self) -> (range: &RangeInclusive<u16>)
        requires
            self.wf(),
        ensures
            range@.start == self@.port_first,
            range@.end == self@.port_last,
    {
        &self.assigned_external_ports
    }

    /// The behaviour flags.
    #[inline]
    pub fn flags(&self) -> (flags: u32)
        ensures
            flags == self@.flags,
    {
        self.engine.flags()
    }

    /// How long a binding lives after its last refresh.
    #[inline]
    pub fn mapping_timeout(&self) -> (timeout: i64)
        ensures
            timeout == self@.timeout,
    {
        self.engine.timeout()
    }

    /// Whether an internal address is left for a new host.
    pub fn has_spare_address(&self) -> (spare: bool)
        requires
            self.wf(),
        ensures
            spare == self@.has_spare_address(),
    {
        self.engine.has_spare_address()
    }

    /// The numbers that the source has given out to the translator so far,
    /// in the order of the draws. A 32-bit number stands with its value.
    pub closed spec fn drawn(&self) -> Seq<u64> {
        self.drawn@
    }

    /// The translator has drawn the numbers that `before` had drawn, and
    /// maybe more.
    pub open spec fn drew_on(&self, before: &Self) -> bool {
        &&& before.drawn().len() <= self.drawn().len()
        &&& self.drawn().take(before.drawn().len() as int) == before.drawn()
    }

    /// Draws a 32-bit number.
    fn take_u32(&mut self) -> (x: u64)
        ensures
            final(self)@ == old(self)@,
            old(self).inv() ==> final(self).inv(),
            final(self).drawn() == old(self).drawn().push(x),
    {
        let x = self.rng.draw_u32() as u64;
        self.drawn = Ghost(self.drawn@.push(x));
        x
    }

    /// Draws a 64-bit number.
    fn take_u64(&mut self) -> (x: u64)
        ensures
            final(self)@ == old(self)@,
            old(self).inv() ==> final(self).inv(),
            final(self).drawn() == old(self).drawn().push(x),
    {
        let x = self.rng.draw_u64();
        self.drawn = Ghost(self.drawn@.push(x));
        x
    }

    /// Draws `count` 64-bit numbers.
    fn take_many(&mut self, count: usize) -> (draws: Vec<u64>)
        ensures
            final(self)@ == old(self)@,
            old(self).inv() ==> final(self).inv(),
            draws@.len() == count,
            final(self).drawn() == old(self).drawn() + draws@,
    {
        let mut draws: Vec<u64> = Vec::new();
        let mut n: usize = 0;
        assert(self.drawn() + draws@ =~= self.drawn());
        while n < count
            invariant
                n <= count,
                draws@.len() == n,
                self@ == old(self)@,
                old(self).inv() ==> self.inv(),
                self.drawn() == old(self).drawn() + draws@,
            decreases count - n,
        {
            let ghost before = draws@;
            let x = self.take_u64();
            draws.push(x);
            n += 1;
            assert(old(self).drawn() + before.push(x) =~= (old(self).drawn() + before).push(x));
        }
        draws
    }

    /// Draws the address of a new host until one comes that is not
    /// registered, `MAX_DRAWS` times at most; then the lowest unregistered
    /// address is taken.
    fn draw_address(&mut self) -> (addr: u32)
        requires
            old(self).wf(),
            old(self)@.has_spare_address(),
        ensures
            final(self).wf(),
            final(self)@ == old(self)@,
            final(self).drew_on(old(self)),
            old(self)@.is_internal(addr),
            !old(self)@.registry.contains_key(addr),
            forall|s: spec_fn(int) -> u64| #[trigger]
                begins_with(s, final(self).drawn()) ==> spec_drawn_address(
                    old(self)@,
                    s,
                    old(self).drawn().len() as int,
                    MAX_DRAWS as nat,
                ) == (final(self).drawn().len() as int, addr),
    {
        let (first, last) = self.engine.internal_range();
        let ghost m = self@;
        let ghost base = self.drawn().len() as int;
        let mut left: u32 = MAX_DRAWS;
        assert(self.drawn().take(base) =~= self.drawn());
        loop
            invariant
                self.wf(),
                self@ == old(self)@,
                m == old(self)@,
                base == old(self).drawn().len(),
                self.drew_on(old(self)),
                self@.has_spare_address(),
                (first, last) == (self@.internal_first, self@.internal_last),
                1 <= left <= MAX_DRAWS,
                forall|s: spec_fn(int) -> u64| #[trigger]
                    begins_with(s, self.drawn()) ==> spec_drawn_address(
                        m,
                        s,
                        base,
                        MAX_DRAWS as nat,
                    ) == spec_drawn_address(m, s, self.drawn().len() as int, left as nat),
            decreases left,
        {
            let ghost before = self.drawn();
            let x = self.take_u32();
            let addr = address_for(x, first, last);
            proof {
                assert(self.drawn().take(base) =~= before.take(base));
                assert forall|s: spec_fn(int) -> u64| #[trigger]
                    begins_with(s, self.drawn()) implies begins_with(s, before) && s(
                    before.len() as int,
                ) == x by {
                    assert(self.drawn()[before.len() as int] == x);
                    assert forall|i: int| 0 <= i < before.len() implies s(i) == #[trigger] before[i] by {
                        assert(self.drawn()[i] == before[i]);
                    }
                }
            }
            if self.engine.registered_index(addr).is_none() {
                return addr;
            }
            if left <= 1 {
                return self.engine.first_unregistered();
            }
            left -= 1;
        }
    }

    /// Registers a new internal host and returns its address.
    ///
    /// The address is drawn from the internal range until one comes that is
    /// not registered. After `MAX_DRAWS` draws without success the lowest
    /// unregistered address of the range is taken. The host is paired with
    /// an external address drawn among those of the translator; where `M`
    /// is one, nothing is drawn for the pairing.
    pub fn assign_internal_address(&mut self) -> (addr: u32)
        requires
            old(self).wf(),
            old(self)@.has_spare_address(),
        ensures
            final(self).wf(),
            final(self).drew_on(old(self)),
            old(self)@.is_internal(addr),
            !old(self)@.registry.contains_key(addr),
            exists|index: usize|
                index < old(self)@.addresses.len() && final(self)@ == #[trigger] old(
                    self,
                )@.registered(addr, index),
            forall|s: spec_fn(int) -> u64| #[trigger]
                begins_with(s, final(self).drawn()) ==> spec_assign(
                    old(self)@,
                    s,
                    old(self).drawn().len() as int,
                    M == 1,
                ) == (final(self)@, final(self).drawn().len() as int, addr),
    {
        let count = self.engine.address_count();
        let addr = self.draw_address();
        let ghost drawn_address = self.drawn();
        let index = if M == 1 {
            0
        } else {
            let x = self.take_u64();
            slot_for(x, count)
        };
        self.engine.register(addr, index);
        proof {
            assert(self.drawn().take(old(self).drawn().len() as int) =~= drawn_address.take(
                old(self).drawn().len() as int,
            ));
            assert forall|s: spec_fn(int) -> u64| #[trigger]
                begins_with(s, self.drawn()) implies begins_with(s, drawn_address) by {
                assert forall|i: int| 0 <= i < drawn_address.len() implies s(i)
                    == #[trigger] drawn_address[i] by {
                    assert(self.drawn()[i] == drawn_address[i]);
                }
            }
            if M != 1 {
                assert(self.drawn()[drawn_address.len() as int] == self.drawn().last());
            }
        }
        addr
    }

    /// Removes an internal host from the registry. Its bindings stay until
    /// they expire.
    #[inline]
    pub fn remove_internal_address(&mut self, internal_addr: u32)
        requires
            old(self).wf(),
        ensures
            final(self).wf(),
            final(self).drawn() == old(self).drawn(),
            final(self)@ == old(self)@.unregistered(internal_addr),
    {
        self.engine.unregister(internal_addr);
    }

    /// Draws table and port of a new binding until the port is free on the
    /// table, `MAX_DRAWS` times at most; then the first free candidate of
    /// the port range is taken on the table drawn last.
    fn draw_pick(&mut self, paired: Option<usize>, src_port: u16, Ghost(base): Ghost<int>) -> (pick:
        Pick)
        requires
            old(self).inv(),
            old(self)@.wf(),
            old(self)@.must_draw(paired, src_port),
            paired matches Some(p) ==> p < old(self)@.tables.len(),
            forall|i: int|
                0 <= i < old(self)@.tables.len() ==> (#[trigger] old(self)@.tables[i]).len() < old(
                    self,
                )@.capacity(),
            base == old(self).drawn().len(),
        ensures
            final(self).inv(),
            final(self)@ == old(self)@,
            final(self).drew_on(old(self)),
            old(self)@.fits(paired, src_port, pick),
            forall|s: spec_fn(int) -> u64| #[trigger]
                begins_with(s, final(self).drawn()) ==> spec_drawn_pick(
                    old(self)@,
                    s,
                    base,
                    paired,
                    src_port,
                    MAX_DRAWS as nat,
                    M == 1,
                ) == (final(self).drawn().len() as int, pick),
    {
        let count = self.engine.address_count();
        let flags = self.engine.flags();
        let (first, last) = self.engine.port_range();
        let ghost m = self@;
        let mut left: u32 = MAX_DRAWS;
        assert(self.drawn().take(base) =~= self.drawn());
        loop
            invariant
                self.inv(),
                self@.wf(),
                self@ == old(self)@,
                m == old(self)@,
                base == old(self).drawn().len(),
                self.drew_on(old(self)),
                count == self@.tables.len(),
                flags == self@.flags,
                (first, last) == (self@.port_first, self@.port_last),
                1 <= left <= MAX_DRAWS,
                self@.must_draw(paired, src_port),
                paired matches Some(p) ==> p < self@.tables.len(),
                forall|i: int|
                    0 <= i < self@.tables.len() ==> (#[trigger] self@.tables[i]).len()
                        < self@.capacity(),
                forall|s: spec_fn(int) -> u64| #[trigger]
                    begins_with(s, self.drawn()) ==> spec_drawn_pick(
                        m,
                        s,
                        base,
                        paired,
                        src_port,
                        MAX_DRAWS as nat,
                        M == 1,
                    ) == spec_drawn_pick(
                        m,
                        s,
                        self.drawn().len() as int,
                        paired,
                        src_port,
                        left as nat,
                        M == 1,
                    ),
            decreases left,
        {
            let ghost before = self.drawn();
            let index = match paired {
                Some(p) => p,
                None => if M == 1 {
                    0
                } else {
                    let x = self.take_u64();
                    slot_for(x, count)
                },
            };
            let ghost between = self.drawn();
            let y = self.take_u32();
            let port = port_for(y, first, last, src_port, flags);
            proof {
                assert(self.drawn().take(base) =~= before.take(base));
                assert forall|s: spec_fn(int) -> u64| #[trigger]
                    begins_with(s, self.drawn()) implies begins_with(s, before) && s(
                    between.len() as int,
                ) == y && (paired is None && M != 1 ==> s(before.len() as int)
                    == between.last()) by {
                    assert(self.drawn()[between.len() as int] == y);
                    if paired is None && M != 1 {
                        assert(self.drawn()[before.len() as int] == between.last());
                    }
                    assert forall|i: int| 0 <= i < before.len() implies s(i) == #[trigger] before[i] by {
                        assert(self.drawn()[i] == before[i]);
                    }
                }
            }
            if self.engine.port_free_at(index, port) {
                let pick = Pick { index, port, shared: false };
                proof {
                    lemma_drawn_fits(self@, paired, src_port, pick);
                }
                return pick;
            }
            if left <= 1 {
                let port = self.engine.first_free_port_at(index, src_port);
                let pick = Pick { index, port, shared: false };
                proof {
                    lemma_drawn_fits(self@, paired, src_port, pick);
                }
                return pick;
            }
            left -= 1;
        }
    }

    /// Selects the external endpoint of a new binding.
    ///
    /// Port preservation comes first, unless it is off: the tables that the
    /// sender may use are tried in a drawn order for one where the sender's
    /// port is free, and where it is free on none the port is shared or
    /// taken over if the flags say so. Otherwise table and port are drawn
    /// until the port is free on the table. After `MAX_DRAWS` draws without
    /// success the first free candidate of the port range, in ascending
    /// order, is taken on the table drawn last.
    fn select_inet_address(&mut self, paired: Option<usize>, src_port: u16) -> (pick: Pick)
        requires
            old(self).inv(),
            old(self)@.wf(),
            paired matches Some(p) ==> p < old(self)@.tables.len(),
            forall|i: int|
                0 <= i < old(self)@.tables.len() ==> (#[trigger] old(self)@.tables[i]).len() < old(
                    self,
                )@.capacity(),
        ensures
            final(self).inv(),
            final(self)@ == old(self)@,
            final(self).drew_on(old(self)),
            old(self)@.fits(paired, src_port, pick),
            forall|s: spec_fn(int) -> u64| #[trigger]
                begins_with(s, final(self).drawn()) ==> spec_select(
                    old(self)@,
                    s,
                    old(self).drawn().len() as int,
                    paired,
                    src_port,
                    M == 1,
                ) == (final(self).drawn().len() as int, pick),
    {
        let count = self.engine.address_count();
        let ghost m = self@;
        let ghost base = self.drawn().len() as int;
        if !has_flag(self.engine.flags(), NO_PORT_PRESERVATION) {
            let draws = match paired {
                Some(_) => Vec::new(),
                None => self.take_many(count - 1),
            };
            let order = match paired {
                Some(p) => {
                    let mut only: Vec<usize> = Vec::new();
                    only.push(p);
                    assert(only@ =~= seq![p]);
                    only
                },
                None => shuffled(count, &draws),
            };
            let ghost shuffled_at = self.drawn();
            proof {
                assert(shuffled_at.take(base) =~= old(self).drawn());
                assert forall|s: spec_fn(int) -> u64| #[trigger]
                    begins_with(s, shuffled_at) implies spec_order(m, s, base, paired) == (
                    shuffled_at.len() as int,
                    order@,
                ) by {
                    if paired is None {
                        assert(shuffled_at == old(self).drawn() + draws@);
                        assert(draws@ =~= Seq::new((count - 1) as nat, |i: int| s(base + i))) by {
                            assert forall|i: int| 0 <= i < count - 1 implies draws@[i] == s(
                                base + i,
                            ) by {
                                assert(shuffled_at[base + i] == draws@[i]);
                            }
                        }
                    } else {
                        assert(shuffled_at == old(self).drawn());
                    }
                }
            }
            match self.engine.preserved_pick(paired, &order, src_port) {
                Some(pick) => {
                    return pick;
                },
                None => {},
            }
            let pick = self.draw_pick(paired, src_port, Ghost(shuffled_at.len() as int));
            proof {
                assert(self.drawn().take(base) =~= shuffled_at.take(base));
                assert forall|s: spec_fn(int) -> u64| #[trigger]
                    begins_with(s, self.drawn()) implies begins_with(s, shuffled_at) by {
                    assert forall|i: int| 0 <= i < shuffled_at.len() implies s(i)
                        == #[trigger] shuffled_at[i] by {
                        assert(self.drawn()[i] == shuffled_at[i]);
                    }
                }
            }
            return pick;
        }
        self.draw_pick(paired, src_port, Ghost(base))
    }

    /// Takes a packet from the inside and says where it goes.
    ///
    /// `Internal` with the packet's own fields where the destination is an
    /// internal address. `Drop` where the translator's own address is the
    /// destination and hairpinning is off, or where the sender is not
    /// registered. Otherwise the sender's binding is found or made, and the
    /// packet leaves from its external endpoint, or turns back inside where
    /// that endpoint reaches one of the translator's own bindings.
    pub fn send_internal_packet(
        &mut self,
        internal_src_addr: u32,
        internal_src_port: u16,
        external_dest_addr: u32,
        external_dest_port: u16,
        current_time: i64,
    ) -> (dest: DestType)
        requires
            old(self).wf(),
        ensures
            final(self).wf(),
            final(self).drew_on(old(self)),
            exists|pick: Pick| #[trigger]
                old(self)@.sends(
                    internal_src_addr,
                    internal_src_port,
                    external_dest_addr,
                    external_dest_port,
                    current_time,
                    pick,
                    final(self)@,
                    dest,
                ),
            forall|s: spec_fn(int) -> u64| #[trigger]
                begins_with(s, final(self).drawn()) ==> spec_outbound(
                    old(self)@,
                    s,
                    old(self).drawn().len() as int,
                    internal_src_addr,
                    internal_src_port,
                    external_dest_addr,
                    external_dest_port,
                    current_time,
                    M == 1,
                ) == (final(self)@, final(self).drawn().len() as int, dest),
    {
        assert(self.drawn().take(self.drawn().len() as int) =~= self.drawn());
        proof {
            lemma_outbound_in_parts(
                self@,
                internal_src_addr,
                internal_src_port,
                external_dest_addr,
                external_dest_port,
                current_time,
                idle_pick(),
            );
        }
        let ghost start = self@;
        match self.engine.resolve(
            internal_src_addr,
            internal_src_port,
            external_dest_addr,
            external_dest_port,
            current_time,
        ) {
            Resolution::Settled(dest) => {
                proof {
                    assert(start.sends(
                        internal_src_addr,
                        internal_src_port,
                        external_dest_addr,
                        external_dest_port,
                        current_time,
                        idle_pick(),
                        self@,
                        dest,
                    ));
                    law_sound_step(
                        start,
                        Step::Outbound {
                            src_addr: internal_src_addr,
                            src_port: internal_src_port,
                            dst_addr: external_dest_addr,
                            dst_port: external_dest_port,
                            now: current_time,
                            pick: idle_pick(),
                        },
                    );
                }
                dest
            },
            Resolution::Open(paired) => {
                let pick = self.select_inet_address(paired, internal_src_port);
                let dest = self.engine.complete(
                    pick,
                    internal_src_addr,
                    internal_src_port,
                    external_dest_addr,
                    external_dest_port,
                    current_time,
                );
                proof {
                    lemma_outbound_in_parts(
                        start,
                        internal_src_addr,
                        internal_src_port,
                        external_dest_addr,
                        external_dest_port,
                        current_time,
                        pick,
                    );
                    assert(start.sends(
                        internal_src_addr,
                        internal_src_port,
                        external_dest_addr,
                        external_dest_port,
                        current_time,
                        pick,
                        self@,
                        dest,
                    ));
                    law_sound_step(
                        start,
                        Step::Outbound {
                            src_addr: internal_src_addr,
                            src_port: internal_src_port,
                            dst_addr: external_dest_addr,
                            dst_port: external_dest_port,
                            now: current_time,
                            pick,
                        },
                    );
                }
                dest
            },
        }
    }

    /// Takes a packet from the outside and returns the internal endpoint it
    /// is delivered to, or `None` where it is not addressed to the
    /// translator, finds no live binding on its port, or is filtered.
    /// With `disable_filtering` the filter is bypassed for this packet.
    pub fn receive_external_packet(
        &mut self,
        external_src_addr: u32,
        external_src_port: u16,
        external_dest_addr: u32,
        external_dest_port: u16,
        disable_filtering: bool,
        current_time: i64,
    ) -> (target: Option<(u32, u16)>)
        requires
            old(self).wf(),
        ensures
            final(self).wf(),
            final(self).drawn() == old(self).drawn(),
            (final(self)@, target) == old(self)@.inbound(
                external_src_addr,
                external_src_port,
                external_dest_addr,
                external_dest_port,
                disable_filtering,
                current_time,
            ),
    {
        proof {
            law_sound_step(
                self@,
                Step::Inbound {
                    src_addr: external_src_addr,
                    src_port: external_src_port,
                    dst_addr: external_dest_addr,
                    dst_port: external_dest_port,
                    bypass: disable_filtering,
                    now: current_time,
                },
            );
        }
        self.engine.inbound(
            external_src_addr,
            external_src_port,
            external_dest_addr,
            external_dest_port,
            disable_filtering,
            current_time,
        )
    }
}

} // verus!
