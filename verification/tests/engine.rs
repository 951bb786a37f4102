use nat_emulation::binding::Binding;
use nat_emulation::engine::Engine;
use nat_emulation::flags::{
    INTERNAL_ADDRESS_AND_PORT_HAIRPINNING, IP_POOLING_BEHAVIOR_ARBITRARY, NO_HAIRPINNING,
    NO_PORT_PRESERVATION, PORT_PRESERVATION_OVERLOAD, PORT_PRESERVATION_OVERRIDE,
};
use nat_emulation::model::{Lookup, Pick, Resolution};
use nat_emulation::router::DestType;

fn row(ia: u32, ip: u16, ep: u16, ra: u32, rp: u16, t: i64) -> Binding {
    Binding {
        internal_addr: ia,
        internal_port: ip,
        external_port: ep,
        remote_addr: ra,
        remote_port: rp,
        last_used_time: t,
    }
}

fn engine(addresses: Vec<u32>, flags: u32) -> Engine {
    Engine::new(addresses, 90000, 99999, 49152, 65535, 1000, flags)
}

#[test]
fn new_engine_reports_its_configuration() {
    let e = Engine::new(vec![7, 8], 90000, 99999, 49152, 65535, 1000, NO_HAIRPINNING);
    assert_eq!(e.addresses(), &[7, 8]);
    assert_eq!(e.address_count(), 2);
    assert_eq!(e.address_at(1), 8);
    assert_eq!(e.flags(), NO_HAIRPINNING);
    assert_eq!(e.timeout(), 1000);
    assert_eq!(e.internal_range(), (90000, 99999));
    assert_eq!(e.port_range(), (49152, 65535));
    assert!(e.table(0).is_empty());
    assert!(e.table(1).is_empty());
}

#[test]
fn index_of_is_the_first_occurrence() {
    let e = engine(vec![7, 8, 7], 0);
    assert_eq!(e.index_of(7), Some(0));
    assert_eq!(e.index_of(8), Some(1));
    assert_eq!(e.index_of(9), None);
}

#[test]
fn is_internal_is_the_inclusive_range() {
    let e = engine(vec![7], 0);
    assert!(e.is_internal(90000));
    assert!(e.is_internal(99999));
    assert!(!e.is_internal(89999));
    assert!(!e.is_internal(100000));
}

#[test]
fn registry_records_the_pairing() {
    let mut e = engine(vec![7, 8], 0);
    assert_eq!(e.registered_index(90001), None);
    e.register(90001, 1);
    assert_eq!(e.registered_index(90001), Some(1));
    assert_eq!(e.paired(90001), Some(1));
    e.unregister(90001);
    assert_eq!(e.registered_index(90001), None);
}

#[test]
fn paired_is_none_under_arbitrary_pooling() {
    let mut e = engine(vec![7, 8], IP_POOLING_BEHAVIOR_ARBITRARY);
    e.register(90001, 1);
    assert_eq!(e.paired(90001), None);
}

#[test]
fn first_unregistered_is_the_lowest_spare_address() {
    let mut e = engine(vec![7], 0);
    assert_eq!(e.first_unregistered(), 90000);
    e.register(90000, 0);
    e.register(90001, 0);
    e.register(90003, 0);
    assert_eq!(e.first_unregistered(), 90002);
}

#[test]
fn resolve_keeps_a_packet_for_the_inside_as_it_is() {
    let mut e = engine(vec![7], 0);
    let left = e.resolve(90000, 17, 90001, 80, 100);
    assert_eq!(
        left,
        Resolution::Settled(DestType::Internal {
            external_src_addr: 90000,
            external_src_port: 17,
            internal_dest_addr: 90001,
            internal_dest_port: 80,
        })
    );
}

#[test]
fn resolve_drops_an_unregistered_sender() {
    let mut e = engine(vec![7], 0);
    assert_eq!(e.resolve(90000, 17, 22222, 80, 100), Resolution::Settled(DestType::Drop));
}

#[test]
fn resolve_drops_a_hairpin_when_hairpinning_is_off() {
    let mut e = engine(vec![7], NO_HAIRPINNING);
    e.register(90000, 0);
    assert_eq!(e.resolve(90000, 17, 7, 80, 100), Resolution::Settled(DestType::Drop));
    assert!(e.table(0).is_empty());
}

#[test]
fn resolve_prefers_the_inside_over_the_hairpin_check() {
    let mut e = Engine::new(vec![90005], 90000, 99999, 49152, 65535, 1000, NO_HAIRPINNING);
    let left = e.resolve(90000, 17, 90005, 80, 100);
    assert_eq!(
        left,
        Resolution::Settled(DestType::Internal {
            external_src_addr: 90000,
            external_src_port: 17,
            internal_dest_addr: 90005,
            internal_dest_port: 80,
        })
    );
}

#[test]
fn resolve_leaves_the_selection_open_for_a_new_sender() {
    let mut e = engine(vec![7, 8], 0);
    e.register(90000, 1);
    assert_eq!(e.resolve(90000, 17, 22222, 80, 100), Resolution::Open(Some(1)));
    let mut a = engine(vec![7, 8], IP_POOLING_BEHAVIOR_ARBITRARY);
    a.register(90000, 1);
    assert_eq!(a.resolve(90000, 17, 22222, 80, 100), Resolution::Open(None));
}

#[test]
fn complete_places_the_binding_for_any_pick() {
    let mut e = engine(vec![7, 8], 0);
    e.register(90000, 1);
    assert_eq!(e.resolve(90000, 17, 22222, 80, 100), Resolution::Open(Some(1)));
    let dest = e.complete(Pick { index: 1, port: 50000, shared: false }, 90000, 17, 22222, 80, 100);
    assert_eq!(dest, DestType::External { external_src_addr: 8, external_src_port: 50000 });
    assert_eq!(e.table(1), &[row(90000, 17, 50000, 22222, 80, 100)]);
    assert!(e.table(0).is_empty());
}

#[test]
fn an_exact_binding_serves_again() {
    let mut e = engine(vec![7], 0);
    e.register(90000, 0);
    e.resolve(90000, 17, 22222, 80, 100);
    e.complete(Pick { index: 0, port: 50000, shared: false }, 90000, 17, 22222, 80, 100);
    let left = e.resolve(90000, 17, 22222, 80, 200);
    assert_eq!(
        left,
        Resolution::Settled(DestType::External { external_src_addr: 7, external_src_port: 50000 })
    );
    assert_eq!(e.table(0), &[row(90000, 17, 50000, 22222, 80, 200)]);
}

#[test]
fn a_preferred_binding_lends_its_endpoint_to_a_new_row() {
    let mut e = engine(vec![7], 0);
    e.register(90000, 0);
    e.resolve(90000, 17, 22222, 80, 100);
    e.complete(Pick { index: 0, port: 50000, shared: false }, 90000, 17, 22222, 80, 100);
    let left = e.resolve(90000, 17, 33333, 443, 200);
    assert_eq!(
        left,
        Resolution::Settled(DestType::External { external_src_addr: 7, external_src_port: 50000 })
    );
    assert_eq!(
        e.table(0),
        &[row(90000, 17, 50000, 22222, 80, 100), row(90000, 17, 50000, 33333, 443, 200)]
    );
}

#[test]
fn lookup_searches_the_tables_in_order() {
    let mut e = engine(vec![7, 8], IP_POOLING_BEHAVIOR_ARBITRARY);
    e.register(90000, 0);
    e.place(Pick { index: 0, port: 5000, shared: false }, row(90000, 17, 5000, 22222, 80, 100));
    e.place(Pick { index: 1, port: 6000, shared: false }, row(90000, 17, 6000, 33333, 80, 100));
    assert_eq!(e.lookup(90000, 17, 33333, 80, 150), Lookup::Exact { index: 1, port: 6000 });
    assert_eq!(e.lookup(90000, 17, 44444, 80, 150), Lookup::Preferred { index: 1, port: 6000 });
    assert_eq!(e.lookup(90001, 17, 44444, 80, 150), Lookup::Fresh);
    assert_eq!(e.lookup(90000, 17, 44444, 80, 2000), Lookup::Fresh);
    assert!(e.table(0).is_empty());
    assert!(e.table(1).is_empty());
}

#[test]
fn place_displaces_unless_the_port_is_shared() {
    let mut e = engine(vec![7], 0);
    e.place(Pick { index: 0, port: 5000, shared: false }, row(1, 17, 5000, 22222, 80, 100));
    e.place(Pick { index: 0, port: 5000, shared: true }, row(2, 17, 5000, 22222, 80, 100));
    assert_eq!(e.table(0).len(), 2);
    e.place(Pick { index: 0, port: 5000, shared: false }, row(3, 17, 5000, 22222, 80, 100));
    assert_eq!(e.table(0), &[row(3, 17, 5000, 22222, 80, 100)]);
}

#[test]
fn hairpin_turns_back_to_a_binding_of_the_translator() {
    let mut e = engine(vec![7], 0);
    e.place(Pick { index: 0, port: 20, shared: false }, row(90001, 20, 20, 22222, 80, 100));
    let dest = e.hairpin(90000, 17, 7, 17, 7, 20, 150);
    assert_eq!(
        dest,
        DestType::Internal {
            external_src_addr: 7,
            external_src_port: 17,
            internal_dest_addr: 90001,
            internal_dest_port: 20,
        }
    );
    assert_eq!(e.table(0), &[row(90001, 20, 20, 22222, 80, 150)]);
}

#[test]
fn hairpin_with_internal_sources() {
    let mut e = engine(vec![7], INTERNAL_ADDRESS_AND_PORT_HAIRPINNING);
    e.place(Pick { index: 0, port: 20, shared: false }, row(90001, 20, 20, 22222, 80, 100));
    let dest = e.hairpin(90000, 17, 7, 17, 7, 20, 150);
    assert_eq!(
        dest,
        DestType::Internal {
            external_src_addr: 90000,
            external_src_port: 17,
            internal_dest_addr: 90001,
            internal_dest_port: 20,
        }
    );
}

#[test]
fn hairpin_drops_what_reaches_no_binding_of_the_translator() {
    let mut e = engine(vec![7], 0);
    assert_eq!(e.hairpin(90000, 17, 7, 17, 7, 20, 150), DestType::Drop);
}

#[test]
fn hairpin_lets_the_rest_out() {
    let mut e = engine(vec![7], 0);
    assert_eq!(
        e.hairpin(90000, 17, 7, 17, 22222, 80, 150),
        DestType::External { external_src_addr: 7, external_src_port: 17 }
    );
}

#[test]
fn inbound_to_a_foreign_address_changes_nothing() {
    let mut e = engine(vec![7], 0);
    e.place(Pick { index: 0, port: 20, shared: false }, row(90001, 20, 20, 22222, 80, 0));
    assert_eq!(e.inbound(22222, 80, 9, 20, false, 5000), None);
    assert_eq!(e.table(0).len(), 1);
}

#[test]
fn preserved_pick_takes_the_first_free_table_of_the_order() {
    let mut e = engine(vec![7, 8, 9], IP_POOLING_BEHAVIOR_ARBITRARY);
    e.place(Pick { index: 2, port: 17, shared: false }, row(90001, 17, 17, 22222, 80, 0));
    let order = vec![2, 0, 1];
    assert_eq!(e.preserved_pick(None, &order, 17), Some(Pick { index: 0, port: 17, shared: false }));
    assert_eq!(e.preserved_pick(None, &order, 18), Some(Pick { index: 2, port: 18, shared: false }));
    assert_eq!(e.first_free_table(&order, 17), Some(0));
    assert!(!e.port_free_at(2, 17));
    assert!(e.port_free_at(1, 17));
}

#[test]
fn preserved_pick_when_the_port_is_taken_everywhere() {
    let order = vec![0];
    let mut plain = engine(vec![7], 0);
    plain.place(Pick { index: 0, port: 17, shared: false }, row(90001, 17, 17, 22222, 80, 0));
    assert_eq!(plain.preserved_pick(Some(0), &order, 17), None);

    let mut overload = engine(vec![7], PORT_PRESERVATION_OVERLOAD | PORT_PRESERVATION_OVERRIDE);
    overload.place(Pick { index: 0, port: 17, shared: false }, row(90001, 17, 17, 22222, 80, 0));
    assert_eq!(
        overload.preserved_pick(Some(0), &order, 17),
        Some(Pick { index: 0, port: 17, shared: true })
    );

    let mut takeover = engine(vec![7], PORT_PRESERVATION_OVERRIDE);
    takeover.place(Pick { index: 0, port: 17, shared: false }, row(90001, 17, 17, 22222, 80, 0));
    assert_eq!(
        takeover.preserved_pick(Some(0), &order, 17),
        Some(Pick { index: 0, port: 17, shared: false })
    );
}

#[test]
fn first_free_port_at_scans_the_dynamic_range() {
    let mut e = engine(vec![7], NO_PORT_PRESERVATION);
    e.place(Pick { index: 0, port: 49153, shared: false }, row(90001, 17, 49153, 22222, 80, 0));
    assert_eq!(e.first_free_port_at(0, 17), 49155);
    assert_eq!(e.first_free_port_at(0, 16), 49152);
}

#[test]
fn every_port_of_a_table_has_one_row_without_lending() {
    let mut e = engine(vec![7], NO_PORT_PRESERVATION);
    e.register(90000, 0);
    e.register(90001, 0);
    let mut port = 49152u16;
    for src_port in 1..40u16 {
        for src_addr in [90000u32, 90001u32] {
            match e.resolve(src_addr, src_port, 22222, 80, 100) {
                Resolution::Open(_) => {
                    while !e.port_free_at(0, port) {
                        port += 1;
                    }
                    e.complete(Pick { index: 0, port, shared: false }, src_addr, src_port, 22222, 80, 100);
                }
                Resolution::Settled(_) => assert!(false),
            }
        }
    }
    let rows = e.table(0);
    assert_eq!(rows.len(), 78);
    for a in 0..rows.len() {
        for b in 0..rows.len() {
            if a != b {
                assert!(rows[a].external_port != rows[b].external_port);
            }
        }
    }
}

#[test]
fn rows_that_share_a_port_by_lending_have_one_owner() {
    let mut e = engine(vec![7], 0);
    e.register(90000, 0);
    e.resolve(90000, 17, 22222, 80, 100);
    e.complete(Pick { index: 0, port: 17, shared: false }, 90000, 17, 22222, 80, 100);
    e.resolve(90000, 17, 33333, 80, 100);
    e.resolve(90000, 17, 44444, 80, 100);
    let rows = e.table(0);
    assert_eq!(rows.len(), 3);
    for r in rows {
        assert_eq!(r.external_port, 17);
        assert_eq!((r.internal_addr, r.internal_port), (90000, 17));
    }
}
