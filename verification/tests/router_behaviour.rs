use nat_emulation::flags::{
    ADDRESS_DEPENDENT_MAPPING, INBOUND_REFRESH_BEHAVIOR_FALSE,
    INTERNAL_ADDRESS_AND_PORT_HAIRPINNING, NO_HAIRPINNING, NO_PORT_PARITY, NO_PORT_PRESERVATION,
    OUTBOUND_REFRESH_BEHAVIOR_FALSE, PORT_DEPENDENT_MAPPING,
};
use nat_emulation::predefines::{
    EASY_NAT, FULL_CONE_NAT, MISBEHAVING_FIREWALL, STATEFUL_FIREWALL, SYMMETRIC_NAT,
};
use nat_emulation::router::{DestType, NATRouter};
use rand::rngs::mock::StepRng;
use rand::rngs::StdRng;
use rand::SeedableRng;

const TIMEOUT: i64 = 120000;

fn one_address(flags: u32, rng: StepRng) -> NATRouter<StepRng, 1> {
    NATRouter::new(flags, [11111], 90000..=99999, 49152..=u16::MAX, rng, TIMEOUT)
}

fn external(addr: u32, port: u16) -> DestType {
    DestType::External { external_src_addr: addr, external_src_port: port }
}

#[test]
fn dest_type_tells_its_variant() {
    let out = external(1, 2);
    assert!(out.is_external() && !out.is_internal() && !out.is_drop());
    let back = DestType::Internal {
        external_src_addr: 1,
        external_src_port: 2,
        internal_dest_addr: 3,
        internal_dest_port: 4,
    };
    assert!(!back.is_external() && back.is_internal() && !back.is_drop());
    let gone = DestType::Drop;
    assert!(!gone.is_external() && !gone.is_internal() && gone.is_drop());
}

#[test]
fn getters_report_the_configuration() {
    let nat = one_address(FULL_CONE_NAT, StepRng::new(0, 1));
    assert_eq!(nat.external_addresses(), &[11111]);
    assert_eq!(*nat.internal_addresses().start(), 90000);
    assert_eq!(*nat.internal_addresses().end(), 99999);
    assert_eq!(*nat.external_dynamic_ports().start(), 49152);
    assert_eq!(*nat.external_dynamic_ports().end(), 65535);
    assert_eq!(nat.flags(), FULL_CONE_NAT);
    assert_eq!(nat.mapping_timeout(), TIMEOUT);
}

#[test]
fn with_capacity_uses_the_addresses_given() {
    let nat: NATRouter<StepRng, 4> =
        NATRouter::with_capacity(EASY_NAT, &[5, 6], 100..=200, 1000..=2000, StepRng::new(0, 1), 10);
    assert_eq!(nat.external_addresses(), &[5, 6]);
    assert_eq!(*nat.internal_addresses().start(), 100);
    assert_eq!(*nat.external_dynamic_ports().end(), 2000);
}

#[test]
fn no_address_translation_has_one_address_and_every_port() {
    let mut firewall = NATRouter::new_no_address_translation(STATEFUL_FIREWALL, 77, StepRng::new(5, 3), 10);
    assert_eq!(firewall.external_addresses(), &[77]);
    assert_eq!(*firewall.internal_addresses().start(), 77);
    assert_eq!(*firewall.internal_addresses().end(), 77);
    assert_eq!(*firewall.external_dynamic_ports().start(), 0);
    assert_eq!(*firewall.external_dynamic_ports().end(), 65535);
    assert_eq!(firewall.assign_internal_address(), 77);
}

#[test]
fn assigned_addresses_follow_the_draws() {
    let mut nat = one_address(EASY_NAT, StepRng::new(12345, 1));
    assert_eq!(nat.assign_internal_address(), 92345);
    assert_eq!(nat.assign_internal_address(), 92346);
}

#[test]
fn assigned_addresses_are_new_even_when_the_draws_repeat() {
    let mut nat: NATRouter<StepRng, 1> =
        NATRouter::new(EASY_NAT, [11111], 100..=102, 49152..=u16::MAX, StepRng::new(7, 0), TIMEOUT);
    assert_eq!(nat.assign_internal_address(), 101);
    assert_eq!(nat.assign_internal_address(), 100);
    assert_eq!(nat.assign_internal_address(), 102);
}

#[test]
fn spare_addresses_run_out() {
    let mut nat: NATRouter<StepRng, 1> =
        NATRouter::new(EASY_NAT, [11111], 100..=101, 49152..=u16::MAX, StepRng::new(0, 1), TIMEOUT);
    assert!(nat.has_spare_address());
    nat.assign_internal_address();
    assert!(nat.has_spare_address());
    let last = nat.assign_internal_address();
    assert!(!nat.has_spare_address());
    nat.remove_internal_address(last);
    assert!(nat.has_spare_address());
    assert_eq!(nat.assign_internal_address(), last);
}

#[test]
fn the_standard_generator_serves_as_a_source() {
    let rng: StdRng = StdRng::seed_from_u64(42);
    let mut nat: NATRouter<StdRng, 3> =
        NATRouter::new(SYMMETRIC_NAT, [1, 2, 3], 90000..=99999, 49152..=u16::MAX, rng, TIMEOUT);
    let client = nat.assign_internal_address();
    assert!(90000 <= client && client <= 99999);
    let other = nat.assign_internal_address();
    assert!(other != client);
    for dst_port in 1..100u16 {
        match nat.send_internal_packet(client, 17, 22222, dst_port, 100) {
            DestType::External { external_src_addr, external_src_port } => {
                assert!(external_src_port % 2 == 1);
                assert!(external_src_port >= 49152);
                assert_eq!(
                    nat.receive_external_packet(22222, dst_port, external_src_addr, external_src_port, false, 200),
                    Some((client, 17))
                );
            }
            _ => assert!(false),
        }
    }
}

#[test]
fn unregistered_senders_are_dropped() {
    let mut nat = one_address(EASY_NAT, StepRng::new(0, 1));
    assert!(nat.send_internal_packet(90000, 17, 22222, 80, 100).is_drop());
    let client = nat.assign_internal_address();
    assert!(nat.send_internal_packet(client, 17, 22222, 80, 100).is_external());
    nat.remove_internal_address(client);
    assert!(nat.send_internal_packet(client, 17, 22222, 80, 100).is_drop());
}

#[test]
fn bindings_outlive_the_registration() {
    let mut nat = one_address(EASY_NAT, StepRng::new(0, 1));
    let client = nat.assign_internal_address();
    assert_eq!(nat.send_internal_packet(client, 17, 22222, 80, 100), external(11111, 17));
    nat.remove_internal_address(client);
    assert_eq!(nat.receive_external_packet(22222, 80, 11111, 17, false, 200), Some((client, 17)));
}

#[test]
fn packets_for_the_inside_stay_inside() {
    let mut nat = one_address(EASY_NAT, StepRng::new(0, 1));
    let dest = nat.send_internal_packet(90000, 17, 90001, 80, 100);
    assert_eq!(
        dest,
        DestType::Internal {
            external_src_addr: 90000,
            external_src_port: 17,
            internal_dest_addr: 90001,
            internal_dest_port: 80,
        }
    );
}

#[test]
fn the_binding_lives_up_to_the_timeout_and_no_longer() {
    let mut nat = one_address(EASY_NAT | INBOUND_REFRESH_BEHAVIOR_FALSE, StepRng::new(0, 1));
    let client = nat.assign_internal_address();
    assert_eq!(nat.send_internal_packet(client, 17, 22222, 80, 1000), external(11111, 17));
    assert_eq!(nat.receive_external_packet(22222, 80, 11111, 17, false, 1000 + TIMEOUT), Some((client, 17)));
    assert_eq!(nat.receive_external_packet(22222, 80, 11111, 17, false, 1000 + TIMEOUT + 1), None);
}

#[test]
fn inbound_traffic_refreshes_the_binding() {
    let mut nat = one_address(EASY_NAT, StepRng::new(0, 1));
    let client = nat.assign_internal_address();
    nat.send_internal_packet(client, 17, 22222, 80, 1000);
    assert_eq!(nat.receive_external_packet(22222, 80, 11111, 17, false, 1000 + TIMEOUT), Some((client, 17)));
    assert_eq!(nat.receive_external_packet(22222, 80, 11111, 17, false, 1000 + 2 * TIMEOUT), Some((client, 17)));
    assert_eq!(nat.receive_external_packet(22222, 80, 11111, 17, false, 1001 + 3 * TIMEOUT), None);
}

#[test]
fn outbound_traffic_refreshes_the_binding_unless_told_not_to() {
    let mut nat = one_address(EASY_NAT, StepRng::new(0, 1));
    let client = nat.assign_internal_address();
    nat.send_internal_packet(client, 17, 22222, 80, 1000);
    nat.send_internal_packet(client, 17, 22222, 80, 1000 + TIMEOUT);
    assert_eq!(nat.receive_external_packet(22222, 80, 11111, 17, false, 1000 + 2 * TIMEOUT), Some((client, 17)));

    let flags = OUTBOUND_REFRESH_BEHAVIOR_FALSE | INBOUND_REFRESH_BEHAVIOR_FALSE;
    let mut stale = one_address(flags, StepRng::new(0, 1));
    let client = stale.assign_internal_address();
    stale.send_internal_packet(client, 17, 22222, 80, 1000);
    assert_eq!(stale.send_internal_packet(client, 17, 22222, 80, 1000 + TIMEOUT), external(11111, 17));
    assert_eq!(stale.receive_external_packet(22222, 80, 11111, 17, false, 1001 + TIMEOUT), None);
}

#[test]
fn endpoint_independent_mapping_reuses_the_external_endpoint() {
    let mut nat = one_address(FULL_CONE_NAT, StepRng::new(0, 1));
    let client = nat.assign_internal_address();
    let first = nat.send_internal_packet(client, 17, 22222, 80, 100);
    let second = nat.send_internal_packet(client, 17, 33333, 443, 200);
    let third = nat.send_internal_packet(client, 17, 22222, 81, 300);
    assert!(first.is_external());
    assert_eq!(first, second);
    assert_eq!(first, third);
}

#[test]
fn address_dependent_mapping_alone() {
    let mut nat = one_address(NO_PORT_PRESERVATION | ADDRESS_DEPENDENT_MAPPING, StepRng::new(0, 1));
    let client = nat.assign_internal_address();
    let first = nat.send_internal_packet(client, 17, 22222, 80, 100);
    let same_host = nat.send_internal_packet(client, 17, 22222, 81, 100);
    let other_host = nat.send_internal_packet(client, 17, 33333, 80, 100);
    assert_eq!(first, same_host);
    assert!(first != other_host);
}

#[test]
fn port_dependent_mapping_alone() {
    let mut nat = one_address(NO_PORT_PRESERVATION | PORT_DEPENDENT_MAPPING, StepRng::new(0, 1));
    let client = nat.assign_internal_address();
    let first = nat.send_internal_packet(client, 17, 22222, 80, 100);
    let same_port = nat.send_internal_packet(client, 17, 33333, 80, 100);
    let other_port = nat.send_internal_packet(client, 17, 22222, 81, 100);
    assert_eq!(first, same_port);
    assert!(first != other_port);
}

#[test]
fn symmetric_mapping_gives_each_destination_its_own_port() {
    let mut nat = one_address(SYMMETRIC_NAT, StepRng::new(0, 1));
    let client = nat.assign_internal_address();
    let mut seen: Vec<u16> = Vec::new();
    for dst_port in 1..50u16 {
        match nat.send_internal_packet(client, 17, 22222, dst_port, 100) {
            DestType::External { external_src_addr, external_src_port } => {
                assert_eq!(external_src_addr, 11111);
                assert!(!seen.contains(&external_src_port));
                seen.push(external_src_port);
            }
            _ => assert!(false),
        }
    }
}

#[test]
fn drawn_ports_follow_the_draws() {
    let mut nat = one_address(FULL_CONE_NAT, StepRng::new(0, 1));
    let client = nat.assign_internal_address();
    assert_eq!(nat.send_internal_packet(client, 17, 22222, 80, 100), external(11111, 49153));
    assert_eq!(nat.send_internal_packet(client, 18, 22222, 80, 100), external(11111, 49154));
    assert_eq!(nat.send_internal_packet(client, 20, 22222, 80, 100), external(11111, 49156));
}

#[test]
fn drawn_ports_without_parity() {
    let mut nat = one_address(FULL_CONE_NAT | NO_PORT_PARITY, StepRng::new(0, 1));
    let client = nat.assign_internal_address();
    assert_eq!(nat.send_internal_packet(client, 17, 22222, 80, 100), external(11111, 49153));
    assert_eq!(nat.send_internal_packet(client, 19, 22222, 80, 100), external(11111, 49154));
}

#[test]
fn drawn_ports_keep_the_parity_of_the_source_port() {
    let mut nat = one_address(SYMMETRIC_NAT, StepRng::new(3, 7));
    let client = nat.assign_internal_address();
    for src_port in 1..200u16 {
        match nat.send_internal_packet(client, src_port, 22222, 80, 100) {
            DestType::External { external_src_port, .. } => {
                assert_eq!(external_src_port % 2, src_port % 2);
                assert!(external_src_port >= 49152);
            }
            _ => assert!(false),
        }
    }
}

#[test]
fn a_port_is_found_even_when_the_draws_repeat() {
    let mut nat = one_address(FULL_CONE_NAT, StepRng::new(0, 0));
    let client = nat.assign_internal_address();
    assert_eq!(nat.send_internal_packet(client, 17, 22222, 80, 100), external(11111, 49153));
    assert_eq!(nat.send_internal_packet(client, 19, 22222, 80, 100), external(11111, 49155));
    assert_eq!(nat.send_internal_packet(client, 21, 22222, 80, 100), external(11111, 49157));
    assert_eq!(nat.send_internal_packet(client, 16, 22222, 80, 100), external(11111, 49152));
}

#[test]
fn a_free_port_is_preserved() {
    let mut nat = one_address(EASY_NAT, StepRng::new(0, 1));
    let client = nat.assign_internal_address();
    for src_port in [1u16, 2, 80, 443, 49152, 65535] {
        assert_eq!(nat.send_internal_packet(client, src_port, 22222, 80, 100), external(11111, src_port));
    }
}

#[test]
fn port_preservation_falls_back_on_a_drawn_port() {
    let mut nat = one_address(EASY_NAT, StepRng::new(0, 1));
    let first = nat.assign_internal_address();
    let second = nat.assign_internal_address();
    assert_eq!(nat.send_internal_packet(first, 17, 22222, 80, 100), external(11111, 17));
    assert_eq!(nat.send_internal_packet(second, 17, 22222, 80, 100), external(11111, 49155));
    assert_eq!(nat.receive_external_packet(22222, 80, 11111, 17, false, 200), Some((first, 17)));
    assert_eq!(nat.receive_external_packet(22222, 80, 11111, 49155, false, 200), Some((second, 17)));
}

#[test]
fn port_preservation_override_displaces_the_holder() {
    let mut nat = one_address(STATEFUL_FIREWALL, StepRng::new(0, 1));
    let first = nat.assign_internal_address();
    let second = nat.assign_internal_address();
    assert_eq!(nat.send_internal_packet(first, 17, 22222, 80, 100), external(11111, 17));
    assert_eq!(nat.send_internal_packet(second, 17, 22222, 80, 100), external(11111, 17));
    assert_eq!(nat.receive_external_packet(22222, 80, 11111, 17, false, 200), Some((second, 17)));
}

#[test]
fn port_preservation_overload_shares_the_port() {
    let mut nat = one_address(MISBEHAVING_FIREWALL, StepRng::new(0, 1));
    let first = nat.assign_internal_address();
    let second = nat.assign_internal_address();
    assert_eq!(nat.send_internal_packet(first, 17, 22222, 80, 100), external(11111, 17));
    assert_eq!(nat.send_internal_packet(second, 17, 33333, 80, 100), external(11111, 17));
    assert_eq!(nat.receive_external_packet(33333, 80, 11111, 17, false, 200), Some((second, 17)));
    assert_eq!(nat.receive_external_packet(22222, 80, 11111, 17, false, 200), Some((first, 17)));
    assert_eq!(nat.receive_external_packet(44444, 80, 11111, 17, false, 200), None);
}

#[test]
fn port_preservation_overload_alone() {
    let mut nat = one_address(nat_emulation::flags::PORT_PRESERVATION_OVERLOAD, StepRng::new(0, 1));
    let first = nat.assign_internal_address();
    let second = nat.assign_internal_address();
    assert_eq!(nat.send_internal_packet(first, 17, 22222, 80, 100), external(11111, 17));
    assert_eq!(nat.send_internal_packet(second, 17, 33333, 80, 100), external(11111, 17));
    assert_eq!(nat.receive_external_packet(44444, 80, 11111, 17, false, 200), Some((first, 17)));
}

#[test]
fn overload_comes_before_override() {
    let flags = nat_emulation::flags::PORT_PRESERVATION_OVERLOAD | nat_emulation::flags::PORT_PRESERVATION_OVERRIDE;
    let mut nat = one_address(flags, StepRng::new(0, 1));
    let first = nat.assign_internal_address();
    let second = nat.assign_internal_address();
    nat.send_internal_packet(first, 17, 22222, 80, 100);
    nat.send_internal_packet(second, 17, 33333, 80, 100);
    assert_eq!(nat.receive_external_packet(44444, 80, 11111, 17, false, 200), Some((first, 17)));
}

#[test]
fn paired_pooling_keeps_a_host_on_its_address() {
    let mut nat: NATRouter<StepRng, 4> = NATRouter::new(
        NO_PORT_PRESERVATION | ADDRESS_DEPENDENT_MAPPING | PORT_DEPENDENT_MAPPING,
        [1, 2, 3, 4],
        90000..=99999,
        49152..=u16::MAX,
        StepRng::new(0, 1),
        TIMEOUT,
    );
    let client = nat.assign_internal_address();
    for dst_port in 1..20u16 {
        match nat.send_internal_packet(client, 17, 22222, dst_port, 100) {
            DestType::External { external_src_addr, .. } => assert_eq!(external_src_addr, 2),
            _ => assert!(false),
        }
    }
}

#[test]
fn port_preservation_moves_to_a_free_address_under_arbitrary_pooling() {
    let mut nat: NATRouter<StepRng, 2> = NATRouter::new(
        nat_emulation::flags::IP_POOLING_BEHAVIOR_ARBITRARY,
        [1, 2],
        90000..=99999,
        49152..=u16::MAX,
        StepRng::new(0, 1),
        TIMEOUT,
    );
    let first = nat.assign_internal_address();
    let second = nat.assign_internal_address();
    let a = nat.send_internal_packet(first, 17, 22222, 80, 100);
    let b = nat.send_internal_packet(second, 17, 22222, 80, 100);
    match (a, b) {
        (
            DestType::External { external_src_addr: a_addr, external_src_port: a_port },
            DestType::External { external_src_addr: b_addr, external_src_port: b_port },
        ) => {
            assert_eq!(a_port, 17);
            assert_eq!(b_port, 17);
            assert!(a_addr != b_addr);
        }
        _ => assert!(false),
    }
}

#[test]
fn hairpinning_rewrites_the_source_to_the_external_endpoint() {
    let mut nat = one_address(EASY_NAT, StepRng::new(0, 1));
    let first = nat.assign_internal_address();
    let second = nat.assign_internal_address();
    assert_eq!(nat.send_internal_packet(second, 20, 22222, 80, 100), external(11111, 20));
    let dest = nat.send_internal_packet(first, 17, 11111, 20, 200);
    assert_eq!(
        dest,
        DestType::Internal {
            external_src_addr: 11111,
            external_src_port: 17,
            internal_dest_addr: second,
            internal_dest_port: 20,
        }
    );
}

#[test]
fn hairpinning_bypasses_the_filter() {
    let mut nat = one_address(nat_emulation::predefines::PORT_RESTRICTED_CONE_NAT & !NO_PORT_PRESERVATION, StepRng::new(0, 1));
    let first = nat.assign_internal_address();
    let second = nat.assign_internal_address();
    assert_eq!(nat.send_internal_packet(second, 20, 22222, 80, 100), external(11111, 20));
    assert!(nat.send_internal_packet(first, 17, 11111, 20, 200).is_internal());
}

#[test]
fn hairpinning_with_internal_sources() {
    let mut nat = one_address(INTERNAL_ADDRESS_AND_PORT_HAIRPINNING, StepRng::new(0, 1));
    let first = nat.assign_internal_address();
    let second = nat.assign_internal_address();
    nat.send_internal_packet(second, 20, 22222, 80, 100);
    let dest = nat.send_internal_packet(first, 17, 11111, 20, 200);
    assert_eq!(
        dest,
        DestType::Internal {
            external_src_addr: first,
            external_src_port: 17,
            internal_dest_addr: second,
            internal_dest_port: 20,
        }
    );
}

#[test]
fn hairpinning_to_a_port_without_a_binding_is_dropped() {
    let mut nat = one_address(EASY_NAT, StepRng::new(0, 1));
    let first = nat.assign_internal_address();
    assert!(nat.send_internal_packet(first, 17, 11111, 99, 200).is_drop());
}

#[test]
fn hairpinning_can_be_switched_off() {
    let mut nat = one_address(NO_HAIRPINNING, StepRng::new(0, 1));
    let first = nat.assign_internal_address();
    let second = nat.assign_internal_address();
    nat.send_internal_packet(second, 20, 22222, 80, 100);
    assert!(nat.send_internal_packet(first, 17, 11111, 20, 200).is_drop());
}

#[test]
fn a_full_table_evicts_its_oldest_binding() {
    let mut nat: NATRouter<StepRng, 1> =
        NATRouter::new(EASY_NAT, [11111], 90000..=99999, 1000..=1004, StepRng::new(0, 1), TIMEOUT);
    let client = nat.assign_internal_address();
    assert_eq!(nat.send_internal_packet(client, 1, 22222, 80, 100), external(11111, 1));
    assert_eq!(nat.send_internal_packet(client, 2, 22222, 80, 200), external(11111, 2));
    assert_eq!(nat.send_internal_packet(client, 3, 22222, 80, 300), external(11111, 3));
    assert_eq!(nat.receive_external_packet(22222, 80, 11111, 1, false, 400), None);
    assert_eq!(nat.receive_external_packet(22222, 80, 11111, 2, false, 400), Some((client, 2)));
    assert_eq!(nat.receive_external_packet(22222, 80, 11111, 3, false, 400), Some((client, 3)));
}

#[test]
fn a_port_range_of_one_still_serves() {
    let mut nat: NATRouter<StepRng, 1> =
        NATRouter::new(FULL_CONE_NAT, [11111], 90000..=99999, 5..=5, StepRng::new(0, 1), TIMEOUT);
    let client = nat.assign_internal_address();
    assert_eq!(nat.send_internal_packet(client, 16, 22222, 80, 100), external(11111, 4));
    assert_eq!(nat.send_internal_packet(client, 17, 22222, 80, 100), external(11111, 5));
    assert_eq!(nat.receive_external_packet(22222, 80, 11111, 4, false, 200), None);
    assert_eq!(nat.receive_external_packet(22222, 80, 11111, 5, false, 200), Some((client, 17)));
}

#[test]
fn the_same_source_gives_the_same_answers() {
    let mut a = one_address(SYMMETRIC_NAT, StepRng::new(9, 5));
    let mut b = one_address(SYMMETRIC_NAT, StepRng::new(9, 5));
    assert_eq!(a.assign_internal_address(), b.assign_internal_address());
    let client = a.assign_internal_address();
    assert_eq!(client, b.assign_internal_address());
    for step in 0..100u16 {
        let now = 100 + step as i64;
        assert_eq!(
            a.send_internal_packet(client, step, 22222, 80 + step % 3, now),
            b.send_internal_packet(client, step, 22222, 80 + step % 3, now)
        );
        assert_eq!(
            a.receive_external_packet(22222, 80, 11111, 49152 + step, false, now),
            b.receive_external_packet(22222, 80, 11111, 49152 + step, false, now)
        );
    }
}
