use nat_emulation::simple::{
    DestType, EASY_NAT, FULL_CONE_NAT, IP_POOLING_MAXIMUM, NAT, NO_HAIRPINNING,
    RESTRICTED_FIREWALL, SYMMETRIC_NAT,
};

const TIMEOUT: i64 = 120000;

fn one_address(flags: u32, seed: u64) -> NAT {
    NAT::new(&[11111], 90000..100000, 49152..65535, seed, TIMEOUT, flags)
}

fn internet(src: u32, src_port: u16, dst: u32, dst_port: u16) -> DestType {
    DestType::Internet { src_address: src, src_port, dest_address: dst, dest_port: dst_port }
}

#[test]
fn unwrap_gives_the_fields_unless_dropped() {
    assert_eq!(internet(1, 2, 3, 4).unwrap(), Some((1, 2, 3, 4)));
    let back = DestType::Intranet { src_address: 5, src_port: 6, dest_address: 7, dest_port: 8 };
    assert_eq!(back.unwrap(), Some((5, 6, 7, 8)));
    assert_eq!(DestType::Drop.unwrap(), None);
}

#[test]
fn new_keeps_the_addresses() {
    let nat = NAT::new(&[1, 2, 3], 90000..100000, 49152..65535, 12, TIMEOUT, EASY_NAT);
    assert_eq!(nat.assigned_addresses(), &[1, 2, 3]);
    assert_eq!(IP_POOLING_MAXIMUM, 64);
}

#[test]
fn the_first_address_follows_the_seed() {
    let mut nat = one_address(EASY_NAT, 12);
    assert_eq!(nat.assign_intranet_address(), 93283);
}

#[test]
fn the_top_of_a_half_open_range_is_never_assigned() {
    let mut nat = NAT::new(&[11111], 500..502, 49152..65535, 12, TIMEOUT, EASY_NAT);
    let a = nat.assign_intranet_address();
    let b = nat.assign_intranet_address();
    assert!(a != b);
    assert!(a == 500 || a == 501);
    assert!(b == 500 || b == 501);
}

#[test]
fn a_dead_generator_still_assigns_new_addresses() {
    let mut nat = NAT::new(&[11111], 500..503, 49152..65535, 0, TIMEOUT, EASY_NAT);
    assert_eq!(nat.assign_intranet_address(), 500);
    assert_eq!(nat.assign_intranet_address(), 501);
    assert!(nat.has_spare_address());
    assert_eq!(nat.assign_intranet_address(), 502);
    assert!(!nat.has_spare_address());
}

#[test]
fn an_easy_translator_keeps_the_port_and_opens_the_way_back() {
    let mut nat = one_address(EASY_NAT, 12);
    let client = nat.assign_intranet_address();
    assert_eq!(nat.from_internet(22222, 80, 11111, 17, false, 200), None);
    assert_eq!(nat.from_intranet(client, 17, 22222, 80, 300), internet(11111, 17, 22222, 80));
    assert_eq!(nat.from_internet(22222, 80, 11111, 17, false, 400), Some((22222, 80, client, 17)));
    assert_eq!(nat.from_internet(22222, 80, 11111, 17, false, 400 + TIMEOUT + 1), None);
}

#[test]
fn a_drawn_port_follows_the_seed() {
    let mut nat = one_address(FULL_CONE_NAT, 12);
    let client = nat.assign_intranet_address();
    assert_eq!(nat.from_intranet(client, 17, 22222, 80, 300), internet(11111, 62333, 22222, 80));
}

#[test]
fn a_filtered_packet_is_turned_away() {
    let mut nat = one_address(RESTRICTED_FIREWALL, 12);
    let client = nat.assign_intranet_address();
    assert_eq!(nat.from_intranet(client, 17, 22222, 80, 300), internet(11111, 17, 22222, 80));
    assert_eq!(nat.from_internet(33333, 80, 11111, 17, false, 400), None);
    assert_eq!(nat.from_internet(33333, 80, 11111, 17, true, 400), Some((33333, 80, client, 17)));
    assert_eq!(nat.from_internet(22222, 81, 11111, 17, false, 400), Some((22222, 81, client, 17)));
}

#[test]
fn packets_for_the_intranet_stay_there() {
    let mut nat = one_address(EASY_NAT, 12);
    let dest = nat.from_intranet(90000, 17, 90001, 80, 100);
    assert_eq!(
        dest,
        DestType::Intranet { src_address: 90000, src_port: 17, dest_address: 90001, dest_port: 80 }
    );
}

#[test]
fn unregistered_and_removed_hosts_are_dropped() {
    let mut nat = one_address(EASY_NAT, 12);
    assert_eq!(nat.from_intranet(90000, 17, 22222, 80, 100), DestType::Drop);
    let client = nat.assign_intranet_address();
    assert!(nat.from_intranet(client, 17, 22222, 80, 100) != DestType::Drop);
    nat.remove_intranet_address(client);
    assert_eq!(nat.from_intranet(client, 17, 22222, 80, 100), DestType::Drop);
}

#[test]
fn hairpinned_packets_name_the_internal_destination() {
    let mut nat = one_address(EASY_NAT, 12);
    let first = nat.assign_intranet_address();
    let second = nat.assign_intranet_address();
    assert_eq!(nat.from_intranet(second, 20, 22222, 80, 100), internet(11111, 20, 22222, 80));
    assert_eq!(
        nat.from_intranet(first, 17, 11111, 20, 200),
        DestType::Intranet { src_address: 11111, src_port: 17, dest_address: second, dest_port: 20 }
    );
    let mut closed = one_address(NO_HAIRPINNING, 12);
    let first = closed.assign_intranet_address();
    assert_eq!(closed.from_intranet(first, 17, 11111, 20, 200), DestType::Drop);
}

#[test]
fn the_same_seed_gives_the_same_answers() {
    let mut a = NAT::new(&[1, 2, 3], 90000..100000, 49152..65535, 77, TIMEOUT, SYMMETRIC_NAT | 1);
    let mut b = NAT::new(&[1, 2, 3], 90000..100000, 49152..65535, 77, TIMEOUT, SYMMETRIC_NAT | 1);
    let client = a.assign_intranet_address();
    assert_eq!(client, b.assign_intranet_address());
    assert_eq!(a.assign_intranet_address(), b.assign_intranet_address());
    let mut answers: Vec<DestType> = Vec::new();
    for step in 0..200u16 {
        let now = 100 + step as i64;
        let from_a = a.from_intranet(client, step % 7, 22222, 80 + step, now);
        let from_b = b.from_intranet(client, step % 7, 22222, 80 + step, now);
        assert_eq!(from_a, from_b);
        assert_eq!(
            a.from_internet(22222, 80 + step, 2, 49152 + step, false, now),
            b.from_internet(22222, 80 + step, 2, 49152 + step, false, now)
        );
        answers.push(from_a);
    }
    assert!(answers.iter().all(|d| *d != DestType::Drop));
}

#[test]
fn port_preservation_tries_the_tables_in_a_shuffled_order() {
    let mut nat = NAT::new(&[1, 2, 3], 90000..100000, 49152..65535, 12, TIMEOUT, 1);
    let first = nat.assign_intranet_address();
    let second = nat.assign_intranet_address();
    let third = nat.assign_intranet_address();
    let mut used: Vec<u32> = Vec::new();
    for client in [first, second, third] {
        match nat.from_intranet(client, 17, 22222, 80, 100) {
            DestType::Internet { src_address, src_port, .. } => {
                assert_eq!(src_port, 17);
                assert!(!used.contains(&src_address));
                used.push(src_address);
            }
            _ => assert!(false),
        }
    }
    used.sort();
    assert_eq!(used, vec![1, 2, 3]);
}
