use nat_emulation::binding::Binding;
use nat_emulation::draws::{
    address_for, first_free_port, match_parity, port_for, shuffled, slot_for,
};
use nat_emulation::flags::NO_PORT_PARITY;

fn on_port(port: u16) -> Binding {
    Binding {
        internal_addr: 1,
        internal_port: 1,
        external_port: port,
        remote_addr: 2,
        remote_port: 2,
        last_used_time: 0,
    }
}

#[test]
fn address_for_wraps_the_draw_into_the_range() {
    assert_eq!(address_for(12345, 90000, 99999), 92345);
    assert_eq!(address_for(0, 90000, 99999), 90000);
    assert_eq!(address_for(9999, 90000, 99999), 99999);
    assert_eq!(address_for(10000, 90000, 99999), 90000);
}

#[test]
fn address_for_a_range_of_one() {
    assert_eq!(address_for(u64::MAX, 5, 5), 5);
}

#[test]
fn address_for_the_whole_address_space() {
    assert_eq!(address_for(0x1_0000_0005, 0, u32::MAX), 5);
    assert_eq!(address_for(u32::MAX as u64, 0, u32::MAX), u32::MAX);
}

#[test]
fn slot_for_is_the_remainder() {
    assert_eq!(slot_for(10, 4), 2);
    assert_eq!(slot_for(7, 1), 0);
    assert_eq!(slot_for(u64::MAX, 64), 63);
}

#[test]
fn match_parity_copies_the_low_bit() {
    assert_eq!(match_parity(49152, 17, 0), 49153);
    assert_eq!(match_parity(49153, 17, 0), 49153);
    assert_eq!(match_parity(49153, 16, 0), 49152);
    assert_eq!(match_parity(65535, 2, 0), 65534);
}

#[test]
fn match_parity_is_off_under_no_port_parity() {
    assert_eq!(match_parity(49152, 17, NO_PORT_PARITY), 49152);
    assert_eq!(match_parity(49153, 16, NO_PORT_PARITY), 49153);
}

#[test]
fn port_for_places_the_draw_and_keeps_parity() {
    assert_eq!(port_for(3, 49152, 65535, 17, 0), 49155);
    assert_eq!(port_for(4, 49152, 65535, 17, 0), 49157);
    assert_eq!(port_for(16384 + 3, 49152, 65535, 16, 0), 49154);
    assert_eq!(port_for(4, 49152, 65535, 17, NO_PORT_PARITY), 49156);
}

#[test]
fn port_for_a_range_of_one_may_leave_the_range_by_parity() {
    assert_eq!(port_for(99, 5, 5, 16, 0), 4);
    assert_eq!(port_for(99, 5, 5, 17, 0), 5);
}

#[test]
fn port_for_the_top_of_the_port_space() {
    assert_eq!(port_for(65535, 0, 65535, 1, 0), 65535);
    assert_eq!(port_for(65535, 0, 65535, 0, 0), 65534);
}

#[test]
fn shuffled_follows_the_draws() {
    assert_eq!(shuffled(4, &vec![1, 2, 3]), vec![0, 3, 2, 1]);
    assert_eq!(shuffled(4, &vec![0, 0, 0]), vec![1, 2, 3, 0]);
    assert_eq!(shuffled(1, &vec![]), vec![0]);
}

#[test]
fn shuffled_holds_every_index_once() {
    let mut order = shuffled(6, &vec![17, 4, 99, 0, 3]);
    order.sort();
    assert_eq!(order, vec![0, 1, 2, 3, 4, 5]);
}

#[test]
fn first_free_port_skips_candidates_that_are_taken() {
    let table = vec![on_port(49153)];
    assert_eq!(first_free_port(&table, 49152, 65535, 17, 0), 49155);
    assert_eq!(first_free_port(&table, 49152, 65535, 16, 0), 49152);
    assert_eq!(first_free_port(&table, 49152, 65535, 17, NO_PORT_PARITY), 49152);
}

#[test]
fn first_free_port_on_an_empty_table_is_the_first_candidate() {
    let table: Vec<Binding> = Vec::new();
    assert_eq!(first_free_port(&table, 100, 200, 7, 0), 101);
    assert_eq!(first_free_port(&table, 100, 200, 8, 0), 100);
}
