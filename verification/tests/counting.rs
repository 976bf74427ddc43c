use request_counter::AppState;
use request_counter::IpAddress;

#[test]
fn increment_ip_count() {
    let mut state = AppState::default();
    let ip = IpAddress::v4(127, 0, 0, 1);

    state.increment_ip_count(ip);
    assert_eq!(state.get(&ip).unwrap(), 1);

    state.increment_ip_count(ip);
    assert_eq!(state.get(&ip).unwrap(), 2);
}

#[test]
fn get_sorted_ip_counts() {
    let mut state = AppState::default();
    let ip1 = IpAddress::v4(127, 0, 0, 1);
    let ip2 = IpAddress::v4(127, 0, 0, 2);

    state.increment_ip_count(ip1);
    state.increment_ip_count(ip1);
    state.increment_ip_count(ip2);

    let sorted = state.get_sorted_ip_counts();
    assert_eq!(sorted, vec![(ip1, 2), (ip2, 1)]);
}

#[test]
fn format_ip_stats() {
    let mut state = AppState::default();
    let ip = IpAddress::v4(127, 0, 0, 1);

    state.increment_ip_count(ip);

    let formatted = state.format_ip_stats();
    let expected = format!("IPs:\n  {}: 1\n", ip.to_text());
    assert_eq!(formatted, expected);
}

#[test]
fn format_of_one_loopback_request_is_exact() {
    let mut state = AppState::new();
    state.increment_ip_count(IpAddress::v4(127, 0, 0, 1));
    assert_eq!(state.format_ip_stats(), "IPs:\n  127.0.0.1: 1\n");
}

#[test]
fn new_state_is_empty() {
    let state = AppState::new();
    assert_eq!(state.get(&IpAddress::v4(127, 0, 0, 1)), None);
    assert_eq!(state.get_sorted_ip_counts(), vec![]);
    assert_eq!(state.format_ip_stats(), "IPs:\n");
    let state = AppState::default();
    assert_eq!(state.get_sorted_ip_counts(), vec![]);
}

#[test]
fn unseen_address_has_no_count() {
    let mut state = AppState::new();
    state.increment_ip_count(IpAddress::v4(10, 0, 0, 1));
    assert_eq!(state.get(&IpAddress::v4(10, 0, 0, 2)), None);
    assert_eq!(state.get(&IpAddress::V6(0x0a00_0001)), None);
    assert_eq!(state.get(&IpAddress::v4(10, 0, 0, 1)), Some(1));
}

#[test]
fn count_equals_number_of_increments() {
    let mut state = AppState::new();
    let ip = IpAddress::v4(192, 168, 1, 7);
    let other = IpAddress::v4(192, 168, 1, 8);
    for n in 1..=500u64 {
        state.increment_ip_count(ip);
        if n % 3 == 0 {
            state.increment_ip_count(other);
        }
        assert_eq!(state.get(&ip), Some(n));
    }
    assert_eq!(state.get(&other), Some(166));
}

#[test]
fn many_callers_sum_to_the_expected_total() {
    let mut state = AppState::new();
    let ip = IpAddress::v4(203, 0, 113, 9);
    let callers = 100u64;
    let each = 1000u64;
    for _ in 0..callers {
        for _ in 0..each {
            state.increment_ip_count(ip);
        }
    }
    assert_eq!(state.get(&ip), Some(callers * each));
    assert_eq!(state.get_sorted_ip_counts(), vec![(ip, 100_000)]);
}

#[test]
fn increment_leaves_other_addresses_alone() {
    let mut state = AppState::new();
    let a = IpAddress::v4(1, 1, 1, 1);
    let b = IpAddress::V6(1);
    state.increment_ip_count(a);
    state.increment_ip_count(b);
    state.increment_ip_count(b);
    state.increment_ip_count(a);
    state.increment_ip_count(b);
    assert_eq!(state.get(&a), Some(2));
    assert_eq!(state.get(&b), Some(3));
}

#[test]
fn mapped_address_is_counted_apart_from_the_ipv4_address() {
    let mut state = AppState::new();
    let plain = IpAddress::v4(192, 0, 2, 128);
    let mapped = IpAddress::v6([0, 0, 0, 0, 0, 0xffff, 0xc000, 0x0280]);
    state.increment_ip_count(plain);
    state.increment_ip_count(mapped);
    state.increment_ip_count(mapped);
    assert_eq!(state.get(&plain), Some(1));
    assert_eq!(state.get(&mapped), Some(2));
    assert_eq!(state.get_sorted_ip_counts(), vec![(mapped, 2), (plain, 1)]);
    assert_eq!(
        state.format_ip_stats(),
        "IPs:\n  ::ffff:192.0.2.128: 2\n  192.0.2.128: 1\n"
    );
}

#[test]
fn snapshot_counts_never_increase() {
    let mut state = AppState::new();
    for i in 0..40u8 {
        let ip = IpAddress::v4(10, 0, 0, i);
        for _ in 0..((i as u32 * 7) % 11 + 1) {
            state.increment_ip_count(ip);
        }
    }
    for i in 0..10u128 {
        let ip = IpAddress::V6(0x2001_0db8 << 96 | i);
        for _ in 0..(i % 4 + 1) {
            state.increment_ip_count(ip);
        }
    }
    let sorted = state.get_sorted_ip_counts();
    assert_eq!(sorted.len(), 50);
    for pair in sorted.windows(2) {
        assert!(pair[0].1 >= pair[1].1);
        if pair[0].1 == pair[1].1 {
            assert!(pair[0].0.comes_before(&pair[1].0));
        }
    }
    for (ip, count) in &sorted {
        assert!(*count >= 1);
        assert_eq!(state.get(ip), Some(*count));
    }
}

#[test]
fn equal_counts_are_listed_in_address_order() {
    let mut state = AppState::new();
    let c = IpAddress::V6(5);
    let b = IpAddress::v4(9, 9, 9, 9);
    let a = IpAddress::v4(1, 2, 3, 4);
    state.increment_ip_count(c);
    state.increment_ip_count(b);
    state.increment_ip_count(a);
    assert_eq!(state.get_sorted_ip_counts(), vec![(a, 1), (b, 1), (c, 1)]);
}

#[test]
fn reading_twice_gives_the_same_snapshot() {
    let mut state = AppState::new();
    for i in 0..30u8 {
        state.increment_ip_count(IpAddress::v4(172, 16, i % 7, i % 5));
    }
    let first = state.get_sorted_ip_counts();
    let second = state.get_sorted_ip_counts();
    assert_eq!(first, second);
    assert_eq!(state.format_ip_stats(), state.format_ip_stats());
}

#[test]
fn report_lists_entries_in_snapshot_order() {
    let mut state = AppState::new();
    let a = IpAddress::v4(127, 0, 0, 1);
    let b = IpAddress::v4(127, 0, 0, 2);
    let c = IpAddress::v6([0x2001, 0xdb8, 0, 0, 0, 0, 0, 1]);
    for _ in 0..12 {
        state.increment_ip_count(c);
    }
    for _ in 0..2 {
        state.increment_ip_count(a);
    }
    state.increment_ip_count(b);
    assert_eq!(
        state.format_ip_stats(),
        "IPs:\n  2001:db8::1: 12\n  127.0.0.1: 2\n  127.0.0.2: 1\n"
    );
    assert_eq!(
        state.format_ip_stats(),
        request_counter::report::format_entries(&state.get_sorted_ip_counts())
    );
}
