use rip::error::Error;
use rip::proto::entry::ALLOWED_NETMASK;
use rip::table::get_ipv4_addr;
use rip::{ipv4, Action, Command, Endpoint, Entry, Message, Neighbor, PeerAddr, Route, RoutingTable};

fn neighbor_a() -> Neighbor {
    Neighbor {
        address: Endpoint { ip: ipv4(10, 0, 1, 2), port: 5892 },
        subnet_mask: ALLOWED_NETMASK,
        metric: 1,
    }
}

fn neighbor_b() -> Neighbor {
    Neighbor {
        address: Endpoint { ip: ipv4(10, 0, 2, 3), port: 5892 },
        subnet_mask: ALLOWED_NETMASK,
        metric: 9,
    }
}

fn table() -> RoutingTable {
    RoutingTable::new(&vec![neighbor_a(), neighbor_b()])
}

fn entry(a: u8, b: u8, c: u8, d: u8, metric: u32) -> Entry {
    Entry {
        address_family_id: 2,
        route_tag: 0,
        ip_address: ipv4(a, b, c, d),
        subnet_mask: ALLOWED_NETMASK,
        metric,
    }
}

fn from_a() -> PeerAddr {
    PeerAddr::V4(neighbor_a().address)
}

fn from_b() -> PeerAddr {
    PeerAddr::V4(neighbor_b().address)
}

#[test]
fn new_table_routes_to_each_neighbor() {
    let t = table();
    assert_eq!(t.len(), 2);
    assert_eq!(
        t.route(ipv4(10, 0, 1, 0)),
        Some(Route {
            destination: ipv4(10, 0, 1, 2),
            next_hop: ipv4(10, 0, 1, 2),
            subnet_mask: ALLOWED_NETMASK,
            metric: 1,
        })
    );
    assert_eq!(t.route(ipv4(10, 0, 2, 0)).unwrap().metric, 9);
    assert_eq!(t.neighbors(), &vec![neighbor_a(), neighbor_b()]);
}

#[test]
fn new_table_keeps_the_later_of_two_neighbors_on_one_address() {
    let mut other = neighbor_a();
    other.metric = 5;
    let t = RoutingTable::new(&vec![neighbor_a(), neighbor_b(), other]);
    assert_eq!(t.neighbors().len(), 2);
    assert!(t.neighbors().contains(&other));
    assert!(!t.neighbors().contains(&neighbor_a()));
    assert_eq!(t.route(ipv4(10, 0, 1, 0)).unwrap().metric, 5);
}

#[test]
fn get_ipv4_addr_refuses_ipv6() {
    assert_eq!(get_ipv4_addr(from_a()), Ok(ipv4(10, 0, 1, 2)));
    assert_eq!(get_ipv4_addr(PeerAddr::V6), Err(Error::NotIpv4));
}

#[test]
fn response_from_ipv6_or_stranger_is_refused() {
    let mut t = table();
    let mut actions = Vec::new();
    let entries = vec![entry(192, 168, 5, 7, 3)];
    assert_eq!(t.handle_response(&entries, PeerAddr::V6, &mut actions), Err(Error::NotIpv4));
    let stranger = PeerAddr::V4(Endpoint { ip: ipv4(10, 9, 9, 9), port: 5892 });
    assert_eq!(
        t.handle_response(&entries, stranger, &mut actions),
        Err(Error::NotANeighbor(ipv4(10, 9, 9, 9)))
    );
    assert!(actions.is_empty());
    assert_eq!(t.len(), 2);
}

#[test]
fn response_adds_route_and_triggers_update() {
    let mut t = table();
    let mut actions = Vec::new();
    let entries = vec![entry(192, 168, 5, 7, 3)];
    assert_eq!(t.handle_response(&entries, from_a(), &mut actions), Ok(()));
    let learned = Route {
        destination: ipv4(192, 168, 5, 7),
        next_hop: ipv4(10, 0, 1, 2),
        subnet_mask: ALLOWED_NETMASK,
        metric: 4,
    };
    assert_eq!(t.route(ipv4(192, 168, 5, 0)), Some(learned));
    let mut poisoned = learned.as_entry(ipv4(10, 0, 1, 2));
    assert_eq!(poisoned.metric, 16);
    poisoned.metric = 16;
    assert_eq!(
        actions,
        vec![
            Action::RestartTimer(ipv4(10, 0, 1, 0)),
            Action::PrintTable,
            Action::RestartTimer(ipv4(192, 168, 5, 0)),
            Action::AnnounceTrigger(ipv4(192, 168, 5, 7)),
            Action::SendTriggered(neighbor_a().address, poisoned),
            Action::SendTriggered(neighbor_b().address, entry(192, 168, 5, 7, 4)),
            Action::PrintTable,
        ]
    );
}

#[test]
fn invalid_entry_stops_the_response_after_earlier_entries() {
    let mut t = table();
    let mut actions = Vec::new();
    let mut bad = entry(172, 16, 0, 1, 2);
    bad.subnet_mask = 0xffff0000;
    let entries = vec![entry(192, 168, 5, 7, 3), bad, entry(192, 168, 6, 7, 3)];
    assert_eq!(
        t.handle_response(&entries, from_a(), &mut actions),
        Err(Error::InvalidNetmask(0xffff0000))
    );
    assert!(t.route(ipv4(192, 168, 5, 0)).is_some());
    assert!(t.route(ipv4(172, 16, 0, 0)).is_none());
    assert!(t.route(ipv4(192, 168, 6, 0)).is_none());
    assert_eq!(t.len(), 3);

    let mut actions = Vec::new();
    let entries = vec![entry(192, 168, 6, 7, 0)];
    assert_eq!(
        t.handle_response(&entries, from_a(), &mut actions),
        Err(Error::MetricOutOfBounds(0))
    );
    assert_eq!(actions, vec![Action::RestartTimer(ipv4(10, 0, 1, 0)), Action::PrintTable]);
}

#[test]
fn unreachable_network_is_not_learned() {
    let mut t = table();
    let mut actions = Vec::new();
    t.handle_entry(&neighbor_b(), &entry(192, 168, 5, 7, 16), &mut actions);
    assert!(actions.is_empty());
    assert_eq!(t.len(), 2);
    // 9 + 7 = 16: unreachable as well.
    t.handle_entry(&neighbor_b(), &entry(192, 168, 5, 7, 7), &mut actions);
    assert!(actions.is_empty());
    assert_eq!(t.len(), 2);
}

#[test]
fn better_route_replaces_and_worse_one_from_elsewhere_does_not() {
    let mut t = table();
    let mut actions = Vec::new();
    t.handle_entry(&neighbor_b(), &entry(192, 168, 5, 7, 5), &mut actions);
    assert_eq!(t.route(ipv4(192, 168, 5, 0)).unwrap().metric, 14);

    // Through A it costs 1 + 2 = 3 < 14: replaced, no triggered update.
    let mut actions = Vec::new();
    t.handle_entry(&neighbor_a(), &entry(192, 168, 5, 7, 2), &mut actions);
    let route = t.route(ipv4(192, 168, 5, 0)).unwrap();
    assert_eq!(route.metric, 3);
    assert_eq!(route.next_hop, ipv4(10, 0, 1, 2));
    // The metric changed: a triggered update for the route as it now is.
    assert_eq!(
        actions,
        vec![
            Action::RestartTimer(ipv4(192, 168, 5, 0)),
            Action::AnnounceTrigger(ipv4(192, 168, 5, 7)),
            Action::SendTriggered(neighbor_a().address, entry(192, 168, 5, 7, 16)),
            Action::SendTriggered(neighbor_b().address, entry(192, 168, 5, 7, 3)),
            Action::PrintTable,
        ]
    );

    // B now offers 9 + 1 = 10 > 3: the route stays.
    let mut actions = Vec::new();
    t.handle_entry(&neighbor_b(), &entry(192, 168, 5, 7, 1), &mut actions);
    assert_eq!(t.route(ipv4(192, 168, 5, 0)).unwrap(), route);
    assert_eq!(actions, vec![Action::PrintTable]);

    // The next hop A itself reports 15: 1 + 15 = 16, the route gets worse.
    let mut actions = Vec::new();
    t.handle_entry(&neighbor_a(), &entry(192, 168, 5, 7, 15), &mut actions);
    assert_eq!(t.route(ipv4(192, 168, 5, 0)).unwrap().metric, 16);
    assert_eq!(
        actions,
        vec![
            Action::RestartTimer(ipv4(192, 168, 5, 0)),
            Action::AnnounceTrigger(ipv4(192, 168, 5, 7)),
            Action::SendTriggered(neighbor_a().address, entry(192, 168, 5, 7, 16)),
            Action::SendTriggered(neighbor_b().address, entry(192, 168, 5, 7, 16)),
            Action::PrintTable,
        ]
    );

    // The same cost again from the next hop: the timer restarts, nothing is sent.
    let mut actions = Vec::new();
    t.handle_entry(&neighbor_a(), &entry(192, 168, 5, 7, 15), &mut actions);
    assert_eq!(actions, vec![Action::RestartTimer(ipv4(192, 168, 5, 0)), Action::PrintTable]);
}

#[test]
fn same_entry_twice_changes_nothing_more() {
    let mut t = table();
    let mut actions = Vec::new();
    t.handle_entry(&neighbor_b(), &entry(192, 168, 5, 7, 5), &mut actions);
    let once = t.table_rows();
    t.handle_entry(&neighbor_b(), &entry(192, 168, 5, 7, 5), &mut actions);
    let mut twice = t.table_rows();
    let mut once = once;
    once.sort_by_key(|r| r.destination);
    twice.sort_by_key(|r| r.destination);
    assert_eq!(once, twice);
}

#[test]
fn timeout_makes_route_unreachable_and_triggers_update() {
    let mut t = table();
    let mut actions = Vec::new();
    t.handle_timeout(ipv4(10, 0, 2, 0), &mut actions);
    let expired = t.route(ipv4(10, 0, 2, 0)).unwrap();
    assert_eq!(expired.metric, 16);
    assert_eq!(expired.next_hop, ipv4(10, 0, 2, 3));
    assert_eq!(t.route(ipv4(10, 0, 1, 0)).unwrap().metric, 1);
    let mut to_a = entry(10, 0, 2, 3, 16);
    to_a.subnet_mask = ALLOWED_NETMASK;
    assert_eq!(
        actions,
        vec![
            Action::AnnounceTrigger(ipv4(10, 0, 2, 3)),
            Action::SendTriggered(neighbor_a().address, to_a),
            Action::SendTriggered(neighbor_b().address, to_a),
            Action::PrintTable,
        ]
    );

    let mut actions = Vec::new();
    t.handle_timeout(ipv4(1, 2, 3, 0), &mut actions);
    assert_eq!(actions, vec![Action::PrintTable]);
    assert_eq!(t.len(), 2);
}

#[test]
fn as_entry_poisons_routes_to_or_through_the_neighbor() {
    let route = Route {
        destination: ipv4(192, 168, 5, 7),
        next_hop: ipv4(10, 0, 1, 2),
        subnet_mask: ALLOWED_NETMASK,
        metric: 4,
    };
    assert_eq!(route.as_entry(ipv4(10, 0, 1, 2)).metric, 16);
    assert_eq!(route.as_entry(ipv4(192, 168, 5, 7)).metric, 16);
    let other = route.as_entry(ipv4(10, 0, 2, 3));
    assert_eq!(other, entry(192, 168, 5, 7, 4));
}

#[test]
fn periodic_update_announces_every_route_to_every_neighbor() {
    let t = table();
    let mut actions = Vec::new();
    t.send_updates(&mut actions);
    assert_eq!(actions.len(), 2);
    for (action, neighbor) in actions.iter().zip([neighbor_a(), neighbor_b()].iter()) {
        match action {
            Action::SendUpdate(to, entries) => {
                assert_eq!(*to, neighbor.address);
                let mut entries = entries.clone();
                entries.sort_by_key(|e| e.ip_address);
                let mut expected = vec![
                    Route {
                        destination: ipv4(10, 0, 1, 2),
                        next_hop: ipv4(10, 0, 1, 2),
                        subnet_mask: ALLOWED_NETMASK,
                        metric: 1,
                    }
                    .as_entry(neighbor.address.ip),
                    Route {
                        destination: ipv4(10, 0, 2, 3),
                        next_hop: ipv4(10, 0, 2, 3),
                        subnet_mask: ALLOWED_NETMASK,
                        metric: 9,
                    }
                    .as_entry(neighbor.address.ip),
                ];
                expected.sort_by_key(|e| e.ip_address);
                assert_eq!(entries, expected);
            }
            other => panic!("unexpected action {:?}", other),
        }
    }
    let to_a = t.build_update_for(&neighbor_a().address);
    let poisoned: Vec<u32> = to_a.iter().filter(|e| e.metric == 16).map(|e| e.ip_address).collect();
    assert_eq!(poisoned, vec![ipv4(10, 0, 1, 2)]);
}

#[test]
fn start_timeouts_restarts_every_route() {
    let t = table();
    let mut actions = Vec::new();
    t.start_timeouts(&mut actions);
    let mut prefixes: Vec<u32> = actions
        .iter()
        .map(|a| match a {
            Action::RestartTimer(p) => *p,
            other => panic!("unexpected action {:?}", other),
        })
        .collect();
    prefixes.sort();
    assert_eq!(prefixes, vec![ipv4(10, 0, 1, 0), ipv4(10, 0, 2, 0)]);
}

#[test]
fn request_is_ignored_and_response_is_taken_in() {
    let mut t = table();
    let mut actions = Vec::new();
    let request = Message { command: Command::Request, entries: vec![entry(192, 168, 5, 7, 3)] };
    assert_eq!(t.handle_incoming(&request, from_a(), &mut actions), Ok(()));
    assert!(actions.is_empty());
    assert_eq!(t.len(), 2);
    let response = Message { command: Command::Response, entries: vec![entry(192, 168, 5, 7, 3)] };
    assert_eq!(t.handle_incoming(&response, from_b(), &mut actions), Ok(()));
    assert_eq!(t.route(ipv4(192, 168, 5, 0)).unwrap().metric, 12);
    assert_eq!(
        t.handle_incoming(&response, PeerAddr::V6, &mut actions),
        Err(Error::NotIpv4)
    );
}

#[test]
fn fits_response_detects_cost_overflow() {
    let mut heavy = neighbor_a();
    heavy.metric = u32::MAX - 2;
    let t = RoutingTable::new(&vec![heavy]);
    assert!(t.fits_response(&vec![entry(192, 168, 5, 7, 2)], from_a()));
    assert!(!t.fits_response(&vec![entry(192, 168, 5, 7, 3)], from_a()));
    let mut bad = entry(192, 168, 5, 7, 3);
    bad.metric = 0;
    assert!(t.fits_response(&vec![bad, entry(192, 168, 5, 7, 3)], from_a()));
    assert!(t.fits_response(&vec![entry(192, 168, 5, 7, 3)], PeerAddr::V6));
    assert!(table().fits_response(&vec![entry(192, 168, 5, 7, 3)], from_a()));
}

#[test]
fn neighbor_network_prefix_masks_address() {
    assert_eq!(neighbor_a().network_prefix(), ipv4(10, 0, 1, 0));
}

#[test]
fn periodic_update_is_cut_into_messages_of_at_most_25_entries() {
    let mut t = table();
    let mut actions = Vec::new();
    for i in 0..30u8 {
        t.handle_entry(&neighbor_a(), &entry(192, 168, i, 1, 2), &mut actions);
    }
    assert_eq!(t.len(), 32);
    let mut actions = Vec::new();
    t.send_updates(&mut actions);
    assert_eq!(actions.len(), 4);
    let mut per_neighbor: Vec<(Endpoint, usize)> = Vec::new();
    for action in &actions {
        match action {
            Action::SendUpdate(to, entries) => {
                assert!(entries.len() <= 25);
                match per_neighbor.last_mut() {
                    Some((last, count)) if *last == *to => *count += entries.len(),
                    _ => per_neighbor.push((*to, entries.len())),
                }
            }
            other => panic!("unexpected action {:?}", other),
        }
    }
    assert_eq!(per_neighbor, vec![(neighbor_a().address, 32), (neighbor_b().address, 32)]);
    match (&actions[0], &actions[1]) {
        (Action::SendUpdate(_, first), Action::SendUpdate(_, second)) => {
            assert_eq!(first.len(), 25);
            assert_eq!(second.len(), 7);
        }
        _ => panic!("expected two updates to the first neighbor"),
    }
}

#[test]
fn small_update_is_one_message_per_neighbor() {
    let t = RoutingTable::new(&vec![]);
    let mut actions = Vec::new();
    t.send_updates(&mut actions);
    assert!(actions.is_empty());
    let t = table();
    let mut actions = Vec::new();
    t.send_updates(&mut actions);
    assert_eq!(actions.len(), 2);
}
