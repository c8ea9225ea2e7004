//! The routing table of a RIP router and its distance-vector rules.
//!
//! The table decides; the caller performs. Every operation that the
//! router runs on an event (a received message, a timer that fired, the
//! periodic update) changes the table and appends to a list of
//! `Action`s, which the caller then carries out in order.
use vstd::prelude::*;
use std::collections::HashMap;
use vstd::std_specs::hash::spec_hash_map_iter;
use vstd::std_specs::iter::IteratorSpec;
use crate::config::{spec_neighbor_prefix, Endpoint, Neighbor};
use crate::error::Error;
use crate::NetworkPrefix;
use crate::proto::entry::{entry_is_valid, Entry, ALLOWED_NETMASK, INFINITY};
use crate::proto::message::{Message, MAX_ENTRIES};
use crate::proto::command::Command;
use crate::rules::{
    accepted_entries, actions_after_entry, all_updates, announcements, response_outcome,
    update_actions, update_chunks, expired, first_invalid, fold_entries, is_update_for,
    lemma_first_invalid, lemma_first_invalid_after, own_entry, response_fits, routes_after_entry,
    triggered_update, validate_error,
};

verus! {

broadcast use vstd::std_specs::hash::group_hash_axioms;

/// Seconds between two periodic updates.
pub const REFRESH_DELAY: u64 = 1;

/// Seconds without word from a route's next hop after which the route
/// times out: six update periods.
pub const TIMEOUT_DELAY: u64 = REFRESH_DELAY * 6;

/// The address family of IPv4 in a RIP entry.
pub const AF_INET: u16 = 2;

/// A route of the table: where it leads, through which neighbor, and at
/// what cost. Addresses and masks are big-endian `u32`s.
#[derive(Debug, Clone, Copy, PartialEq, Eq, Structural)]
pub struct Route {
    pub destination: u32,
    pub next_hop: u32,
    pub subnet_mask: u32,
    pub metric: u32,
}

/// The entry that announces `r` to the neighbor at `neighbor`: with
/// poisoned reverse, a route that leads to that neighbor or through it is
/// announced as unreachable.
pub open spec fn spec_as_entry(r: Route, neighbor: u32) -> Entry {
    Entry {
        address_family_id: AF_INET,
        route_tag: 0,
        ip_address: r.destination,
        subnet_mask: r.subnet_mask,
        metric: if r.destination == neighbor || r.next_hop == neighbor {
            INFINITY
        } else {
            r.metric
        },
    }
}

impl Route {
    /// The entry that announces this route to the neighbor at `neighbor`.
    pub fn as_entry(&self, neighbor: u32) -> (r: Entry)
        ensures
            r == spec_as_entry(*self, neighbor),
    {
        let metric = if self.destination == neighbor || self.next_hop == neighbor {
            INFINITY
        } else {
            self.metric
        };
        Entry {
            address_family_id: AF_INET,
            route_tag: 0,
            ip_address: self.destination,
            subnet_mask: self.subnet_mask,
            metric,
        }
    }
}

/// What the caller of the table is to do.
#[derive(Debug, PartialEq, Eq)]
pub enum Action {
    /// (Re)start the timeout of the route to this network.
    RestartTimer(u32),
    /// Report that a triggered update goes out for this destination.
    AnnounceTrigger(u32),
    /// Send a response that carries this one entry to this neighbor.
    SendTriggered(Endpoint, Entry),
    /// Send a response that carries these entries to this neighbor.
    SendUpdate(Endpoint, Vec<Entry>),
    /// Print the routing table.
    PrintTable,
}

/// An `Action` as the contracts see it.
pub enum ActionSpec {
    RestartTimer(u32),
    AnnounceTrigger(u32),
    SendTriggered(Endpoint, Entry),
    SendUpdate(Endpoint, Seq<Entry>),
    PrintTable,
}

impl View for Action {
    type V = ActionSpec;

    open spec fn view(&self) -> ActionSpec {
        match self {
            Action::RestartTimer(p) => ActionSpec::RestartTimer(*p),
            Action::AnnounceTrigger(d) => ActionSpec::AnnounceTrigger(*d),
            Action::SendTriggered(to, e) => ActionSpec::SendTriggered(*to, *e),
            Action::SendUpdate(to, es) => ActionSpec::SendUpdate(*to, es@),
            Action::PrintTable => ActionSpec::PrintTable,
        }
    }
}

/// A list of actions as the contracts see it.
pub open spec fn actions_view(v: Seq<Action>) -> Seq<ActionSpec> {
    v.map_values(|a: Action| a@)
}

/// Appending an action appends its view.
pub proof fn lemma_actions_push(v: Seq<Action>, a: Action)
    ensures
        actions_view(v.push(a)) == actions_view(v).push(a@),
{
    assert(actions_view(v.push(a)) =~= actions_view(v).push(a@));
}

/// The address that a message came from.
#[derive(Debug, Clone, Copy, PartialEq, Eq, Structural)]
pub enum PeerAddr {
    V4(Endpoint),
    V6,
}

/// The IPv4 address of a sender; any other sender is refused.
pub fn get_ipv4_addr(from: PeerAddr) -> (r: Result<u32, Error>)
    ensures
        match from {
            PeerAddr::V4(a) => r == Ok::<u32, Error>(a.ip),
            PeerAddr::V6 => r == Err::<u32, Error>(Error::NotIpv4),
        },
{
    match from {
        PeerAddr::V4(a) => Ok(a.ip),
        PeerAddr::V6 => Err(Error::NotIpv4),
    }
}

/// The state of a routing table: its routes by network, and its
/// neighbors in the order in which it walks them.
pub struct TableView {
    pub routes: Map<u32, Route>,
    pub neighbors: Seq<Neighbor>,
}

/// A routing table. Its neighbors never change after it is made; no two
/// of them share an address.
pub struct RoutingTable {
    table: HashMap<u32, Route>,
    neighbors: Vec<Neighbor>,
}

/// `order` lists the neighbors of `m`, a map by address: as many as `m`
/// holds, each one of them under its own address, and every one of them.
pub open spec fn lists_neighbors(order: Seq<Neighbor>, m: Map<u32, Neighbor>) -> bool {
    &&& order.len() == m.dom().len()
    &&& forall|i: int|
        0 <= i < order.len() ==> #[trigger] m.contains_key(order[i].address.ip) && m[order[i].address.ip]
            == order[i]
    &&& forall|k: u32| #[trigger] m.contains_key(k) ==> order.contains(m[k])
}

/// `order` lists the routes of `m` with their networks: as many as `m`
/// holds, each one of them, and every one of them.
pub open spec fn lists_routes(order: Seq<(u32, Route)>, m: Map<u32, Route>) -> bool {
    &&& order.len() == m.dom().len()
    &&& forall|i: int|
        0 <= i < order.len() ==> #[trigger] m.contains_key(order[i].0) && m[order[i].0] == order[i].1
    &&& forall|k: u32| #[trigger] m.contains_key(k) ==> order.contains((k, m[k]))
}

/// No two neighbors of `ns` share an address.
pub open spec fn distinct_addresses(ns: Seq<Neighbor>) -> bool {
    forall|i: int, j: int|
        0 <= i < ns.len() && 0 <= j < ns.len() && i != j ==> #[trigger] ns[i].address.ip
            != #[trigger] ns[j].address.ip
}

/// The neighbor of `ns` at address `ip`, if there is one.
pub open spec fn neighbor_at(ns: Seq<Neighbor>, ip: u32) -> Option<Neighbor> {
    if exists|i: int| 0 <= i < ns.len() && #[trigger] ns[i].address.ip == ip {
        Some(ns[choose|i: int| 0 <= i < ns.len() && #[trigger] ns[i].address.ip == ip])
    } else {
        None
    }
}

/// The route that the configuration gives to a neighbor's network.
pub open spec fn configured_route(n: Neighbor) -> Route {
    Route {
        destination: n.address.ip,
        next_hop: n.address.ip,
        subnet_mask: n.subnet_mask,
        metric: n.metric,
    }
}

/// The routes of a new table: one to each neighbor's network; of two
/// neighbors on one network, the later one's.
pub open spec fn initial_routes(ns: Seq<Neighbor>) -> Map<u32, Route>
    decreases ns.len(),
{
    if ns.len() == 0 {
        Map::empty()
    } else {
        initial_routes(ns.drop_last()).insert(
            spec_neighbor_prefix(ns.last()),
            configured_route(ns.last()),
        )
    }
}

/// The neighbors of a new table by address; of two with one address, the
/// later one.
pub open spec fn initial_neighbors(ns: Seq<Neighbor>) -> Map<u32, Neighbor>
    decreases ns.len(),
{
    if ns.len() == 0 {
        Map::empty()
    } else {
        initial_neighbors(ns.drop_last()).insert(ns.last().address.ip, ns.last())
    }
}

/// What every table keeps: each route sits under the network of its
/// destination and goes through one of the neighbors, and no two
/// neighbors share an address.
pub open spec fn table_wf(t: TableView) -> bool {
    &&& t.routes.dom().finite()
    &&& distinct_addresses(t.neighbors)
    &&& forall|k: u32| #[trigger]
        t.routes.contains_key(k) ==> t.routes[k].destination & t.routes[k].subnet_mask == k
            && neighbor_at(t.neighbors, t.routes[k].next_hop) is Some
}

/// In a walk of a hash map of routes, the routes come each once, all of
/// them.
proof fn lemma_route_walk(m: &HashMap<u32, Route>)
    ensures
        lists_routes(
            spec_hash_map_iter(m).remaining().map_values(|p: (&u32, &Route)| (*p.0, *p.1)),
            m@,
        ),
{
    let rv = spec_hash_map_iter(m).remaining();
    let ro = rv.map_values(|p: (&u32, &Route)| (*p.0, *p.1));
    assert forall|k: u32| #[trigger] m@.contains_key(k) implies ro.contains((k, m@[k])) by {
        assert(rv.contains((&k, &m@[k])));
        let i = choose|i: int| 0 <= i < rv.len() && rv[i] == (&k, &m@[k]);
        assert(ro[i] == (k, m@[k]));
    }
    assert forall|i: int| 0 <= i < ro.len() implies #[trigger] m@.contains_key(ro[i].0) && m@[ro[i].0]
        == ro[i].1 by {
        assert(m@.contains_key(*rv[i].0));
    }
}

/// With distinct addresses, the neighbor at the address of the `i`-th is
/// the `i`-th.
pub proof fn lemma_neighbor_at_index(ns: Seq<Neighbor>, i: int)
    requires
        distinct_addresses(ns),
        0 <= i < ns.len(),
    ensures
        neighbor_at(ns, ns[i].address.ip) == Some(ns[i]),
{
}

/// A new table's map of neighbors is finite and holds each neighbor
/// under its own address.
pub proof fn lemma_initial_neighbors_keys(ns: Seq<Neighbor>)
    ensures
        initial_neighbors(ns).dom().finite(),
        forall|k: u32| #[trigger]
            initial_neighbors(ns).contains_key(k) ==> initial_neighbors(ns)[k].address.ip == k,
        forall|j: int|
            0 <= j < ns.len() ==> initial_neighbors(ns).contains_key(#[trigger] ns[j].address.ip),
    decreases ns.len(),
{
    if ns.len() > 0 {
        lemma_initial_neighbors_keys(ns.drop_last());
        assert forall|j: int| 0 <= j < ns.len() implies initial_neighbors(ns).contains_key(
            #[trigger] ns[j].address.ip,
        ) by {
            if j < ns.len() - 1 {
                assert(ns.drop_last()[j] == ns[j]);
                assert(initial_neighbors(ns.drop_last()).contains_key(ns.drop_last()[j].address.ip));
            }
        }
    }
}

/// Where the neighbor at address `ip` stands in `ns`, if anywhere.
fn position_of(ns: &Vec<Neighbor>, ip: u32) -> (r: Option<usize>)
    ensures
        match r {
            Some(j) => j < ns@.len() && ns@[j as int].address.ip == ip,
            None => forall|l: int| 0 <= l < ns@.len() ==> #[trigger] ns@[l].address.ip != ip,
        },
{
    let len = ns.len();
    for j in 0..len
        invariant
            len == ns@.len(),
            forall|l: int| 0 <= l < j ==> #[trigger] ns@[l].address.ip != ip,
    {
        if ns[j].address.ip == ip {
            return Some(j);
        }
    }
    None
}

/// Appends the responses that carry `entries` to `to`: the entries cut,
/// in order, into messages of at most `MAX_ENTRIES` entries.
fn push_update(actions: &mut Vec<Action>, to: Endpoint, entries: &Vec<Entry>)
    ensures
        actions_view(final(actions)@) == actions_view(old(actions)@) + update_actions(to, entries@),
{
    let len = entries.len();
    let mut start: usize = 0;
    assert(entries@.skip(0) =~= entries@);
    loop
        invariant_except_break
            start <= len,
            len == entries@.len(),
            actions_view(actions@) + update_actions(to, entries@.skip(start as int)) == actions_view(
                old(actions)@,
            ) + update_actions(to, entries@),
        ensures
            actions_view(actions@) == actions_view(old(actions)@) + update_actions(to, entries@),
        decreases len - start,
    {
        let rest_len = len - start;
        let end = if rest_len <= MAX_ENTRIES {
            len
        } else {
            start + MAX_ENTRIES
        };
        let mut chunk: Vec<Entry> = Vec::new();
        for i in start..end
            invariant
                start <= end <= len,
                len == entries@.len(),
                chunk@ == entries@.subrange(start as int, i as int),
        {
            chunk.push(entries[i]);
            assert(entries@.subrange(start as int, i + 1) =~= entries@.subrange(
                start as int,
                i as int,
            ).push(entries@[i as int]));
        }
        let ghost rest = entries@.skip(start as int);
        let ghost before = actions@;
        proof {
            lemma_actions_push(actions@, Action::SendUpdate(to, chunk));
        }
        actions.push(Action::SendUpdate(to, chunk));
        if end == len {
            proof {
                assert(rest =~= entries@.subrange(start as int, len as int));
                assert(update_actions(to, rest) =~= seq![ActionSpec::SendUpdate(to, rest)]);
            }
            break;
        }
        proof {
            assert(rest.take(MAX_ENTRIES as int) =~= entries@.subrange(start as int, end as int));
            assert(rest.skip(MAX_ENTRIES as int) =~= entries@.skip(end as int));
            assert(update_chunks(rest) == seq![rest.take(MAX_ENTRIES as int)] + update_chunks(
                rest.skip(MAX_ENTRIES as int),
            ));
            assert(update_actions(to, rest) =~= seq![
                ActionSpec::SendUpdate(to, rest.take(MAX_ENTRIES as int)),
            ] + update_actions(to, entries@.skip(end as int)));
        }
        start = end;
    }
}

impl View for RoutingTable {
    type V = TableView;

    closed spec fn view(&self) -> TableView {
        TableView { routes: self.table@, neighbors: self.neighbors@ }
    }
}

impl RoutingTable {
    /// The table keeps its invariant.
    pub open spec fn wf(&self) -> bool {
        table_wf(self@)
    }

    /// Appends the triggered update for `route`: a report, then one
    /// response per neighbor, in order, each with the one entry that
    /// announces `route` to that neighbor.
    pub fn send_triggered_update(&self, route: &Route, actions: &mut Vec<Action>)
        ensures
            actions_view(final(actions)@) == actions_view(old(actions)@) + triggered_update(
                *route,
                self@.neighbors,
            ),
    {
        let ghost start = actions@;
        let ghost ns = self@.neighbors;
        let ghost sends = ns.map_values(
            |nb: Neighbor| ActionSpec::SendTriggered(nb.address, spec_as_entry(*route, nb.address.ip)),
        );
        proof {
            lemma_actions_push(actions@, Action::AnnounceTrigger(route.destination));
        }
        actions.push(Action::AnnounceTrigger(route.destination));
        let n = self.neighbors.len();
        for i in 0..n
            invariant
                n == ns.len(),
                ns == self@.neighbors,
                sends == ns.map_values(
                    |nb: Neighbor|
                        ActionSpec::SendTriggered(nb.address, spec_as_entry(*route, nb.address.ip)),
                ),
                actions_view(actions@) == actions_view(start) + seq![
                    ActionSpec::AnnounceTrigger(route.destination),
                ] + sends.take(i as int),
        {
            let neighbor = &self.neighbors[i];
            let entry = route.as_entry(neighbor.address.ip);
            proof {
                lemma_actions_push(actions@, Action::SendTriggered(neighbor.address, entry));
                assert(sends.take(i + 1) =~= sends.take(i as int).push(sends[i as int]));
            }
            actions.push(Action::SendTriggered(neighbor.address, entry));
        }
        assert(sends.take(n as int) =~= sends);
    }

    /// Appends the triggered update for the route to `network_prefix`.
    pub fn send_triggered_update_for(&self, network_prefix: NetworkPrefix, actions: &mut Vec<Action>)
        requires
            self@.routes.contains_key(network_prefix),
        ensures
            actions_view(final(actions)@) == actions_view(old(actions)@) + triggered_update(
                self@.routes[network_prefix],
                self@.neighbors,
            ),
    {
        let route = *self.table.get(&network_prefix).unwrap();
        self.send_triggered_update(&route, actions);
    }

    /// Takes in an entry that the neighbor `neighbor` announced, as
    /// `routes_after_entry` says, and appends what the router does on it.
    pub fn handle_entry(&mut self, neighbor: &Neighbor, entry: &Entry, actions: &mut Vec<Action>)
        requires
            old(self).wf(),
            neighbor_at(old(self)@.neighbors, neighbor.address.ip) is Some,
            neighbor.metric + entry.metric <= u32::MAX,
        ensures
            final(self).wf(),
            final(self)@.neighbors == old(self)@.neighbors,
            final(self)@.routes == routes_after_entry(old(self)@.routes, *neighbor, *entry),
            actions_view(final(actions)@) == actions_view(old(actions)@) + actions_after_entry(
                old(self)@.routes,
                old(self)@.neighbors,
                *neighbor,
                *entry,
            ),
    {
        let ghost start = actions@;
        let network_prefix = entry.network_prefix();
        let sum = neighbor.metric + entry.metric;
        let src_to_dst_metric = if sum < INFINITY {
            sum
        } else {
            INFINITY
        };
        match self.table.get(&network_prefix) {
            None => {
                if src_to_dst_metric < INFINITY {
                    let route = Route {
                        destination: entry.ip_address,
                        next_hop: neighbor.address.ip,
                        subnet_mask: entry.subnet_mask,
                        metric: src_to_dst_metric,
                    };
                    proof {
                        lemma_actions_push(actions@, Action::RestartTimer(network_prefix));
                    }
                    actions.push(Action::RestartTimer(network_prefix));
                    self.send_triggered_update(&route, actions);
                    self.table.insert(network_prefix, route);
                    proof {
                        lemma_actions_push(actions@, Action::PrintTable);
                    }
                    actions.push(Action::PrintTable);
                    assert(actions_view(actions@) =~= actions_view(start) + actions_after_entry(
                        old(self)@.routes,
                        old(self)@.neighbors,
                        *neighbor,
                        *entry,
                    ));
                }
            },
            Some(existing) => {
                let existing = *existing;
                let is_neighbor = existing.next_hop == neighbor.address.ip;
                if is_neighbor || src_to_dst_metric < existing.metric {
                    let route = Route {
                        destination: existing.destination,
                        next_hop: neighbor.address.ip,
                        subnet_mask: existing.subnet_mask,
                        metric: src_to_dst_metric,
                    };
                    self.table.insert(network_prefix, route);
                    proof {
                        lemma_actions_push(actions@, Action::RestartTimer(network_prefix));
                    }
                    actions.push(Action::RestartTimer(network_prefix));
                    // A changed metric is announced at once.
                    let should_trigger_update = src_to_dst_metric != existing.metric;
                    if should_trigger_update {
                        self.send_triggered_update_for(network_prefix, actions);
                    }
                }
                proof {
                    lemma_actions_push(actions@, Action::PrintTable);
                }
                actions.push(Action::PrintTable);
                assert(actions_view(actions@) =~= actions_view(start) + actions_after_entry(
                    old(self)@.routes,
                    old(self)@.neighbors,
                    *neighbor,
                    *entry,
                ));
            },
        }
    }

    /// The neighbor at address `ip`, if there is one.
    pub fn find_neighbor(&self, ip: u32) -> (r: Option<Neighbor>)
        requires
            self.wf(),
        ensures
            r == neighbor_at(self@.neighbors, ip),
    {
        match position_of(&self.neighbors, ip) {
            Some(j) => {
                proof {
                    lemma_neighbor_at_index(self@.neighbors, j as int);
                }
                Some(self.neighbors[j])
            },
            None => None,
        }
    }

    /// Takes in a response from `from`. A sender other than an IPv4
    /// neighbor is refused and nothing changes. Otherwise the router takes
    /// in the neighbor's own entry, then the entries in order up to the
    /// first invalid one, which is refused with `Entry::validate`'s error
    /// (the entries before it stay taken in).
    pub fn handle_response(
        &mut self,
        entries: &Vec<Entry>,
        from: PeerAddr,
        actions: &mut Vec<Action>,
    ) -> (r: Result<(), Error>)
        requires
            old(self).wf(),
            response_fits(old(self)@.neighbors, entries@, from),
        ensures
            final(self).wf(),
            final(self)@.neighbors == old(self)@.neighbors,
            final(self)@.routes == response_outcome(
                old(self)@.routes,
                old(self)@.neighbors,
                entries@,
                from,
            ).routes,
            actions_view(final(actions)@) == actions_view(old(actions)@) + response_outcome(
                old(self)@.routes,
                old(self)@.neighbors,
                entries@,
                from,
            ).actions,
            r == response_outcome(old(self)@.routes, old(self)@.neighbors, entries@, from).result,
    {
        let from_addr = match get_ipv4_addr(from) {
            Ok(a) => a,
            Err(e) => return Err(e),
        };
        let neighbor = match self.find_neighbor(from_addr) {
            Some(n) => n,
            None => return Err(Error::NotANeighbor(from_addr)),
        };
        let ghost routes0 = self@.routes;
        let ghost ns = self@.neighbors;
        let ghost acts0 = actions@;
        let own = Entry {
            address_family_id: AF_INET,
            route_tag: 0,
            ip_address: from_addr,
            subnet_mask: neighbor.subnet_mask,
            metric: 0,
        };
        self.handle_entry(&neighbor, &own, actions);
        proof {
            let one = seq![own];
            assert(one.drop_last() =~= Seq::<Entry>::empty());
            assert(one + entries@.take(0) =~= one);
            assert(fold_entries(routes0, ns, neighbor, one.drop_last()) == (
                routes0,
                Seq::<ActionSpec>::empty(),
            ));
            assert(Seq::<ActionSpec>::empty() + actions_after_entry(routes0, ns, neighbor, own)
                =~= actions_after_entry(routes0, ns, neighbor, own));
        }
        let n = entries.len();
        for i in 0..n
            invariant
                n == entries@.len(),
                self.wf(),
                self@.neighbors == ns,
                ns == old(self)@.neighbors,
                routes0 == old(self)@.routes,
                acts0 == old(actions)@,
                neighbor_at(ns, from_addr) == Some(neighbor),
                from == PeerAddr::V4(Endpoint { ip: from_addr, port: from->V4_0.port }),
                response_fits(ns, entries@, from),
                own == own_entry(neighbor, from_addr),
                forall|j: int| 0 <= j < i ==> entry_is_valid(#[trigger] entries@[j]),
                self@.routes == fold_entries(routes0, ns, neighbor, seq![own] + entries@.take(i as int)).0,
                actions_view(actions@) == actions_view(acts0) + fold_entries(
                    routes0,
                    ns,
                    neighbor,
                    seq![own] + entries@.take(i as int),
                ).1,
        {
            let entry = entries[i];
            match entry.validate() {
                Ok(()) => {},
                Err(e) => {
                    proof {
                        lemma_first_invalid(entries@, i as int);
                    }
                    return Err(e);
                },
            }
            proof {
                lemma_first_invalid_after(entries@, i as int);
                let before = seq![own] + entries@.take(i as int);
                let after = seq![own] + entries@.take(i + 1);
                assert(after.drop_last() =~= before);
                assert(after.last() == entry);
            }
            self.handle_entry(&neighbor, &entry, actions);
        }
        proof {
            lemma_first_invalid(entries@, n as int);
        }
        Ok(())
    }

    /// Takes in a message from `from`: a request is ignored; a response is
    /// taken in as `handle_response` says.
    pub fn handle_incoming(
        &mut self,
        message: &Message,
        from: PeerAddr,
        actions: &mut Vec<Action>,
    ) -> (r: Result<(), Error>)
        requires
            old(self).wf(),
            message.command == Command::Response ==> response_fits(
                old(self)@.neighbors,
                message.entries@,
                from,
            ),
        ensures
            final(self).wf(),
            final(self)@.neighbors == old(self)@.neighbors,
            message.command == Command::Request ==> {
                &&& r is Ok
                &&& final(self)@.routes == old(self)@.routes
                &&& final(actions)@ == old(actions)@
            },
            message.command == Command::Response ==> {
                let outcome = response_outcome(
                    old(self)@.routes,
                    old(self)@.neighbors,
                    message.entries@,
                    from,
                );
                &&& final(self)@.routes == outcome.routes
                &&& actions_view(final(actions)@) == actions_view(old(actions)@) + outcome.actions
                &&& r == outcome.result
            },
    {
        match message.command {
            Command::Request => {
                // Requests serve diagnostics only; they are not answered.
            },
            Command::Response => {
                self.handle_response(&message.entries, from, actions)?;
            },
        };
        Ok(())
    }

    /// The timer of the route to `network_prefix` fired: the route, if
    /// there is one, becomes unreachable and a triggered update goes out
    /// for it; the table is printed either way.
    pub fn handle_timeout(&mut self, network_prefix: NetworkPrefix, actions: &mut Vec<Action>)
        requires
            old(self).wf(),
        ensures
            final(self).wf(),
            final(self)@.neighbors == old(self)@.neighbors,
            old(self)@.routes.contains_key(network_prefix) ==> {
                &&& final(self)@.routes == old(self)@.routes.insert(
                    network_prefix,
                    expired(old(self)@.routes[network_prefix]),
                )
                &&& actions_view(final(actions)@) == actions_view(old(actions)@) + triggered_update(
                    expired(old(self)@.routes[network_prefix]),
                    old(self)@.neighbors,
                ) + seq![ActionSpec::PrintTable]
            },
            !old(self)@.routes.contains_key(network_prefix) ==> {
                &&& final(self)@.routes == old(self)@.routes
                &&& actions_view(final(actions)@) == actions_view(old(actions)@).push(
                    ActionSpec::PrintTable,
                )
            },
    {
        let should_trigger_update = match self.table.get(&network_prefix) {
            Some(entry) => {
                let route = Route {
                    destination: entry.destination,
                    next_hop: entry.next_hop,
                    subnet_mask: entry.subnet_mask,
                    metric: INFINITY,
                };
                self.table.insert(network_prefix, route);
                true
            },
            None => false,
        };
        if should_trigger_update {
            self.send_triggered_update_for(network_prefix, actions);
        }
        proof {
            lemma_actions_push(actions@, Action::PrintTable);
        }
        actions.push(Action::PrintTable);
    }

    /// The entries of a periodic update to the neighbor at
    /// `neighbor_address`: one per route, announced to that neighbor.
    pub fn build_update_for(&self, neighbor_address: &Endpoint) -> (r: Vec<Entry>)
        ensures
            is_update_for(r@, self@.routes, neighbor_address.ip),
    {
        let neighbor_ip = neighbor_address.ip;
        let ghost walk = spec_hash_map_iter(&self.table).remaining();
        let ghost order = walk.map_values(|p: (&u32, &Route)| (*p.0, *p.1));
        proof {
            lemma_route_walk(&self.table);
        }
        let mut entries: Vec<Entry> = Vec::new();
        for (_network_prefix, route) in it: self.table.iter()
            invariant
                it.seq() == walk,
                order == walk.map_values(|p: (&u32, &Route)| (*p.0, *p.1)),
                entries@.len() == it.index(),
                forall|i: int|
                    0 <= i < it.index() ==> entries@[i] == spec_as_entry(*it.seq()[i].1, neighbor_ip),
        {
            entries.push(route.as_entry(neighbor_ip));
        }
        assert(entries@ =~= announcements(order, neighbor_ip));
        entries
    }

    /// Appends the periodic update: to every neighbor, in order, the
    /// entries of all routes, cut into responses of at most `MAX_ENTRIES`
    /// entries each.
    pub fn send_updates(&self, actions: &mut Vec<Action>)
        ensures
            exists|ups: Seq<Seq<Entry>>|
                {
                    &&& ups.len() == self@.neighbors.len()
                    &&& forall|i: int|
                        0 <= i < ups.len() ==> is_update_for(
                            #[trigger] ups[i],
                            self@.routes,
                            self@.neighbors[i].address.ip,
                        )
                    &&& actions_view(final(actions)@) == actions_view(old(actions)@) + all_updates(
                        self@.neighbors,
                        ups,
                    )
                },
    {
        let ghost start = actions@;
        let ghost mut ups: Seq<Seq<Entry>> = Seq::empty();
        let n = self.neighbors.len();
        for i in 0..n
            invariant
                n == self@.neighbors.len(),
                ups.len() == i,
                forall|j: int|
                    0 <= j < i ==> is_update_for(
                        #[trigger] ups[j],
                        self@.routes,
                        self@.neighbors[j].address.ip,
                    ),
                actions_view(actions@) == actions_view(start) + all_updates(
                    self@.neighbors.take(i as int),
                    ups,
                ),
        {
            let address = self.neighbors[i].address;
            let entries = self.build_update_for(&address);
            push_update(actions, address, &entries);
            proof {
                let ns = self@.neighbors;
                let ups2 = ups.push(entries@);
                assert(ns.take(i + 1).drop_last() =~= ns.take(i as int));
                assert(ups2.drop_last() =~= ups);
                assert(all_updates(ns.take(i + 1), ups2) == all_updates(ns.take(i as int), ups)
                    + update_actions(address, entries@));
                ups = ups2;
            }
        }
        assert(self@.neighbors.take(n as int) =~= self@.neighbors);
    }

    /// Appends a restart of the timer of every route, in the order of some
    /// walk of them.
    pub fn start_timeouts(&self, actions: &mut Vec<Action>)
        ensures
            exists|order: Seq<(u32, Route)>|
                {
                    &&& lists_routes(order, self@.routes)
                    &&& actions_view(final(actions)@) == actions_view(old(actions)@) + order.map_values(
                        |p: (u32, Route)| ActionSpec::RestartTimer(p.0),
                    )
                },
    {
        let ghost start = actions@;
        let ghost walk = spec_hash_map_iter(&self.table).remaining();
        let ghost order = walk.map_values(|p: (&u32, &Route)| (*p.0, *p.1));
        proof {
            lemma_route_walk(&self.table);
        }
        for (network_prefix, _route) in it: self.table.iter()
            invariant
                it.seq() == walk,
                order == walk.map_values(|p: (&u32, &Route)| (*p.0, *p.1)),
                actions_view(actions@) == actions_view(start) + order.take(it.index()).map_values(
                    |p: (u32, Route)| ActionSpec::RestartTimer(p.0),
                ),
        {
            proof {
                lemma_actions_push(actions@, Action::RestartTimer(*network_prefix));
                assert(order.take(it.index() + 1).map_values(|p: (u32, Route)| ActionSpec::RestartTimer(p.0))
                    =~= order.take(it.index()).map_values(|p: (u32, Route)| ActionSpec::RestartTimer(p.0)).push(
                    ActionSpec::RestartTimer(*network_prefix),
                ));
            }
            actions.push(Action::RestartTimer(*network_prefix));
        }
        assert(order.take(order.len() as int) =~= order);
        assert(actions_view(actions@) == actions_view(start) + order.map_values(
            |p: (u32, Route)| ActionSpec::RestartTimer(p.0),
        ));
        assert(lists_routes(order, self@.routes));
    }

    /// The routes, in the order of some walk of them, for printing.
    pub fn table_rows(&self) -> (r: Vec<Route>)
        ensures
            exists|order: Seq<(u32, Route)>|
                lists_routes(order, self@.routes) && r@ == order.map_values(|p: (u32, Route)| p.1),
    {
        let ghost walk = spec_hash_map_iter(&self.table).remaining();
        let ghost order = walk.map_values(|p: (&u32, &Route)| (*p.0, *p.1));
        proof {
            lemma_route_walk(&self.table);
        }
        let mut rows: Vec<Route> = Vec::new();
        for (_network_prefix, route) in it: self.table.iter()
            invariant
                it.seq() == walk,
                order == walk.map_values(|p: (&u32, &Route)| (*p.0, *p.1)),
                rows@.len() == it.index(),
                forall|i: int| 0 <= i < it.index() ==> rows@[i] == *it.seq()[i].1,
        {
            rows.push(*route);
        }
        assert(rows@ =~= order.map_values(|p: (u32, Route)| p.1));
        assert(lists_routes(order, self@.routes));
        rows
    }

    /// Whether taking in a response of `entries` from `from` stays within
    /// `u32` costs (the condition that `handle_response` asks for).
    pub fn fits_response(&self, entries: &Vec<Entry>, from: PeerAddr) -> (r: bool)
        requires
            self.wf(),
        ensures
            r == response_fits(self@.neighbors, entries@, from),
    {
        let from_addr = match from {
            PeerAddr::V4(a) => a.ip,
            PeerAddr::V6 => return true,
        };
        let neighbor = match self.find_neighbor(from_addr) {
            Some(n) => n,
            None => return true,
        };
        let n = entries.len();
        for i in 0..n
            invariant
                n == entries@.len(),
                neighbor_at(self@.neighbors, from_addr) == Some(neighbor),
                from matches PeerAddr::V4(a) && a.ip == from_addr,
                forall|j: int| 0 <= j < i ==> entry_is_valid(#[trigger] entries@[j]),
                forall|j: int| 0 <= j < i ==> neighbor.metric + #[trigger] entries@[j].metric <= u32::MAX,
        {
            if entries[i].validate().is_err() {
                proof {
                    lemma_first_invalid(entries@, i as int);
                }
                return true;
            }
            if neighbor.metric > u32::MAX - entries[i].metric {
                proof {
                    lemma_first_invalid_after(entries@, i as int);
                    assert(neighbor.metric + entries@[i as int].metric > u32::MAX);
                }
                return false;
            }
        }
        proof {
            lemma_first_invalid(entries@, n as int);
        }
        true
    }

    /// The route to `network_prefix`, if the table has one.
    pub fn route(&self, network_prefix: NetworkPrefix) -> (r: Option<Route>)
        ensures
            r == if self@.routes.contains_key(network_prefix) {
                Some(self@.routes[network_prefix])
            } else {
                None::<Route>
            },
    {
        match self.table.get(&network_prefix) {
            Some(route) => Some(*route),
            None => None,
        }
    }

    /// The number of routes.
    pub fn len(&self) -> (r: usize)
        requires
            self.wf(),
        ensures
            r == self@.routes.len(),
    {
        self.table.len()
    }

    /// The neighbors, in the order in which the table walks them.
    pub fn neighbors(&self) -> (r: &Vec<Neighbor>)
        ensures
            r@ == self@.neighbors,
    {
        &self.neighbors
    }

    /// A table of the given neighbors, with a route to each neighbor's
    /// network through that neighbor at the cost of its link.
    pub fn new(neighbors: &Vec<Neighbor>) -> (r: RoutingTable)
        ensures
            r.wf(),
            r@.routes == initial_routes(neighbors@),
            lists_neighbors(r@.neighbors, initial_neighbors(neighbors@)),
    {
        let n = neighbors.len();
        let mut table: HashMap<u32, Route> = HashMap::new();
        for i in 0..n
            invariant
                n == neighbors@.len(),
                table@ == initial_routes(neighbors@.take(i as int)),
                table@.dom().finite(),
                forall|k: u32| #[trigger]
                    table@.contains_key(k) ==> table@[k].destination & table@[k].subnet_mask == k
                        && exists|j: int|
                        0 <= j < i && #[trigger] neighbors@[j].address.ip == table@[k].next_hop,
        {
            let neighbor = &neighbors[i];
            let network_prefix = neighbor.network_prefix();
            let route = Route {
                destination: neighbor.address.ip,
                next_hop: neighbor.address.ip,
                subnet_mask: neighbor.subnet_mask,
                metric: neighbor.metric,
            };
            table.insert(network_prefix, route);
            assert(neighbors@.take(i + 1).drop_last() =~= neighbors@.take(i as int));
            assert(neighbors@[i as int].address.ip == route.next_hop);
        }
        let mut directly_connected: Vec<Neighbor> = Vec::new();
        for i in 0..n
            invariant
                n == neighbors@.len(),
                distinct_addresses(directly_connected@),
                lists_neighbors(directly_connected@, initial_neighbors(neighbors@.take(i as int))),
                initial_neighbors(neighbors@.take(i as int)).dom().finite(),
        {
            let neighbor = neighbors[i];
            proof {
                lemma_initial_neighbors_keys(neighbors@.take(i as int));
                lemma_initial_neighbors_keys(neighbors@.take(i + 1));
            }
            let ghost before = initial_neighbors(neighbors@.take(i as int));
            let ghost after = initial_neighbors(neighbors@.take(i + 1));
            assert(neighbors@.take(i + 1).drop_last() =~= neighbors@.take(i as int));
            assert(after == before.insert(neighbor.address.ip, neighbor));
            let len = directly_connected.len();
            let found = position_of(&directly_connected, neighbor.address.ip);
            let ghost old_dc = directly_connected@;
            if let Some(j) = found {
                directly_connected.set(j, neighbor);
                assert(before.contains_key(old_dc[j as int].address.ip));
                assert(after.dom() =~= before.dom());
                assert forall|k: u32| #[trigger] after.contains_key(k) implies directly_connected@.contains(after[k]) by {
                    if k == neighbor.address.ip {
                        assert(directly_connected@[j as int] == after[k]);
                    } else {
                        assert(old_dc.contains(before[k]));
                        let l = choose|l: int| 0 <= l < old_dc.len() && old_dc[l] == before[k];
                        assert(directly_connected@[l] == after[k]);
                    }
                }
            } else {
                directly_connected.push(neighbor);
                assert(!before.contains_key(neighbor.address.ip)) by {
                    if before.contains_key(neighbor.address.ip) {
                        assert(old_dc.contains(before[neighbor.address.ip]));
                        let l = choose|l: int| 0 <= l < old_dc.len() && old_dc[l] == before[neighbor.address.ip];
                        assert(old_dc[l].address.ip == neighbor.address.ip);
                    }
                }
                assert(after.dom() =~= before.dom().insert(neighbor.address.ip));
                assert forall|k: u32| #[trigger] after.contains_key(k) implies directly_connected@.contains(after[k]) by {
                    if k == neighbor.address.ip {
                        assert(directly_connected@[len as int] == after[k]);
                    } else {
                        assert(old_dc.contains(before[k]));
                        let l = choose|l: int| 0 <= l < old_dc.len() && old_dc[l] == before[k];
                        assert(directly_connected@[l] == after[k]);
                    }
                }
            }
            assert forall|a: int| 0 <= a < directly_connected@.len() implies #[trigger] after.contains_key(
                directly_connected@[a].address.ip,
            ) && after[directly_connected@[a].address.ip] == directly_connected@[a] by {
                if a < old_dc.len() && directly_connected@[a] == old_dc[a] {
                    assert(before.contains_key(old_dc[a].address.ip));
                }
            }
            assert(distinct_addresses(directly_connected@)) by {
                assert forall|a: int, b: int|
                    0 <= a < directly_connected@.len() && 0 <= b < directly_connected@.len() && a
                        != b implies #[trigger] directly_connected@[a].address.ip
                    != #[trigger] directly_connected@[b].address.ip by {
                    if a < old_dc.len() && b < old_dc.len() {
                        assert(old_dc[a].address.ip != old_dc[b].address.ip);
                    }
                }
            }
        }
        assert(neighbors@.take(n as int) =~= neighbors@);
        let r = RoutingTable { table, neighbors: directly_connected };
        proof {
            lemma_initial_neighbors_keys(neighbors@);
        }
        assert forall|k: u32| #[trigger] r@.routes.contains_key(k) implies neighbor_at(
            r@.neighbors,
            r@.routes[k].next_hop,
        ) is Some by {
            let j = choose|j: int|
                0 <= j < n && #[trigger] neighbors@[j].address.ip == r@.routes[k].next_hop;
            let m = initial_neighbors(neighbors@);
            assert(m.contains_key(neighbors@[j].address.ip));
            assert(r@.neighbors.contains(m[neighbors@[j].address.ip]));
            let l = choose|l: int|
                0 <= l < r@.neighbors.len() && r@.neighbors[l] == m[neighbors@[j].address.ip];
            assert(r@.neighbors[l].address.ip == r@.routes[k].next_hop);
        }
        r
    }
}

} // verus!
