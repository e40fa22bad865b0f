//! The dispatchers that are connected, and the tickets that wait for one.
//!
//! A ticket goes to the first dispatcher, in the order in which they came,
//! that is in charge of the ticket's road. Where there is none, the ticket
//! waits until one comes.

use crate::speed_daemon::channel::send_ticket;
use crate::speed_daemon::controller::{ticket_views, Ticket, TicketView};
use std::collections::HashSet;
use tokio::sync::mpsc::UnboundedSender;
use vstd::multiset::Multiset;
use vstd::prelude::*;

verus! {

broadcast use vstd::std_specs::hash::group_hash_axioms;

/// A dispatcher, as the routing sees it.
pub struct DispatcherView {
    /// The number of its connection.
    pub id: usize,
    /// The roads that it is in charge of.
    pub roads: Set<u16>,
}

/// A ticket that was handed to the channel of a dispatcher.
pub struct Delivery {
    /// The number of the dispatcher's connection.
    pub dispatcher: usize,
    pub ticket: TicketView,
}

/// What the registry holds, and what it has handed out.
pub struct RegistryView {
    /// The dispatchers, in the order in which they came.
    pub dispatchers: Seq<DispatcherView>,
    /// The tickets that wait for a dispatcher, oldest first.
    pub pending: Seq<TicketView>,
    /// Every ticket that was handed to a dispatcher's channel, oldest
    /// first.
    pub delivered: Seq<Delivery>,
}

/// The dispatcher at `i` is in charge of `road`, and none before it is.
pub open spec fn first_in_charge(ds: Seq<DispatcherView>, road: u16, i: int) -> bool {
    &&& 0 <= i < ds.len()
    &&& ds[i].roads.contains(road)
    &&& forall|j: int| 0 <= j < i ==> !(#[trigger] ds[j]).roads.contains(road)
}

/// The index of the dispatcher that gets the tickets of `road`, if any is
/// in charge of it.
pub open spec fn spec_route(ds: Seq<DispatcherView>, road: u16) -> Option<int> {
    if exists|i: int| first_in_charge(ds, road, i) {
        Some(choose|i: int| first_in_charge(ds, road, i))
    } else {
        None
    }
}

/// What becomes of waiting tickets: the deliveries that are made, and the
/// tickets that go on waiting, both in the order of the tickets.
pub open spec fn spec_drain(ds: Seq<DispatcherView>, pending: Seq<TicketView>) -> (
    Seq<Delivery>,
    Seq<TicketView>,
)
    decreases pending.len(),
{
    if pending.len() == 0 {
        (Seq::empty(), Seq::empty())
    } else {
        let before = spec_drain(ds, pending.drop_last());
        let ticket = pending.last();
        match spec_route(ds, ticket.road) {
            Some(i) => (before.0.push(Delivery { dispatcher: ds[i].id, ticket }), before.1),
            None => (before.0, before.1.push(ticket)),
        }
    }
}

/// The registry after every waiting ticket that has a dispatcher was handed
/// out.
pub open spec fn spec_flush(s: RegistryView) -> RegistryView {
    let drained = spec_drain(s.dispatchers, s.pending);
    RegistryView {
        dispatchers: s.dispatchers,
        pending: drained.1,
        delivered: s.delivered + drained.0,
    }
}

/// The registry after a dispatcher came.
pub open spec fn spec_add_dispatcher(s: RegistryView, id: usize, roads: Set<u16>) -> RegistryView {
    spec_flush(
        RegistryView {
            dispatchers: s.dispatchers.push(DispatcherView { id, roads }),
            pending: s.pending,
            delivered: s.delivered,
        },
    )
}

/// The dispatchers without those of the connection `id`.
pub open spec fn spec_without(ds: Seq<DispatcherView>, id: usize) -> Seq<DispatcherView> {
    ds.filter(|d: DispatcherView| d.id != id)
}

/// The registry after the dispatcher of the connection `id` left.
pub open spec fn spec_remove_dispatcher(s: RegistryView, id: usize) -> RegistryView {
    RegistryView {
        dispatchers: spec_without(s.dispatchers, id),
        pending: s.pending,
        delivered: s.delivered,
    }
}

/// The registry after new tickets came in.
pub open spec fn spec_send_tickets(s: RegistryView, tickets: Seq<TicketView>) -> RegistryView {
    spec_flush(
        RegistryView {
            dispatchers: s.dispatchers,
            pending: s.pending + tickets,
            delivered: s.delivered,
        },
    )
}

/// A dispatcher that is connected.
pub struct Dispatcher {
    id: usize,
    roads: HashSet<u16>,
    sender: UnboundedSender<Ticket>,
}

impl View for Dispatcher {
    type V = DispatcherView;

    closed spec fn view(&self) -> DispatcherView {
        DispatcherView { id: self.id, roads: self.roads@ }
    }
}

/// The views of a list of dispatchers.
pub closed spec fn dispatcher_views(ds: Seq<Dispatcher>) -> Seq<DispatcherView> {
    Seq::new(ds.len(), |i: int| ds[i]@)
}

/// The registry of dispatchers, with the tickets that wait.
pub struct Dispatchers {
    dispatchers: Vec<Dispatcher>,
    pending_tickets: Vec<Ticket>,
    delivered: Ghost<Seq<Delivery>>,
}

impl View for Dispatchers {
    type V = RegistryView;

    closed spec fn view(&self) -> RegistryView {
        RegistryView {
            dispatchers: dispatcher_views(self.dispatchers@),
            pending: ticket_views(self.pending_tickets@),
            delivered: self.delivered@,
        }
    }
}

/// The first dispatcher in charge of a road is the one that the routing
/// picks.
pub proof fn lemma_route_first(ds: Seq<DispatcherView>, road: u16, i: int)
    requires
        first_in_charge(ds, road, i),
    ensures
        spec_route(ds, road) == Some(i),
{
    let c = choose|c: int| first_in_charge(ds, road, c);
    if c < i {
        assert(!ds[c].roads.contains(road));
    } else if i < c {
        assert(!ds[i].roads.contains(road));
    }
}

/// Where no dispatcher is in charge of a road, the routing picks none.
pub proof fn lemma_route_none(ds: Seq<DispatcherView>, road: u16)
    requires
        forall|j: int| 0 <= j < ds.len() ==> !(#[trigger] ds[j]).roads.contains(road),
    ensures
        spec_route(ds, road) is None,
{
    if exists|i: int| first_in_charge(ds, road, i) {
        let c = choose|c: int| first_in_charge(ds, road, c);
        assert(!ds[c].roads.contains(road));
    }
}

impl Dispatchers {
    /// A registry without dispatchers and without tickets.
    pub fn new() -> (r: Dispatchers)
        ensures
            r@ == spec_empty(),
    {
        let r = Dispatchers {
            dispatchers: Vec::new(),
            pending_tickets: Vec::new(),
            delivered: Ghost(Seq::empty()),
        };
        assert(r@.dispatchers =~= spec_empty().dispatchers);
        assert(r@.pending =~= spec_empty().pending);
        r
    }

    /// The place, in the order in which the dispatchers came, of the one
    /// that gets the tickets of `road`.
    pub fn route(&self, road: u16) -> (r: Option<usize>)
        ensures
            match r {
                Some(i) => spec_route(self@.dispatchers, road) == Some(i as int),
                None => spec_route(self@.dispatchers, road) is None,
            },
    {
        let ghost ds = self@.dispatchers;
        let mut i: usize = 0;
        while i < self.dispatchers.len()
            invariant
                i <= self.dispatchers@.len(),
                ds == self@.dispatchers,
                forall|j: int| 0 <= j < i ==> !(#[trigger] ds[j]).roads.contains(road),
            decreases self.dispatchers@.len() - i,
        {
            if self.dispatchers[i].roads.contains(&road) {
                proof {
                    assert(ds[i as int] == self.dispatchers@[i as int]@);
                    lemma_route_first(ds, road, i as int);
                }
                return Some(i);
            }
            assert(ds[i as int] == self.dispatchers@[i as int]@);
            i += 1;
        }
        proof {
            lemma_route_none(ds, road);
        }
        None
    }

    /// How many tickets wait for a dispatcher.
    pub fn pending_len(&self) -> (n: usize)
        ensures
            n == self@.pending.len(),
    {
        self.pending_tickets.len()
    }

    /// How many dispatchers are connected.
    pub fn len(&self) -> (n: usize)
        ensures
            n == self@.dispatchers.len(),
    {
        self.dispatchers.len()
    }

    /// Hands every waiting ticket whose road has a dispatcher to that
    /// dispatcher's channel; the others go on waiting, in their order. A
    /// ticket that its channel does not take, the receiver being gone, is
    /// lost.
    pub fn send_pending_tickets(&mut self)
        ensures
            final(self)@ == spec_flush(old(self)@),
    {
        let mut waiting: Vec<Ticket> = Vec::new();
        std::mem::swap(&mut waiting, &mut self.pending_tickets);
        let ghost all = waiting@;
        let ghost ds = self@.dispatchers;
        let ghost done = self.delivered@;
        assert(ticket_views(all.take(0)) =~= Seq::<TicketView>::empty());
        assert(ticket_views(self.pending_tickets@) =~= Seq::<TicketView>::empty());
        for ticket in it: waiting
            invariant
                it.seq() == all,
                ds == self@.dispatchers,
                self.delivered@ == done + spec_drain(ds, ticket_views(all.take(it.index()))).0,
                ticket_views(self.pending_tickets@) == spec_drain(
                    ds,
                    ticket_views(all.take(it.index())),
                ).1,
        {
            let ghost k = it.index();
            proof {
                let upto = ticket_views(all.take(k + 1));
                assert(upto.drop_last() =~= ticket_views(all.take(k)));
                assert(upto.last() == ticket@);
            }
            match self.route(ticket.road) {
                Some(i) => {
                    proof {
                        self.delivered@ = self.delivered@.push(
                            Delivery { dispatcher: self.dispatchers@[i as int].id, ticket: ticket@ },
                        );
                        assert(ds[i as int] == self.dispatchers@[i as int]@);
                    }
                    let _ = send_ticket(&self.dispatchers[i].sender, ticket);
                },
                None => {
                    let ghost before = self.pending_tickets@;
                    self.pending_tickets.push(ticket);
                    assert(ticket_views(self.pending_tickets@) =~= ticket_views(before).push(
                        ticket@,
                    ));
                },
            }
        }
        assert(all.take(all.len() as int) =~= all);
    }

    /// Takes in a dispatcher that came, and hands it the waiting tickets of
    /// its roads that no earlier dispatcher is in charge of.
    pub fn add_dispatcher(
        &mut self,
        id: usize,
        roads: HashSet<u16>,
        ticket_sender: UnboundedSender<Ticket>,
    )
        ensures
            final(self)@ == spec_add_dispatcher(old(self)@, id, roads@),
    {
        let ghost before = self.dispatchers@;
        self.dispatchers.push(Dispatcher { id, roads, sender: ticket_sender });
        assert(dispatcher_views(self.dispatchers@) =~= dispatcher_views(before).push(
            DispatcherView { id, roads: roads@ },
        ));
        self.send_pending_tickets();
    }

    /// Forgets the dispatcher of the connection `removed_id`. Tickets that
    /// were handed to its channel stay handed out.
    pub fn remove_dispatcher(&mut self, removed_id: usize)
        ensures
            final(self)@ == spec_remove_dispatcher(old(self)@, removed_id),
    {
        let ghost all = dispatcher_views(self.dispatchers@);
        let ghost keep = |d: DispatcherView| d.id != removed_id;
        let ghost mut k: int = 0;
        let mut i: usize = 0;
        assert(all.take(0).filter(keep) =~= Seq::<DispatcherView>::empty()) by {
            reveal(Seq::filter);
        }
        assert(all.take(0).filter(keep) + all.skip(0) =~= all);
        while i < self.dispatchers.len()
            invariant
                0 <= k <= all.len(),
                i <= self.dispatchers@.len(),
                i + (all.len() - k) == self.dispatchers@.len(),
                i == all.take(k).filter(keep).len(),
                dispatcher_views(self.dispatchers@) == all.take(k).filter(keep) + all.skip(k),
                self.pending_tickets == old(self).pending_tickets,
                self.delivered == old(self).delivered,
                keep == |d: DispatcherView| d.id != removed_id,
            decreases all.len() - k,
        {
            let ghost views = dispatcher_views(self.dispatchers@);
            proof {
                assert(views[i as int] == all.skip(k)[0]);
                assert(all.take(k + 1).drop_last() =~= all.take(k));
                assert(all.take(k + 1).last() == all[k]);
                reveal(Seq::filter);
            }
            if self.dispatchers[i].id == removed_id {
                let ghost held = self.dispatchers@;
                let _ = self.dispatchers.remove(i);
                proof {
                    let kept = all.take(k).filter(keep);
                    assert(views[i as int] == held[i as int]@);
                    assert(!keep(all[k]));
                    assert(all.take(k + 1).filter(keep) == kept);
                    let left = dispatcher_views(self.dispatchers@);
                    assert forall|j: int| 0 <= j < left.len() implies left[j] == (kept + all.skip(
                        k + 1,
                    ))[j] by {
                        if j < i {
                            assert(left[j] == views[j]);
                        } else {
                            assert(left[j] == views[j + 1]);
                            assert(views[j + 1] == all.skip(k)[j + 1 - i]);
                        }
                    }
                    assert(left =~= kept + all.skip(k + 1));
                }
            } else {
                assert(views =~= all.take(k + 1).filter(keep) + all.skip(k + 1));
                i += 1;
            }
            proof {
                k = k + 1;
            }
        }
        assert(all.take(k) =~= all);
        assert(all.skip(k) =~= Seq::<DispatcherView>::empty());
        assert(dispatcher_views(self.dispatchers@) =~= spec_without(all, removed_id));
    }

    /// Takes in new tickets, behind those that wait, and hands out every
    /// waiting ticket whose road has a dispatcher.
    pub fn send_tickets(&mut self, tickets: Vec<Ticket>)
        ensures
            final(self)@ == spec_send_tickets(old(self)@, ticket_views(tickets@)),
    {
        let mut tickets = tickets;
        let ghost before = self.pending_tickets@;
        let ghost new = tickets@;
        self.pending_tickets.append(&mut tickets);
        assert(ticket_views(self.pending_tickets@) =~= ticket_views(before) + ticket_views(new));
        self.send_pending_tickets();
    }
}

impl Default for Dispatchers {
    fn default() -> (r: Dispatchers)
        ensures
            r@ == spec_empty(),
    {
        Dispatchers::new()
    }
}

/// The tickets of a list of deliveries.
pub open spec fn delivered_tickets(deliveries: Seq<Delivery>) -> Seq<TicketView> {
    Seq::new(deliveries.len(), |i: int| deliveries[i].ticket)
}

/// Every delivery goes to a dispatcher that is in charge of the ticket's
/// road, and to the first of them.
pub proof fn lemma_delivery_in_charge(ds: Seq<DispatcherView>, pending: Seq<TicketView>, n: int)
    requires
        0 <= n < spec_drain(ds, pending).0.len(),
    ensures
        exists|i: int|
            first_in_charge(ds, spec_drain(ds, pending).0[n].ticket.road, i) && (#[trigger] ds[i]).id
                == spec_drain(ds, pending).0[n].dispatcher,
    decreases pending.len(),
{
    if pending.len() > 0 {
        let before = spec_drain(ds, pending.drop_last());
        if n < before.0.len() {
            lemma_delivery_in_charge(ds, pending.drop_last(), n);
            assert(spec_drain(ds, pending).0[n] == before.0[n]);
        } else {
            let road = pending.last().road;
            let i = spec_route(ds, road)->Some_0;
            assert(first_in_charge(ds, road, i));
        }
    }
}

/// No tickets, counted one by one, are no tickets.
proof fn lemma_no_tickets()
    ensures
        Seq::<TicketView>::empty().to_multiset() == Multiset::<TicketView>::empty(),
{
    broadcast use vstd::multiset::group_multiset_axioms;

    let none = Seq::<TicketView>::empty();
    none.to_multiset_ensures();
    vstd::multiset::lemma_multiset_empty_len(none.to_multiset());
    assert(none.to_multiset() =~= Multiset::<TicketView>::empty());
}

/// Waiting tickets are neither lost nor doubled when they are handed out:
/// each is delivered once, to one dispatcher, or goes on waiting.
pub proof fn lemma_drain_keeps_every_ticket(ds: Seq<DispatcherView>, pending: Seq<TicketView>)
    ensures
        delivered_tickets(spec_drain(ds, pending).0).to_multiset().add(
            spec_drain(ds, pending).1.to_multiset(),
        ) == pending.to_multiset(),
        spec_drain(ds, pending).0.len() + spec_drain(ds, pending).1.len() == pending.len(),
    decreases pending.len(),
{
    broadcast use vstd::seq_lib::to_multiset_build;
    broadcast use vstd::multiset::group_multiset_axioms;

    let after = spec_drain(ds, pending);
    if pending.len() > 0 {
        let before = spec_drain(ds, pending.drop_last());
        let ticket = pending.last();
        lemma_drain_keeps_every_ticket(ds, pending.drop_last());
        assert(pending =~= pending.drop_last().push(ticket));
        if spec_route(ds, ticket.road) is Some {
            assert(delivered_tickets(after.0) =~= delivered_tickets(before.0).push(ticket));
        }
        assert(delivered_tickets(after.0).to_multiset().add(after.1.to_multiset())
            =~= pending.drop_last().to_multiset().insert(ticket));
    } else {
        lemma_no_tickets();
        assert(delivered_tickets(after.0) =~= Seq::<TicketView>::empty());
        assert(pending =~= Seq::<TicketView>::empty());
        assert(delivered_tickets(after.0).to_multiset().add(after.1.to_multiset())
            =~= pending.to_multiset());
    }
}

/// What can happen to the registry.
pub enum RegistryEvent {
    /// A dispatcher came.
    Came { id: usize, roads: Set<u16> },
    /// The dispatcher of a connection left.
    Left { id: usize },
    /// The engine made tickets.
    Tickets { tickets: Seq<TicketView> },
}

/// The registry after one event.
pub open spec fn spec_apply(s: RegistryView, event: RegistryEvent) -> RegistryView {
    match event {
        RegistryEvent::Came { id, roads } => spec_add_dispatcher(s, id, roads),
        RegistryEvent::Left { id } => spec_remove_dispatcher(s, id),
        RegistryEvent::Tickets { tickets } => spec_send_tickets(s, tickets),
    }
}

/// The registry before the first event.
pub open spec fn spec_empty() -> RegistryView {
    RegistryView { dispatchers: Seq::empty(), pending: Seq::empty(), delivered: Seq::empty() }
}

/// The registry after a series of events, from the first one on.
pub open spec fn spec_serve(events: Seq<RegistryEvent>) -> RegistryView
    decreases events.len(),
{
    if events.len() == 0 {
        spec_empty()
    } else {
        spec_apply(spec_serve(events.drop_last()), events.last())
    }
}

/// All the tickets that the engine made in a series of events.
pub open spec fn spec_tickets_made(events: Seq<RegistryEvent>) -> Multiset<TicketView>
    decreases events.len(),
{
    if events.len() == 0 {
        Multiset::empty()
    } else {
        let before = spec_tickets_made(events.drop_last());
        match events.last() {
            RegistryEvent::Tickets { tickets } => before.add(tickets.to_multiset()),
            _ => before,
        }
    }
}

/// Handing out what waits keeps every ticket: those handed out so far and
/// those that wait are, together, the same tickets as before.
pub proof fn lemma_flush_keeps_every_ticket(s: RegistryView)
    ensures
        delivered_tickets(spec_flush(s).delivered).to_multiset().add(
            spec_flush(s).pending.to_multiset(),
        ) == delivered_tickets(s.delivered).to_multiset().add(s.pending.to_multiset()),
{
    broadcast use vstd::multiset::group_multiset_axioms;

    let drained = spec_drain(s.dispatchers, s.pending);
    lemma_drain_keeps_every_ticket(s.dispatchers, s.pending);
    assert(delivered_tickets(s.delivered + drained.0) =~= delivered_tickets(s.delivered)
        + delivered_tickets(drained.0));
    vstd::seq_lib::lemma_multiset_commutative(
        delivered_tickets(s.delivered),
        delivered_tickets(drained.0),
    );
    assert(delivered_tickets(spec_flush(s).delivered).to_multiset().add(
        spec_flush(s).pending.to_multiset(),
    ) =~= delivered_tickets(s.delivered).to_multiset().add(s.pending.to_multiset()));
}

/// No ticket goes to more than one dispatcher, and none goes twice: whatever
/// happens, the tickets that were handed to dispatchers and the tickets
/// that wait are, counted one by one, the tickets that the engine made.
pub proof fn lemma_no_ticket_twice(events: Seq<RegistryEvent>)
    ensures
        delivered_tickets(spec_serve(events).delivered).to_multiset().add(
            spec_serve(events).pending.to_multiset(),
        ) == spec_tickets_made(events),
    decreases events.len(),
{
    broadcast use vstd::multiset::group_multiset_axioms;

    if events.len() == 0 {
        lemma_no_tickets();
        assert(delivered_tickets(spec_empty().delivered) =~= Seq::<TicketView>::empty());
        assert(delivered_tickets(spec_empty().delivered).to_multiset().add(
            spec_empty().pending.to_multiset(),
        ) =~= Multiset::<TicketView>::empty());
    } else {
        let s = spec_serve(events.drop_last());
        lemma_no_ticket_twice(events.drop_last());
        match events.last() {
            RegistryEvent::Came { id, roads } => {
                lemma_flush_keeps_every_ticket(
                    RegistryView {
                        dispatchers: s.dispatchers.push(DispatcherView { id, roads }),
                        pending: s.pending,
                        delivered: s.delivered,
                    },
                );
            },
            RegistryEvent::Left { id } => {},
            RegistryEvent::Tickets { tickets } => {
                lemma_flush_keeps_every_ticket(
                    RegistryView {
                        dispatchers: s.dispatchers,
                        pending: s.pending + tickets,
                        delivered: s.delivered,
                    },
                );
                vstd::seq_lib::lemma_multiset_commutative(s.pending, tickets);
                assert(delivered_tickets(s.delivered).to_multiset().add(
                    (s.pending + tickets).to_multiset(),
                ) =~= spec_tickets_made(events));
            },
        }
    }
}

/// A ticket goes on waiting only where no dispatcher is in charge of its
/// road.
pub proof fn lemma_waiting_has_no_dispatcher(ds: Seq<DispatcherView>, pending: Seq<TicketView>, n: int)
    requires
        0 <= n < spec_drain(ds, pending).1.len(),
    ensures
        spec_route(ds, spec_drain(ds, pending).1[n].road) is None,
    decreases pending.len(),
{
    if pending.len() > 0 {
        let before = spec_drain(ds, pending.drop_last());
        if n < before.1.len() {
            lemma_waiting_has_no_dispatcher(ds, pending.drop_last(), n);
            assert(spec_drain(ds, pending).1[n] == before.1[n]);
        }
    }
}

/// A road that no dispatcher is in charge of has none either after a
/// dispatcher left.
proof fn lemma_route_after_leaving(ds: Seq<DispatcherView>, id: usize, road: u16)
    requires
        spec_route(ds, road) is None,
    ensures
        spec_route(spec_without(ds, id), road) is None,
{
    let left = spec_without(ds, id);
    let keep = |d: DispatcherView| d.id != id;
    assert forall|j: int| 0 <= j < left.len() implies !(#[trigger] left[j]).roads.contains(
        road,
    ) by {
        ds.lemma_filter_contains_rev(keep, left[j]);
        assert(ds.contains(left[j]));
        let k = choose|k: int| 0 <= k < ds.len() && ds[k] == left[j];
        if ds[k].roads.contains(road) {
            lemma_some_in_charge(ds, road, k);
        }
    }
    lemma_route_none(left, road);
}

/// Where a dispatcher is in charge of a road, the routing picks one.
proof fn lemma_some_in_charge(ds: Seq<DispatcherView>, road: u16, k: int)
    requires
        0 <= k < ds.len(),
        ds[k].roads.contains(road),
    ensures
        spec_route(ds, road) is Some,
    decreases k,
{
    if exists|j: int| 0 <= j < k && (#[trigger] ds[j]).roads.contains(road) {
        let j = choose|j: int| 0 <= j < k && (#[trigger] ds[j]).roads.contains(road);
        lemma_some_in_charge(ds, road, j);
    } else {
        assert(first_in_charge(ds, road, k));
    }
}

/// Whatever happens, the tickets that wait are tickets for roads that no
/// dispatcher is in charge of.
pub proof fn lemma_waiting_tickets_lack_a_dispatcher(events: Seq<RegistryEvent>, n: int)
    requires
        0 <= n < spec_serve(events).pending.len(),
    ensures
        spec_route(spec_serve(events).dispatchers, spec_serve(events).pending[n].road) is None,
    decreases events.len(),
{
    if events.len() > 0 {
        let s = spec_serve(events.drop_last());
        match events.last() {
            RegistryEvent::Came { id, roads } => {
                lemma_waiting_has_no_dispatcher(
                    s.dispatchers.push(DispatcherView { id, roads }),
                    s.pending,
                    n,
                );
            },
            RegistryEvent::Left { id } => {
                lemma_waiting_tickets_lack_a_dispatcher(events.drop_last(), n);
                lemma_route_after_leaving(s.dispatchers, id, s.pending[n].road);
            },
            RegistryEvent::Tickets { tickets } => {
                lemma_waiting_has_no_dispatcher(s.dispatchers, s.pending + tickets, n);
            },
        }
    }
}

} // verus!
