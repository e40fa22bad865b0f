//! The heart of the daemon: the ticketing engine and the registry of
//! dispatchers, fed one message at a time.

use crate::speed_daemon::controller::{
    spec_initial, spec_run, spec_signal, Controller, EngineState, Plate, PlateView, Ticket,
};
use crate::speed_daemon::dispatchers::{
    delivered_tickets, lemma_flush_keeps_every_ticket, spec_add_dispatcher, spec_empty,
    spec_remove_dispatcher, spec_send_tickets, DispatcherView, Dispatchers, RegistryView,
};
use std::collections::HashSet;
use tokio::sync::mpsc::UnboundedSender;
use vstd::prelude::*;

verus! {

broadcast use vstd::std_specs::hash::group_hash_axioms;

/// What the connections ask of the daemon.
pub enum ControllerMessage {
    /// A dispatcher came: the number of its connection, its roads, and the
    /// channel for its tickets.
    AddDispatcher(usize, HashSet<u16>, UnboundedSender<Ticket>),
    /// The dispatcher of a connection left.
    RemoveDispatcher(usize),
    /// A camera saw a car.
    Plate(Plate),
}

/// What a [`ControllerMessage`] says.
pub enum Event {
    Came { id: usize, roads: Set<u16> },
    Left { id: usize },
    Report(PlateView),
}

impl View for ControllerMessage {
    type V = Event;

    open spec fn view(&self) -> Event {
        match *self {
            ControllerMessage::AddDispatcher(id, roads, _) => Event::Came { id, roads: roads@ },
            ControllerMessage::RemoveDispatcher(id) => Event::Left { id },
            ControllerMessage::Plate(plate) => Event::Report(plate@),
        }
    }
}

/// What the daemon knows.
pub struct DaemonView {
    pub engine: EngineState,
    pub registry: RegistryView,
}

/// The daemon after one message. The tickets that a report gives are
/// routed before anything else happens.
pub open spec fn spec_handle(s: DaemonView, event: Event) -> DaemonView {
    match event {
        Event::Came { id, roads } => DaemonView {
            engine: s.engine,
            registry: spec_add_dispatcher(s.registry, id, roads),
        },
        Event::Left { id } => DaemonView {
            engine: s.engine,
            registry: spec_remove_dispatcher(s.registry, id),
        },
        Event::Report(plate) => DaemonView {
            engine: spec_signal(s.engine, plate).0,
            registry: spec_send_tickets(s.registry, spec_signal(s.engine, plate).1),
        },
    }
}

/// The ticketing engine and the registry of dispatchers.
pub struct Daemon {
    controller: Controller,
    dispatchers: Dispatchers,
}

impl View for Daemon {
    type V = DaemonView;

    closed spec fn view(&self) -> DaemonView {
        DaemonView { engine: self.controller@, registry: self.dispatchers@ }
    }
}

impl Daemon {
    /// What the daemon relies on.
    pub closed spec fn wf(&self) -> bool {
        self.controller.wf()
    }

    /// A daemon that has seen no car and no dispatcher.
    pub fn new() -> (daemon: Daemon)
        ensures
            daemon.wf(),
            daemon@.engine == spec_initial(),
            daemon@.registry == spec_empty(),
    {
        Daemon { controller: Controller::new(), dispatchers: Dispatchers::new() }
    }

    /// Takes in one message.
    pub fn handle(&mut self, message: ControllerMessage)
        requires
            old(self).wf(),
        ensures
            final(self).wf(),
            final(self)@ == spec_handle(old(self)@, message@),
    {
        match message {
            ControllerMessage::AddDispatcher(id, roads, ticket_sender) => {
                self.dispatchers.add_dispatcher(id, roads, ticket_sender);
            },
            ControllerMessage::RemoveDispatcher(id) => {
                self.dispatchers.remove_dispatcher(id);
            },
            ControllerMessage::Plate(plate) => {
                let tickets = self.controller.signal(plate);
                self.dispatchers.send_tickets(tickets);
            },
        }
    }
}

impl Default for Daemon {
    fn default() -> (daemon: Daemon)
        ensures
            daemon.wf(),
            daemon@.engine == spec_initial(),
            daemon@.registry == spec_empty(),
    {
        Daemon::new()
    }
}

/// The set of the roads of a list.
pub fn road_set(roads: &[u16]) -> (set: HashSet<u16>)
    ensures
        set@ == roads@.to_set(),
{
    let mut set: HashSet<u16> = HashSet::new();
    let mut i: usize = 0;
    while i < roads.len()
        invariant
            i <= roads@.len(),
            set@ == roads@.take(i as int).to_set(),
        decreases roads@.len() - i,
    {
        set.insert(roads[i]);
        proof {
            let before = roads@.take(i as int);
            let after = roads@.take(i + 1);
            assert(after =~= before.push(roads@[i as int]));
            assert forall|road: u16| after.to_set().contains(road) == before.to_set().insert(
                roads@[i as int],
            ).contains(road) by {
                if before.contains(road) {
                    let k = choose|k: int| 0 <= k < before.len() && before[k] == road;
                    assert(after[k] == road);
                }
                if road == roads@[i as int] {
                    assert(after[i as int] == road);
                }
            }
            assert(after.to_set() =~= before.to_set().insert(roads@[i as int]));
        }
        i += 1;
    }
    assert(roads@.take(i as int) =~= roads@);
    set
}

/// The daemon after a series of messages, from the first one on.
pub open spec fn spec_serve(events: Seq<Event>) -> DaemonView
    decreases events.len(),
{
    if events.len() == 0 {
        DaemonView { engine: spec_initial(), registry: spec_empty() }
    } else {
        spec_handle(spec_serve(events.drop_last()), events.last())
    }
}

/// The reports among a series of messages, in their order.
pub open spec fn spec_reports(events: Seq<Event>) -> Seq<PlateView>
    decreases events.len(),
{
    if events.len() == 0 {
        Seq::empty()
    } else {
        match events.last() {
            Event::Report(plate) => spec_reports(events.drop_last()).push(plate),
            _ => spec_reports(events.drop_last()),
        }
    }
}

/// Dispatchers that come and go change nothing of what the engine knows:
/// it is where the reports alone would have brought it.
pub proof fn lemma_engine_sees_reports_only(events: Seq<Event>)
    ensures
        spec_serve(events).engine == spec_run(spec_reports(events)).0,
    decreases events.len(),
{
    if events.len() > 0 {
        lemma_engine_sees_reports_only(events.drop_last());
        match events.last() {
            Event::Report(plate) => {
                let reports = spec_reports(events);
                assert(reports.drop_last() =~= spec_reports(events.drop_last()));
                assert(reports.last() == plate);
            },
            _ => {},
        }
    }
}

/// Whatever happens, the tickets that were handed to dispatchers and the
/// tickets that wait are, counted one by one, the tickets that the engine
/// made of the reports: none is lost before it is handed out, none is handed
/// out twice, and none comes from elsewhere.
pub proof fn lemma_tickets_are_the_engines(events: Seq<Event>)
    ensures
        delivered_tickets(spec_serve(events).registry.delivered).to_multiset().add(
            spec_serve(events).registry.pending.to_multiset(),
        ) == spec_run(spec_reports(events)).1.to_multiset(),
    decreases events.len(),
{
    broadcast use vstd::multiset::group_multiset_axioms;

    if events.len() == 0 {
        let none = Seq::<crate::speed_daemon::controller::TicketView>::empty();
        assert(delivered_tickets(spec_empty().delivered) =~= none);
        assert(spec_empty().pending =~= none);
        none.to_multiset_ensures();
        vstd::multiset::lemma_multiset_empty_len(none.to_multiset());
        assert(none.to_multiset().add(none.to_multiset()) =~= none.to_multiset());
    } else {
        let before = spec_serve(events.drop_last());
        lemma_tickets_are_the_engines(events.drop_last());
        lemma_engine_sees_reports_only(events.drop_last());
        let s = before.registry;
        match events.last() {
            Event::Came { id, roads } => {
                lemma_flush_keeps_every_ticket(
                    RegistryView {
                        dispatchers: s.dispatchers.push(DispatcherView { id, roads }),
                        pending: s.pending,
                        delivered: s.delivered,
                    },
                );
            },
            Event::Left { id } => {},
            Event::Report(plate) => {
                let made = spec_signal(before.engine, plate).1;
                let earlier = spec_run(spec_reports(events.drop_last())).1;
                let reports = spec_reports(events);
                assert(reports.drop_last() =~= spec_reports(events.drop_last()));
                assert(reports.last() == plate);
                assert(spec_run(reports).1 == earlier + made);
                lemma_flush_keeps_every_ticket(
                    RegistryView {
                        dispatchers: s.dispatchers,
                        pending: s.pending + made,
                        delivered: s.delivered,
                    },
                );
                vstd::seq_lib::lemma_multiset_commutative(s.pending, made);
                vstd::seq_lib::lemma_multiset_commutative(earlier, made);
                assert(delivered_tickets(s.delivered).to_multiset().add(
                    (s.pending + made).to_multiset(),
                ) =~= (earlier + made).to_multiset());
            },
        }
    }
}

} // verus!
