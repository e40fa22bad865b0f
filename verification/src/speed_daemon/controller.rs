//! The ticketing engine: plate observations in, tickets out.
//!
//! The engine keeps, for each road and car, the observations of that car on
//! that road in the order of their timestamps, and for each car the days on
//! which it already has a ticket. A new observation is weighed against every
//! other observation of the same car on the same road; each pair that shows
//! the car too fast gives a ticket, unless one of the days that the pair
//! spans is taken.

use crate::speed_daemon::octets::{bytes_eq, copy_bytes};
use vstd::prelude::*;

verus! {

/// Seconds in one day. A timestamp `t` falls on day `t / 86400`.
pub const SECONDS_PER_DAY: u32 = 86400;

/// A car seen by a camera: what the camera knows of itself, the plate and
/// the time.
#[derive(Debug, Clone, PartialEq, Eq)]
pub struct Plate {
    pub plate: Vec<u8>,
    pub road: u16,
    pub mile: u16,
    pub limit: u16,
    pub timestamp: u32,
}

/// What a [`Plate`] says, with the plate as a sequence of bytes.
pub struct PlateView {
    pub plate: Seq<u8>,
    pub road: u16,
    pub mile: u16,
    pub limit: u16,
    pub timestamp: u32,
}

impl View for Plate {
    type V = PlateView;

    open spec fn view(&self) -> PlateView {
        PlateView {
            plate: self.plate@,
            road: self.road,
            mile: self.mile,
            limit: self.limit,
            timestamp: self.timestamp,
        }
    }
}

/// A notice that a car was too fast between two observations on one road.
#[derive(Debug, Clone, PartialEq, Eq)]
pub struct Ticket {
    pub plate: Vec<u8>,
    pub road: u16,
    pub mile1: u16,
    pub timestamp1: u32,
    pub mile2: u16,
    pub timestamp2: u32,
    pub speed: u16,
}

/// What a [`Ticket`] says, with the plate as a sequence of bytes.
pub struct TicketView {
    pub plate: Seq<u8>,
    pub road: u16,
    pub mile1: u16,
    pub timestamp1: u32,
    pub mile2: u16,
    pub timestamp2: u32,
    pub speed: u16,
}

impl View for Ticket {
    type V = TicketView;

    open spec fn view(&self) -> TicketView {
        TicketView {
            plate: self.plate@,
            road: self.road,
            mile1: self.mile1,
            timestamp1: self.timestamp1,
            mile2: self.mile2,
            timestamp2: self.timestamp2,
            speed: self.speed,
        }
    }
}

/// The views of a list of tickets.
pub open spec fn ticket_views(tickets: Seq<Ticket>) -> Seq<TicketView> {
    Seq::new(tickets.len(), |i: int| tickets[i]@)
}

/// Where and when a car was seen on a road.
#[derive(Debug, Clone, Copy, PartialEq, Eq)]
pub struct Observation {
    pub timestamp: u32,
    pub mile: u16,
}

/// The day on which a timestamp falls.
pub open spec fn day_of(timestamp: u32) -> int {
    timestamp as int / 86400
}

/// The days from `first` to `last`, both included.
pub open spec fn days_between(first: int, last: int) -> Set<int> {
    Set::new(|d: int| first <= d <= last)
}

/// The days that a ticket covers: from the day of its first observation to
/// the day of its second.
pub open spec fn ticket_days(t: TicketView) -> Set<int> {
    days_between(day_of(t.timestamp1), day_of(t.timestamp2))
}

/// The miles between two points of a road.
pub open spec fn spec_distance(a: u16, b: u16) -> int {
    if a <= b {
        b - a
    } else {
        a - b
    }
}

/// `a` was made before `b`, and the average speed between them is at least
/// half a mile per hour above `limit`: `3600 * miles / seconds >= limit +
/// 1/2`, with both sides multiplied by twice the seconds.
pub open spec fn spec_too_fast(a: Observation, b: Observation, limit: u16) -> bool {
    a.timestamp < b.timestamp && 7200 * spec_distance(a.mile, b.mile) >= (2 * limit + 1) * (
    b.timestamp - a.timestamp)
}

/// A hundred times the average speed in miles per hour, as the nearest whole
/// number (a half goes up), and 65535 where that is larger.
pub open spec fn spec_speed_x100(miles: int, seconds: int) -> u16 {
    let rounded = (720000 * miles + seconds) / (2 * seconds);
    if rounded > 65535 {
        65535
    } else {
        rounded as u16
    }
}

/// The ticket for the pair of observations `a`, `b` that the report `p`
/// closed.
pub open spec fn spec_ticket(p: PlateView, a: Observation, b: Observation) -> TicketView {
    TicketView {
        plate: p.plate,
        road: p.road,
        mile1: a.mile,
        timestamp1: a.timestamp,
        mile2: b.mile,
        timestamp2: b.timestamp,
        speed: spec_speed_x100(spec_distance(a.mile, b.mile), b.timestamp - a.timestamp),
    }
}

/// The timestamps of `obs` rise from each observation to the next.
pub open spec fn strictly_sorted(obs: Seq<Observation>) -> bool {
    forall|i: int, j: int| 0 <= i < j < obs.len() ==> obs[i].timestamp < obs[j].timestamp
}

/// `obs` holds an observation made at `timestamp`.
pub open spec fn has_timestamp(obs: Seq<Observation>, timestamp: u32) -> bool {
    exists|i: int| 0 <= i < obs.len() && obs[i].timestamp == timestamp
}

/// How many observations at the front of `obs` were made before
/// `timestamp`: the place of a new observation in a sorted list.
pub open spec fn spec_position(obs: Seq<Observation>, timestamp: u32) -> int
    decreases obs.len(),
{
    if obs.len() == 0 || obs[0].timestamp >= timestamp {
        0
    } else {
        1 + spec_position(obs.skip(1), timestamp)
    }
}

/// What one sweep over the pairs of a new observation has given so far.
pub struct Sweep {
    /// The days on which the car has a ticket.
    pub days: Set<int>,
    /// The tickets of this sweep, in the order in which they were made.
    pub tickets: Seq<TicketView>,
}

/// The sweep over the first `upto` partners of the observation at `at`.
///
/// The partners are taken in the order of the list. A partner before `at`
/// is the earlier observation of its pair, one behind `at` the later. A pair
/// gives a ticket when it shows the car too fast and none of its days is
/// taken, by an older ticket or by one of this sweep; its days are then
/// taken too.
pub open spec fn spec_sweep(
    obs: Seq<Observation>,
    at: int,
    p: PlateView,
    upto: int,
    days: Set<int>,
) -> Sweep
    decreases upto,
{
    if upto <= 0 {
        Sweep { days, tickets: Seq::empty() }
    } else {
        let before = spec_sweep(obs, at, p, upto - 1, days);
        let k = upto - 1;
        let a = if k < at {
            obs[k]
        } else {
            obs[at]
        };
        let b = if k < at {
            obs[at]
        } else {
            obs[k]
        };
        let span = days_between(day_of(a.timestamp), day_of(b.timestamp));
        if k != at && spec_too_fast(a, b, p.limit) && span.disjoint(before.days) {
            Sweep {
                days: before.days.union(span),
                tickets: before.tickets.push(spec_ticket(p, a, b)),
            }
        } else {
            before
        }
    }
}

/// What the engine knows.
pub struct EngineState {
    /// For each road and plate, the observations of that car on that road,
    /// sorted by timestamp.
    pub observations: Map<(u16, Seq<u8>), Seq<Observation>>,
    /// For each plate, the days on which that car has a ticket.
    pub ticketed: Map<Seq<u8>, Set<int>>,
}

/// The engine before the first report.
pub open spec fn spec_initial() -> EngineState {
    EngineState {
        observations: Map::total(|key: (u16, Seq<u8>)| Seq::<Observation>::empty()),
        ticketed: Map::total(|plate: Seq<u8>| Set::<int>::empty()),
    }
}

/// The engine after the report `p`, and the tickets that the report gives.
///
/// A report whose timestamp the car already has on that road changes
/// nothing. Any other is put at its place among the observations, and
/// weighed against each of them.
pub open spec fn spec_signal(s: EngineState, p: PlateView) -> (EngineState, Seq<TicketView>) {
    let key = (p.road, p.plate);
    let obs = s.observations[key];
    if has_timestamp(obs, p.timestamp) {
        (s, Seq::empty())
    } else {
        let at = spec_position(obs, p.timestamp);
        let grown = obs.insert(at, Observation { timestamp: p.timestamp, mile: p.mile });
        let sweep = spec_sweep(grown, at, p, grown.len() as int, s.ticketed[p.plate]);
        (
            EngineState {
                observations: s.observations.insert(key, grown),
                ticketed: s.ticketed.insert(p.plate, sweep.days),
            },
            sweep.tickets,
        )
    }
}

/// The observations of one car on one road.
struct Track {
    road: u16,
    plate: Vec<u8>,
    observations: Vec<Observation>,
}

/// The days on which one car has a ticket, as spans of days, first and last
/// day included.
struct Record {
    plate: Vec<u8>,
    spans: Vec<(u32, u32)>,
}

/// The ticketing engine.
pub struct Controller {
    tracks: Vec<Track>,
    records: Vec<Record>,
}

spec fn is_track(tracks: Seq<Track>, key: (u16, Seq<u8>), i: int) -> bool {
    0 <= i < tracks.len() && tracks[i].road == key.0 && tracks[i].plate@ == key.1
}

spec fn track_of(tracks: Seq<Track>, key: (u16, Seq<u8>)) -> Seq<Observation> {
    if exists|i: int| is_track(tracks, key, i) {
        tracks[choose|i: int| is_track(tracks, key, i)].observations@
    } else {
        Seq::empty()
    }
}

spec fn is_record(records: Seq<Record>, plate: Seq<u8>, i: int) -> bool {
    0 <= i < records.len() && records[i].plate@ == plate
}

/// The days that the spans cover.
spec fn span_days(spans: Seq<(u32, u32)>) -> Set<int> {
    Set::new(|d: int| exists|i: int| 0 <= i < spans.len() && in_span(spans[i], d))
}

spec fn in_span(span: (u32, u32), d: int) -> bool {
    span.0 <= d <= span.1
}

spec fn days_of(records: Seq<Record>, plate: Seq<u8>) -> Set<int> {
    if exists|i: int| is_record(records, plate, i) {
        span_days(records[choose|i: int| is_record(records, plate, i)].spans@)
    } else {
        Set::empty()
    }
}

impl View for Controller {
    type V = EngineState;

    closed spec fn view(&self) -> EngineState {
        EngineState {
            observations: Map::total(|key: (u16, Seq<u8>)| track_of(self.tracks@, key)),
            ticketed: Map::total(|plate: Seq<u8>| days_of(self.records@, plate)),
        }
    }
}

/// No two tracks are of the same car on the same road.
spec fn tracks_apart(tracks: Seq<Track>) -> bool {
    forall|i: int, j: int|
        0 <= i < j < tracks.len() ==> !(#[trigger] tracks[i].road == #[trigger] tracks[j].road
            && tracks[i].plate@ == tracks[j].plate@)
}

/// No two records are of the same car.
spec fn records_apart(records: Seq<Record>) -> bool {
    forall|i: int, j: int|
        0 <= i < j < records.len() ==> #[trigger] records[i].plate@ != #[trigger] records[j].plate@
}

/// With no two tracks of one car on one road, a track holds what the engine
/// knows of its car on its road.
proof fn lemma_track_of(tracks: Seq<Track>, i: int)
    requires
        tracks_apart(tracks),
        0 <= i < tracks.len(),
    ensures
        track_of(tracks, (tracks[i].road, tracks[i].plate@)) == tracks[i].observations@,
{
    let key = (tracks[i].road, tracks[i].plate@);
    assert(is_track(tracks, key, i));
    let j = choose|j: int| is_track(tracks, key, j);
    if j < i {
        assert(tracks[j].road == tracks[i].road);
    } else if i < j {
        assert(tracks[i].road == tracks[j].road);
    }
}

/// With no two records of one car, a record holds the days of its car.
proof fn lemma_days_of(records: Seq<Record>, i: int)
    requires
        records_apart(records),
        0 <= i < records.len(),
    ensures
        days_of(records, records[i].plate@) == span_days(records[i].spans@),
{
    let plate = records[i].plate@;
    assert(is_record(records, plate, i));
    let j = choose|j: int| is_record(records, plate, j);
    if j < i {
        assert(records[j].plate@ == records[i].plate@);
    } else if i < j {
        assert(records[i].plate@ == records[j].plate@);
    }
}

/// One more span adds its days.
proof fn lemma_span_days_push(spans: Seq<(u32, u32)>, first: u32, last: u32)
    ensures
        span_days(spans.push((first, last))) == span_days(spans).union(
            days_between(first as int, last as int),
        ),
{
    let grown = spans.push((first, last));
    assert forall|d: int|
        span_days(grown).contains(d) == (span_days(spans).contains(d) || days_between(
            first as int,
            last as int,
        ).contains(d)) by {
        if span_days(spans).contains(d) {
            let i = choose|i: int| 0 <= i < spans.len() && in_span(spans[i], d);
            assert(in_span(grown[i], d));
        }
        if days_between(first as int, last as int).contains(d) {
            assert(in_span(grown[spans.len() as int], d));
        }
        if span_days(grown).contains(d) {
            let i = choose|i: int| 0 <= i < grown.len() && in_span(grown[i], d);
            if i < spans.len() {
                assert(in_span(spans[i], d));
            }
        }
    }
    assert(span_days(grown) =~= span_days(spans).union(days_between(first as int, last as int)));
}

/// Where the timestamps rise, the place of a new timestamp is the first
/// index whose timestamp is not below it.
proof fn lemma_position(obs: Seq<Observation>, timestamp: u32, at: int)
    requires
        0 <= at <= obs.len(),
        forall|j: int| 0 <= j < at ==> obs[j].timestamp < timestamp,
        at < obs.len() ==> obs[at].timestamp >= timestamp,
    ensures
        spec_position(obs, timestamp) == at,
    decreases obs.len(),
{
    if at > 0 {
        let rest = obs.skip(1);
        assert forall|j: int| 0 <= j < at - 1 implies rest[j].timestamp < timestamp by {
            assert(rest[j] == obs[j + 1]);
        }
        lemma_position(rest, timestamp, at - 1);
    }
}

/// The miles between two points of a road.
pub fn distance(a: u16, b: u16) -> (d: u16)
    ensures
        d == spec_distance(a, b),
{
    if a <= b {
        b - a
    } else {
        a - b
    }
}

/// Tells whether the car was too fast between `a` and `b`, of which `a`
/// must be the earlier.
pub fn too_fast(a: Observation, b: Observation, limit: u16) -> (r: bool)
    ensures
        r == spec_too_fast(a, b, limit),
{
    if a.timestamp >= b.timestamp {
        return false;
    }
    let seconds: u64 = (b.timestamp - a.timestamp) as u64;
    let miles: u64 = distance(a.mile, b.mile) as u64;
    let bound: u64 = 2 * (limit as u64) + 1;
    assert(bound * seconds <= 131071 * 0xffff_ffff) by (nonlinear_arith)
        requires
            bound <= 131071,
            seconds <= 0xffff_ffff,
    ;
    7200 * miles >= bound * seconds
}

/// A hundred times the average speed between `a` and `b` in miles per hour,
/// rounded, and 65535 where that is larger.
pub fn speed_x100(a: Observation, b: Observation) -> (speed: u16)
    requires
        a.timestamp < b.timestamp,
    ensures
        speed == spec_speed_x100(spec_distance(a.mile, b.mile), b.timestamp - a.timestamp),
{
    let seconds: u64 = (b.timestamp - a.timestamp) as u64;
    let miles: u64 = distance(a.mile, b.mile) as u64;
    let rounded: u64 = (720000 * miles + seconds) / (2 * seconds);
    if rounded > 65535 {
        65535
    } else {
        rounded as u16
    }
}

/// Tells whether none of the days from `first` to `last` is covered by a
/// span.
fn days_free(spans: &Vec<(u32, u32)>, first: u32, last: u32) -> (r: bool)
    ensures
        r == days_between(first as int, last as int).disjoint(span_days(spans@)),
{
    let mut i: usize = 0;
    while i < spans.len()
        invariant
            i <= spans@.len(),
            forall|j: int, d: int|
                0 <= j < i && first <= d <= last ==> !#[trigger] in_span(spans@[j], d),
        decreases spans@.len() - i,
    {
        let span = spans[i];
        if first <= last && span.0 <= last && first <= span.1 && span.0 <= span.1 {
            proof {
                let d: int = if span.0 <= first {
                    first as int
                } else {
                    span.0 as int
                };
                assert(in_span(spans@[i as int], d));
                assert(span_days(spans@).contains(d));
                assert(days_between(first as int, last as int).contains(d));
            }
            return false;
        }
        i += 1;
    }
    proof {
        assert forall|d: int|
            !(days_between(first as int, last as int).contains(d) && span_days(spans@).contains(
                d,
            )) by {
            if days_between(first as int, last as int).contains(d) && span_days(spans@).contains(
                d,
            ) {
                let j = choose|j: int| 0 <= j < spans@.len() && in_span(spans@[j], d);
                assert(!in_span(spans@[j], d));
            }
        }
    }
    true
}

/// The place of a new observation made at `timestamp`.
fn position(obs: &Vec<Observation>, timestamp: u32) -> (at: usize)
    requires
        strictly_sorted(obs@),
    ensures
        at == spec_position(obs@, timestamp),
        at <= obs@.len(),
        has_timestamp(obs@, timestamp) == (at < obs@.len() && obs@[at as int].timestamp
            == timestamp),
        forall|j: int| 0 <= j < at ==> obs@[j].timestamp < timestamp,
        forall|j: int| at <= j < obs@.len() ==> obs@[j].timestamp >= timestamp,
{
    let mut at: usize = 0;
    while at < obs.len() && obs[at].timestamp < timestamp
        invariant
            at <= obs@.len(),
            forall|j: int| 0 <= j < at ==> obs@[j].timestamp < timestamp,
        decreases obs@.len() - at,
    {
        at += 1;
    }
    proof {
        lemma_position(obs@, timestamp, at as int);
        if has_timestamp(obs@, timestamp) {
            let i = choose|i: int| 0 <= i < obs@.len() && obs@[i].timestamp == timestamp;
            if i > at {
                assert(obs@[at as int].timestamp < obs@[i].timestamp);
            }
        }
    }
    at
}

/// Weighs the observation at `at` against all others and gives the
/// tickets; the days of each are added to `spans`.
fn sweep(obs: &Vec<Observation>, at: usize, plate: &Plate, spans: &mut Vec<(u32, u32)>) -> (tickets:
    Vec<Ticket>)
    requires
        at < obs@.len(),
    ensures
        span_days(final(spans)@) == spec_sweep(
            obs@,
            at as int,
            plate@,
            obs@.len() as int,
            span_days(old(spans)@),
        ).days,
        ticket_views(tickets@) == spec_sweep(
            obs@,
            at as int,
            plate@,
            obs@.len() as int,
            span_days(old(spans)@),
        ).tickets,
{
    let mut tickets: Vec<Ticket> = Vec::new();
    let n: usize = obs.len();
    let mut k: usize = 0;
    assert(ticket_views(tickets@) =~= Seq::<TicketView>::empty());
    while k < n
        invariant
            k <= n == obs@.len(),
            at < n,
            span_days(spans@) == spec_sweep(
                obs@,
                at as int,
                plate@,
                k as int,
                span_days(old(spans)@),
            ).days,
            ticket_views(tickets@) == spec_sweep(
                obs@,
                at as int,
                plate@,
                k as int,
                span_days(old(spans)@),
            ).tickets,
        decreases n - k,
    {
        if k != at {
            let a: Observation = if k < at {
                obs[k]
            } else {
                obs[at]
            };
            let b: Observation = if k < at {
                obs[at]
            } else {
                obs[k]
            };
            if too_fast(a, b, plate.limit) {
                let first: u32 = a.timestamp / SECONDS_PER_DAY;
                let last: u32 = b.timestamp / SECONDS_PER_DAY;
                if days_free(spans, first, last) {
                    proof {
                        lemma_span_days_push(spans@, first, last);
                    }
                    let ghost before = tickets@;
                    spans.push((first, last));
                    let ticket = Ticket {
                        plate: copy_bytes(plate.plate.as_slice()),
                        road: plate.road,
                        mile1: a.mile,
                        timestamp1: a.timestamp,
                        mile2: b.mile,
                        timestamp2: b.timestamp,
                        speed: speed_x100(a, b),
                    };
                    tickets.push(ticket);
                    assert(ticket_views(tickets@) =~= ticket_views(before).push(
                        spec_ticket(plate@, a, b),
                    ));
                }
            }
        }
        k += 1;
    }
    tickets
}

/// A changed or added track changes what the engine knows of that car on
/// that road, and of no other.
proof fn lemma_tracks_changed(before: Seq<Track>, after: Seq<Track>, i: int)
    requires
        tracks_apart(before),
        0 <= i < after.len(),
        before.len() == after.len() || (before.len() == i && after.len() == i + 1 && forall|
            j: int,
        | !is_track(before, (after[i].road, after[i].plate@), j)),
        forall|j: int| 0 <= j < before.len() && j != i ==> before[j] == after[j],
        i < before.len() ==> before[i].road == after[i].road && before[i].plate@ == after[i].plate@,
    ensures
        tracks_apart(after),
        forall|key: (u16, Seq<u8>)|
            #[trigger] track_of(after, key) == if key == (after[i].road, after[i].plate@) {
                after[i].observations@
            } else {
                track_of(before, key)
            },
{
    assert forall|a: int, b: int| 0 <= a < b < after.len() implies !(#[trigger] after[a].road
        == #[trigger] after[b].road && after[a].plate@ == after[b].plate@) by {
        if b < before.len() {
            assert(!(before[a].road == before[b].road && before[a].plate@ == before[b].plate@));
        } else {
            assert(!is_track(before, (after[i].road, after[i].plate@), a));
        }
    }
    assert forall|key: (u16, Seq<u8>)|
        #[trigger] track_of(after, key) == if key == (after[i].road, after[i].plate@) {
            after[i].observations@
        } else {
            track_of(before, key)
        } by {
        if key == (after[i].road, after[i].plate@) {
            lemma_track_of(after, i);
        } else if exists|j: int| is_track(after, key, j) {
            let j = choose|j: int| is_track(after, key, j);
            assert(is_track(before, key, j));
            lemma_track_of(after, j);
            lemma_track_of(before, j);
        } else if exists|j: int| is_track(before, key, j) {
            let j = choose|j: int| is_track(before, key, j);
            assert(is_track(after, key, j));
        }
    }
}

/// A changed or added record changes the days of that car, and of no other.
proof fn lemma_records_changed(before: Seq<Record>, after: Seq<Record>, i: int)
    requires
        records_apart(before),
        0 <= i < after.len(),
        before.len() == after.len() || (before.len() == i && after.len() == i + 1 && forall|
            j: int,
        | !is_record(before, after[i].plate@, j)),
        forall|j: int| 0 <= j < before.len() && j != i ==> before[j] == after[j],
        i < before.len() ==> before[i].plate@ == after[i].plate@,
    ensures
        records_apart(after),
        forall|plate: Seq<u8>|
            #[trigger] days_of(after, plate) == if plate == after[i].plate@ {
                span_days(after[i].spans@)
            } else {
                days_of(before, plate)
            },
{
    assert forall|a: int, b: int| 0 <= a < b < after.len() implies #[trigger] after[a].plate@
        != #[trigger] after[b].plate@ by {
        if b < before.len() {
            assert(before[a].plate@ != before[b].plate@);
        } else {
            assert(!is_record(before, after[i].plate@, a));
        }
    }
    assert forall|plate: Seq<u8>|
        #[trigger] days_of(after, plate) == if plate == after[i].plate@ {
            span_days(after[i].spans@)
        } else {
            days_of(before, plate)
        } by {
        if plate == after[i].plate@ {
            lemma_days_of(after, i);
        } else if exists|j: int| is_record(after, plate, j) {
            let j = choose|j: int| is_record(after, plate, j);
            assert(is_record(before, plate, j));
            lemma_days_of(after, j);
            lemma_days_of(before, j);
        } else if exists|j: int| is_record(before, plate, j) {
            let j = choose|j: int| is_record(before, plate, j);
            assert(is_record(after, plate, j));
        }
    }
}

/// The index of the track of a car on a road, if there is one.
fn find_track(tracks: &Vec<Track>, road: u16, plate: &[u8]) -> (r: Option<usize>)
    ensures
        match r {
            Some(i) => is_track(tracks@, (road, plate@), i as int),
            None => forall|i: int| !is_track(tracks@, (road, plate@), i),
        },
{
    let mut i: usize = 0;
    while i < tracks.len()
        invariant
            i <= tracks@.len(),
            forall|j: int| 0 <= j < i ==> !is_track(tracks@, (road, plate@), j),
        decreases tracks@.len() - i,
    {
        if tracks[i].road == road && bytes_eq(tracks[i].plate.as_slice(), plate) {
            return Some(i);
        }
        i += 1;
    }
    None
}

/// The index of the record of a car, if there is one.
fn find_record(records: &Vec<Record>, plate: &[u8]) -> (r: Option<usize>)
    ensures
        match r {
            Some(i) => is_record(records@, plate@, i as int),
            None => forall|i: int| !is_record(records@, plate@, i),
        },
{
    let mut i: usize = 0;
    while i < records.len()
        invariant
            i <= records@.len(),
            forall|j: int| 0 <= j < i ==> !is_record(records@, plate@, j),
        decreases records@.len() - i,
    {
        if bytes_eq(records[i].plate.as_slice(), plate) {
            return Some(i);
        }
        i += 1;
    }
    None
}

impl Controller {
    /// What the engine relies on: one track for a car on a road, one record
    /// for a car, and the observations of each track sorted by timestamp.
    pub closed spec fn wf(&self) -> bool {
        &&& tracks_apart(self.tracks@)
        &&& records_apart(self.records@)
        &&& forall|i: int|
            0 <= i < self.tracks@.len() ==> strictly_sorted(
                #[trigger] self.tracks@[i].observations@,
            )
    }

    /// An engine that has seen no car.
    pub fn new() -> (c: Controller)
        ensures
            c.wf(),
            c@ == spec_initial(),
    {
        let c = Controller { tracks: Vec::new(), records: Vec::new() };
        assert(c@.observations =~= spec_initial().observations);
        assert(c@.ticketed =~= spec_initial().ticketed);
        c
    }

    /// The index of the track of a car on a road; the track is made, empty,
    /// where there is none.
    fn track_index(&mut self, road: u16, plate: &[u8]) -> (ti: usize)
        requires
            old(self).wf(),
        ensures
            final(self).wf(),
            final(self)@ == old(self)@,
            final(self).records == old(self).records,
            is_track(final(self).tracks@, (road, plate@), ti as int),
    {
        match find_track(&self.tracks, road, plate) {
            Some(i) => i,
            None => {
                let track = Track { road, plate: copy_bytes(plate), observations: Vec::new() };
                self.tracks.push(track);
                let ti: usize = self.tracks.len() - 1;
                proof {
                    lemma_tracks_changed(old(self).tracks@, self.tracks@, ti as int);
                    assert(self@.observations =~= old(self)@.observations);
                }
                ti
            },
        }
    }

    /// The index of the record of a car; the record is made, empty, where
    /// there is none.
    fn record_index(&mut self, plate: &[u8]) -> (ri: usize)
        requires
            old(self).wf(),
        ensures
            final(self).wf(),
            final(self)@ == old(self)@,
            final(self).tracks == old(self).tracks,
            is_record(final(self).records@, plate@, ri as int),
    {
        match find_record(&self.records, plate) {
            Some(i) => i,
            None => {
                let record = Record { plate: copy_bytes(plate), spans: Vec::new() };
                self.records.push(record);
                let ri: usize = self.records.len() - 1;
                proof {
                    lemma_records_changed(old(self).records@, self.records@, ri as int);
                    assert(span_days(self.records@[ri as int].spans@) =~= Set::<int>::empty());
                    assert(self@.ticketed =~= old(self)@.ticketed);
                }
                ri
            },
        }
    }

    /// Takes in one report and gives the tickets that it leads to.
    pub fn signal(&mut self, plate: Plate) -> (tickets: Vec<Ticket>)
        requires
            old(self).wf(),
        ensures
            final(self).wf(),
            final(self)@ == spec_signal(old(self)@, plate@).0,
            ticket_views(tickets@) == spec_signal(old(self)@, plate@).1,
    {
        let ghost key = (plate.road, plate.plate@);
        let ti = self.track_index(plate.road, plate.plate.as_slice());
        proof {
            lemma_track_of(self.tracks@, ti as int);
        }
        let at = position(&self.tracks[ti].observations, plate.timestamp);
        if at < self.tracks[ti].observations.len() && self.tracks[ti].observations[at].timestamp
            == plate.timestamp {
            let tickets: Vec<Ticket> = Vec::new();
            assert(ticket_views(tickets@) =~= Seq::<TicketView>::empty());
            return tickets;
        }
        let ri = self.record_index(plate.plate.as_slice());
        let ghost mid = *self;
        proof {
            lemma_track_of(self.tracks@, ti as int);
            lemma_days_of(self.records@, ri as int);
        }
        let seen = Observation { timestamp: plate.timestamp, mile: plate.mile };
        self.tracks[ti].observations.insert(at, seen);
        let tickets = sweep(&self.tracks[ti].observations, at, &plate, &mut self.records[ri].spans);
        proof {
            lemma_tracks_changed(mid.tracks@, self.tracks@, ti as int);
            lemma_records_changed(mid.records@, self.records@, ri as int);
            let grown = self.tracks@[ti as int].observations@;
            assert(strictly_sorted(grown));
            let goal = spec_signal(old(self)@, plate@).0;
            assert(self@.observations =~= goal.observations);
            assert(self@.ticketed =~= goal.ticketed);
        }
        tickets
    }
}

impl Default for Controller {
    fn default() -> (c: Controller)
        ensures
            c.wf(),
            c@ == spec_initial(),
    {
        Controller::new()
    }
}

/// The engine after a series of reports, from the first one on, and all
/// the tickets that they gave, in the order in which they were made.
pub open spec fn spec_run(plates: Seq<PlateView>) -> (EngineState, Seq<TicketView>)
    decreases plates.len(),
{
    if plates.len() == 0 {
        (spec_initial(), Seq::empty())
    } else {
        let before = spec_run(plates.drop_last());
        let step = spec_signal(before.0, plates.last());
        (step.0, before.1 + step.1)
    }
}

/// The first observation of a ticket.
pub open spec fn ticket_first(t: TicketView) -> Observation {
    Observation { timestamp: t.timestamp1, mile: t.mile1 }
}

/// The second observation of a ticket.
pub open spec fn ticket_second(t: TicketView) -> Observation {
    Observation { timestamp: t.timestamp2, mile: t.mile2 }
}

/// The report `p` is of the car `plate`, seen on `road` as `seen` says.
pub open spec fn reports(p: PlateView, road: u16, plate: Seq<u8>, seen: Observation) -> bool {
    p.road == road && p.plate == plate && p.mile == seen.mile && p.timestamp == seen.timestamp
}

/// `t` is the ticket of the report `p` for the observation at `at` and
/// another observation of `obs`, between which the car was too fast.
pub open spec fn ticket_of_pair(t: TicketView, p: PlateView, obs: Seq<Observation>, at: int) -> bool {
    exists|k: int|
        0 <= k < obs.len() && k != at && #[trigger] pair_gives(t, p, obs, at, k)
}

/// `t` is the ticket of the report `p` for the observations at `at` and at
/// `k`, the one that stands first being the earlier.
pub open spec fn pair_gives(t: TicketView, p: PlateView, obs: Seq<Observation>, at: int, k: int) -> bool {
    let a = if k < at {
        obs[k]
    } else {
        obs[at]
    };
    let b = if k < at {
        obs[at]
    } else {
        obs[k]
    };
    spec_too_fast(a, b, p.limit) && t == spec_ticket(p, a, b)
}

/// A car that was too fast has a speed on its ticket of at least the limit
/// and a half, times a hundred, as long as that fits on a ticket.
pub proof fn lemma_speed_above_limit(a: Observation, b: Observation, limit: u16)
    requires
        spec_too_fast(a, b, limit),
        limit <= 654,
    ensures
        spec_speed_x100(spec_distance(a.mile, b.mile), b.timestamp - a.timestamp) >= 100 * limit
            + 50,
{
    let miles = spec_distance(a.mile, b.mile);
    let seconds = b.timestamp - a.timestamp;
    let bound = 100 * limit + 50;
    assert(720000 * miles + seconds >= bound * (2 * seconds)) by (nonlinear_arith)
        requires
            7200 * miles >= (2 * limit + 1) * seconds,
            bound == 100 * limit + 50,
            seconds > 0,
    ;
    assert((720000 * miles + seconds) / (2 * seconds) >= bound) by (nonlinear_arith)
        requires
            720000 * miles + seconds >= bound * (2 * seconds),
            seconds > 0,
    ;
}

/// What holds of one sweep: no day is given up; each ticket is of a pair of
/// the new observation and another, takes days that were free before the
/// sweep and are taken after it; and no two tickets share a day.
proof fn lemma_sweep(obs: Seq<Observation>, at: int, p: PlateView, upto: int, days: Set<int>)
    requires
        0 <= at < obs.len(),
        0 <= upto <= obs.len(),
    ensures
        days.subset_of(spec_sweep(obs, at, p, upto, days).days),
        forall|i: int|
            0 <= i < spec_sweep(obs, at, p, upto, days).tickets.len() ==> {
                let t = #[trigger] spec_sweep(obs, at, p, upto, days).tickets[i];
                &&& ticket_of_pair(t, p, obs, at)
                &&& ticket_days(t).disjoint(days)
                &&& ticket_days(t).subset_of(spec_sweep(obs, at, p, upto, days).days)
            },
        forall|i: int, j: int|
            0 <= i < j < spec_sweep(obs, at, p, upto, days).tickets.len() ==> ticket_days(
                #[trigger] spec_sweep(obs, at, p, upto, days).tickets[i],
            ).disjoint(ticket_days(#[trigger] spec_sweep(obs, at, p, upto, days).tickets[j])),
    decreases upto,
{
    if upto > 0 {
        lemma_sweep(obs, at, p, upto - 1, days);
        let before = spec_sweep(obs, at, p, upto - 1, days);
        let after = spec_sweep(obs, at, p, upto, days);
        let k = upto - 1;
        if after.tickets.len() > before.tickets.len() {
            let t = after.tickets[before.tickets.len() as int];
            assert(pair_gives(t, p, obs, at, k));
            assert forall|i: int| 0 <= i < before.tickets.len() implies ticket_days(
                #[trigger] after.tickets[i],
            ).disjoint(ticket_days(t)) by {
                assert(after.tickets[i] == before.tickets[i]);
            }
            assert forall|i: int| 0 <= i < after.tickets.len() implies {
                let u = #[trigger] after.tickets[i];
                &&& ticket_of_pair(u, p, obs, at)
                &&& ticket_days(u).disjoint(days)
                &&& ticket_days(u).subset_of(after.days)
            } by {
                if i < before.tickets.len() {
                    assert(after.tickets[i] == before.tickets[i]);
                }
            }
            assert forall|i: int, j: int| 0 <= i < j < after.tickets.len() implies ticket_days(
                #[trigger] after.tickets[i],
            ).disjoint(ticket_days(#[trigger] after.tickets[j])) by {
                assert(after.tickets[i] == before.tickets[i]);
                if j < before.tickets.len() {
                    assert(after.tickets[j] == before.tickets[j]);
                }
            }
        }
    }
}

/// Of every ticket that a report gives: it is for the car and the road of
/// the report; its first observation was made before its second; both are
/// among the observations that the engine then holds for that car on that
/// road.
pub proof fn lemma_ticket_matches_observations(s: EngineState, p: PlateView, i: int)
    requires
        0 <= i < spec_signal(s, p).1.len(),
    ensures
        ({
            let t = spec_signal(s, p).1[i];
            let held = spec_signal(s, p).0.observations[(p.road, p.plate)];
            &&& t.plate == p.plate
            &&& t.road == p.road
            &&& t.timestamp1 < t.timestamp2
            &&& held.contains(ticket_first(t))
            &&& held.contains(ticket_second(t))
            &&& reports(p, t.road, t.plate, ticket_first(t)) || reports(
                p,
                t.road,
                t.plate,
                ticket_second(t),
            )
        }),
{
    let obs = s.observations[(p.road, p.plate)];
    let at = spec_position(obs, p.timestamp);
    lemma_position_in_range(obs, p.timestamp);
    let grown = obs.insert(at, Observation { timestamp: p.timestamp, mile: p.mile });
    lemma_sweep(grown, at, p, grown.len() as int, s.ticketed[p.plate]);
    let t = spec_signal(s, p).1[i];
    let k = choose|k: int| 0 <= k < grown.len() && k != at && #[trigger] pair_gives(t, p, grown, at, k);
    assert(grown[at] == Observation { timestamp: p.timestamp, mile: p.mile });
    assert(grown.contains(grown[k]));
    assert(grown.contains(grown[at]));
}

/// The place of a new observation lies within the list or right behind it.
pub proof fn lemma_position_in_range(obs: Seq<Observation>, timestamp: u32)
    ensures
        0 <= spec_position(obs, timestamp) <= obs.len(),
    decreases obs.len(),
{
    if !(obs.len() == 0 || obs[0].timestamp >= timestamp) {
        lemma_position_in_range(obs.skip(1), timestamp);
    }
}

/// Of every ticket that a report gives, on a road whose limit is at most
/// 654 miles per hour: the speed on it is at least a hundred times the
/// limit, and fifty. (Above that limit the number does not fit on a ticket.)
pub proof fn lemma_ticket_speed_above_limit(s: EngineState, p: PlateView, i: int)
    requires
        0 <= i < spec_signal(s, p).1.len(),
        p.limit <= 654,
    ensures
        spec_signal(s, p).1[i].speed >= 100 * p.limit + 50,
{
    let obs = s.observations[(p.road, p.plate)];
    let at = spec_position(obs, p.timestamp);
    lemma_position_in_range(obs, p.timestamp);
    let grown = obs.insert(at, Observation { timestamp: p.timestamp, mile: p.mile });
    lemma_sweep(grown, at, p, grown.len() as int, s.ticketed[p.plate]);
    let t = spec_signal(s, p).1[i];
    let k = choose|k: int| 0 <= k < grown.len() && k != at && #[trigger] pair_gives(t, p, grown, at, k);
    if k < at {
        lemma_speed_above_limit(grown[k], grown[at], p.limit);
    } else {
        lemma_speed_above_limit(grown[at], grown[k], p.limit);
    }
}

/// Of every ticket that a report gives: none of its days was taken for that
/// car before the report, and all of them are taken after it. No day of any
/// car is given up, and two tickets of one report share no day.
pub proof fn lemma_ticket_takes_free_days(s: EngineState, p: PlateView, i: int)
    requires
        0 <= i < spec_signal(s, p).1.len(),
    ensures
        ticket_days(spec_signal(s, p).1[i]).disjoint(s.ticketed[p.plate]),
        ticket_days(spec_signal(s, p).1[i]).subset_of(spec_signal(s, p).0.ticketed[p.plate]),
        forall|j: int|
            0 <= j < spec_signal(s, p).1.len() && j != i ==> ticket_days(
                spec_signal(s, p).1[i],
            ).disjoint(ticket_days(#[trigger] spec_signal(s, p).1[j])),
{
    let obs = s.observations[(p.road, p.plate)];
    let at = spec_position(obs, p.timestamp);
    lemma_position_in_range(obs, p.timestamp);
    let grown = obs.insert(at, Observation { timestamp: p.timestamp, mile: p.mile });
    lemma_sweep(grown, at, p, grown.len() as int, s.ticketed[p.plate]);
    let tickets = spec_signal(s, p).1;
    assert forall|j: int| 0 <= j < tickets.len() && j != i implies ticket_days(
        tickets[i],
    ).disjoint(ticket_days(#[trigger] tickets[j])) by {
        if j < i {
            assert(ticket_days(tickets[j]).disjoint(ticket_days(tickets[i])));
        }
    }
}

/// The days that are taken for a car stay taken.
pub proof fn lemma_days_stay_taken(s: EngineState, p: PlateView, plate: Seq<u8>)
    ensures
        s.ticketed[plate].subset_of(spec_signal(s, p).0.ticketed[plate]),
{
    let obs = s.observations[(p.road, p.plate)];
    if !has_timestamp(obs, p.timestamp) {
        let at = spec_position(obs, p.timestamp);
        lemma_position_in_range(obs, p.timestamp);
        let grown = obs.insert(at, Observation { timestamp: p.timestamp, mile: p.mile });
        lemma_sweep(grown, at, p, grown.len() as int, s.ticketed[p.plate]);
    }
}

/// What a series of reports keeps true: the days of each ticket are taken
/// for its car, and two tickets of one car share no day.
proof fn lemma_run_days(plates: Seq<PlateView>)
    ensures
        forall|i: int|
            0 <= i < spec_run(plates).1.len() ==> ticket_days(
                #[trigger] spec_run(plates).1[i],
            ).subset_of(spec_run(plates).0.ticketed[spec_run(plates).1[i].plate]),
        forall|i: int, j: int|
            0 <= i < j < spec_run(plates).1.len() && spec_run(plates).1[i].plate == spec_run(
                plates,
            ).1[j].plate ==> ticket_days(#[trigger] spec_run(plates).1[i]).disjoint(
                ticket_days(#[trigger] spec_run(plates).1[j]),
            ),
    decreases plates.len(),
{
    if plates.len() > 0 {
        lemma_run_days(plates.drop_last());
        let before = spec_run(plates.drop_last());
        let p = plates.last();
        let step = spec_signal(before.0, p);
        let all = spec_run(plates).1;
        let old_len = before.1.len() as int;
        assert forall|i: int| 0 <= i < all.len() implies ticket_days(#[trigger] all[i]).subset_of(
            step.0.ticketed[all[i].plate],
        ) by {
            if i < old_len {
                assert(all[i] == before.1[i]);
                lemma_days_stay_taken(before.0, p, all[i].plate);
            } else {
                assert(all[i] == step.1[i - old_len]);
                lemma_ticket_takes_free_days(before.0, p, i - old_len);
                lemma_ticket_matches_observations(before.0, p, i - old_len);
            }
        }
        assert forall|i: int, j: int|
            0 <= i < j < all.len() && all[i].plate == all[j].plate implies ticket_days(
            #[trigger] all[i],
        ).disjoint(ticket_days(#[trigger] all[j])) by {
            if j < old_len {
                assert(all[i] == before.1[i] && all[j] == before.1[j]);
            } else {
                assert(all[j] == step.1[j - old_len]);
                lemma_ticket_takes_free_days(before.0, p, j - old_len);
                lemma_ticket_matches_observations(before.0, p, j - old_len);
                if i < old_len {
                    assert(all[i] == before.1[i]);
                } else {
                    assert(all[i] == step.1[i - old_len]);
                }
            }
        }
    }
}

/// One ticket per car and day: of all the tickets that a series of reports
/// gives, no two for the same car cover a common day.
pub proof fn lemma_one_ticket_per_day(plates: Seq<PlateView>, i: int, j: int)
    requires
        0 <= i < spec_run(plates).1.len(),
        0 <= j < spec_run(plates).1.len(),
        i != j,
        spec_run(plates).1[i].plate == spec_run(plates).1[j].plate,
    ensures
        ticket_days(spec_run(plates).1[i]).disjoint(ticket_days(spec_run(plates).1[j])),
{
    lemma_run_days(plates);
    if j < i {
        assert(ticket_days(spec_run(plates).1[j]).disjoint(ticket_days(spec_run(plates).1[i])));
    }
}

/// Some report of `plates` is of the car `plate`, seen on `road` as `seen`
/// says.
pub open spec fn was_reported(plates: Seq<PlateView>, road: u16, plate: Seq<u8>, seen: Observation) -> bool {
    exists|k: int| 0 <= k < plates.len() && reports(#[trigger] plates[k], road, plate, seen)
}

/// A report that was made stays made when more reports follow.
proof fn lemma_reported_before(plates: Seq<PlateView>, road: u16, plate: Seq<u8>, seen: Observation)
    requires
        plates.len() > 0,
        was_reported(plates.drop_last(), road, plate, seen),
    ensures
        was_reported(plates, road, plate, seen),
{
    let k = choose|k: int|
        0 <= k < plates.drop_last().len() && reports(
            #[trigger] plates.drop_last()[k],
            road,
            plate,
            seen,
        );
    assert(plates[k] == plates.drop_last()[k]);
}

/// The engine holds no observation that no camera reported.
pub proof fn lemma_observations_were_reported(
    plates: Seq<PlateView>,
    road: u16,
    plate: Seq<u8>,
    seen: Observation,
)
    requires
        spec_run(plates).0.observations[(road, plate)].contains(seen),
    ensures
        was_reported(plates, road, plate, seen),
    decreases plates.len(),
{
    if plates.len() > 0 {
        let before = spec_run(plates.drop_last()).0;
        let p = plates.last();
        let held = before.observations[(road, plate)];
        if held.contains(seen) {
            lemma_observations_were_reported(plates.drop_last(), road, plate, seen);
            lemma_reported_before(plates, road, plate, seen);
        } else {
            let obs = before.observations[(p.road, p.plate)];
            let at = spec_position(obs, p.timestamp);
            lemma_position_in_range(obs, p.timestamp);
            let new = Observation { timestamp: p.timestamp, mile: p.mile };
            let grown = obs.insert(at, new);
            assert((road, plate) == (p.road, p.plate));
            let k = choose|k: int| 0 <= k < grown.len() && grown[k] == seen;
            if k < at {
                assert(obs[k] == seen);
            } else if k > at {
                assert(obs[k - 1] == seen);
            }
            assert(reports(plates[plates.len() - 1], road, plate, seen));
        }
    }
}

/// Every ticket that a series of reports gives names two observations that
/// cameras reported, for the car and on the road of the ticket, and the
/// first of them was made before the second.
pub proof fn lemma_tickets_match_reports(plates: Seq<PlateView>, i: int)
    requires
        0 <= i < spec_run(plates).1.len(),
    ensures
        ({
            let t = spec_run(plates).1[i];
            &&& t.timestamp1 < t.timestamp2
            &&& was_reported(plates, t.road, t.plate, ticket_first(t))
            &&& was_reported(plates, t.road, t.plate, ticket_second(t))
        }),
    decreases plates.len(),
{
    if plates.len() > 0 {
        let before = spec_run(plates.drop_last());
        let p = plates.last();
        let t = spec_run(plates).1[i];
        if i < before.1.len() {
            assert(t == before.1[i]);
            lemma_tickets_match_reports(plates.drop_last(), i);
            lemma_reported_before(plates, t.road, t.plate, ticket_first(t));
            lemma_reported_before(plates, t.road, t.plate, ticket_second(t));
        } else {
            let n = i - before.1.len();
            assert(t == spec_signal(before.0, p).1[n]);
            lemma_ticket_matches_observations(before.0, p, n);
            lemma_observations_were_reported(plates, t.road, t.plate, ticket_first(t));
            lemma_observations_were_reported(plates, t.road, t.plate, ticket_second(t));
        }
    }
}

/// Where all cameras of a road declare the same limit, and that limit is
/// at most 654 miles per hour, every ticket for that road shows a speed of at
/// least a hundred times the limit, and fifty. (Above that limit the number
/// does not fit on a ticket.)
pub proof fn lemma_tickets_exceed_limit(plates: Seq<PlateView>, road: u16, limit: u16, i: int)
    requires
        limit <= 654,
        forall|k: int|
            0 <= k < plates.len() && (#[trigger] plates[k]).road == road ==> plates[k].limit
                == limit,
        0 <= i < spec_run(plates).1.len(),
        spec_run(plates).1[i].road == road,
    ensures
        spec_run(plates).1[i].speed >= 100 * limit + 50,
    decreases plates.len(),
{
    if plates.len() > 0 {
        let before = spec_run(plates.drop_last());
        let p = plates.last();
        let t = spec_run(plates).1[i];
        if i < before.1.len() {
            assert(t == before.1[i]);
            assert forall|k: int|
                0 <= k < plates.drop_last().len() && (#[trigger] plates.drop_last()[k]).road
                    == road implies plates.drop_last()[k].limit == limit by {
                assert(plates.drop_last()[k] == plates[k]);
            }
            lemma_tickets_exceed_limit(plates.drop_last(), road, limit, i);
        } else {
            let n = i - before.1.len();
            assert(t == spec_signal(before.0, p).1[n]);
            lemma_ticket_matches_observations(before.0, p, n);
            assert(plates[plates.len() - 1].road == road);
            lemma_ticket_speed_above_limit(before.0, p, n);
        }
    }
}

/// The two observations of the pair that the observation at `at` forms
/// with the one at `k`, the earlier first.
pub open spec fn spec_pair(obs: Seq<Observation>, at: int, k: int) -> (Observation, Observation) {
    if k < at {
        (obs[k], obs[at])
    } else {
        (obs[at], obs[k])
    }
}

/// The days that a pair of observations spans.
pub open spec fn pair_days(pair: (Observation, Observation)) -> Set<int> {
    days_between(day_of(pair.0.timestamp), day_of(pair.1.timestamp))
}

/// A sweep leaves no pair out: after it, each pair that it weighed and
/// that shows the car too fast has a day that is taken.
proof fn lemma_sweep_leaves_none_out(
    obs: Seq<Observation>,
    at: int,
    p: PlateView,
    upto: int,
    days: Set<int>,
    k: int,
)
    requires
        0 <= at < obs.len(),
        0 <= k < upto <= obs.len(),
        k != at,
        spec_too_fast(spec_pair(obs, at, k).0, spec_pair(obs, at, k).1, p.limit),
    ensures
        !pair_days(spec_pair(obs, at, k)).disjoint(spec_sweep(obs, at, p, upto, days).days),
    decreases upto,
{
    let pair = spec_pair(obs, at, k);
    let first = day_of(pair.0.timestamp);
    assert(pair_days(pair).contains(first));
    let before = spec_sweep(obs, at, p, upto - 1, days);
    let after = spec_sweep(obs, at, p, upto, days);
    lemma_sweep(obs, at, p, upto - 1, days);
    if k == upto - 1 {
        if pair_days(pair).disjoint(before.days) {
            assert(after.days.contains(first));
        } else {
            let d = choose|d: int| pair_days(pair).contains(d) && before.days.contains(d);
            assert(after.days.contains(d));
        }
    } else {
        lemma_sweep_leaves_none_out(obs, at, p, upto - 1, days, k);
        let d = choose|d: int| pair_days(pair).contains(d) && before.days.contains(d);
        assert(after.days.contains(d));
    }
}

/// No car that was too fast gets away, unless it has its ticket for the
/// day: after a report, each pair of the new observation and another of the
/// same car on the same road that shows the car too fast has a day that is
/// taken.
pub proof fn lemma_fast_pairs_are_ticketed(s: EngineState, p: PlateView, k: int)
    requires
        !has_timestamp(s.observations[(p.road, p.plate)], p.timestamp),
        0 <= k < s.observations[(p.road, p.plate)].len() + 1,
        k != spec_position(s.observations[(p.road, p.plate)], p.timestamp),
        ({
            let held = spec_signal(s, p).0.observations[(p.road, p.plate)];
            let at = spec_position(s.observations[(p.road, p.plate)], p.timestamp);
            spec_too_fast(spec_pair(held, at, k).0, spec_pair(held, at, k).1, p.limit)
        }),
    ensures
        ({
            let held = spec_signal(s, p).0.observations[(p.road, p.plate)];
            let at = spec_position(s.observations[(p.road, p.plate)], p.timestamp);
            &&& held[at] == (Observation { timestamp: p.timestamp, mile: p.mile })
            &&& !pair_days(spec_pair(held, at, k)).disjoint(spec_signal(s, p).0.ticketed[p.plate])
        }),
{
    let obs = s.observations[(p.road, p.plate)];
    let at = spec_position(obs, p.timestamp);
    lemma_position_in_range(obs, p.timestamp);
    let grown = obs.insert(at, Observation { timestamp: p.timestamp, mile: p.mile });
    lemma_sweep_leaves_none_out(grown, at, p, grown.len() as int, s.ticketed[p.plate], k);
}

} // verus!
