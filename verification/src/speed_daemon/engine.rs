use vstd::prelude::*;

use crate::bytes::{copy_bytes, same_bytes};

verus! {

/// Length of a day in seconds; a timestamp's day is the timestamp divided by it.
pub const SECONDS_PER_DAY: u32 = 86400;

/// The day of a timestamp.
pub open spec fn day_of(timestamp: u32) -> u32 {
    (timestamp / 86400) as u32
}

/// One observation of a plate by a camera, with the speed limit of the camera's road.
#[derive(Debug, PartialEq, Eq)]
pub struct PlateReading {
    pub plate: Vec<u8>,
    pub timestamp: u32,
    pub road: u16,
    pub mile: u16,
    pub limit: u16,
}

pub struct PlateReadingView {
    pub plate: Seq<u8>,
    pub timestamp: u32,
    pub road: u16,
    pub mile: u16,
    pub limit: u16,
}

impl View for PlateReading {
    type V = PlateReadingView;

    open spec fn view(&self) -> PlateReadingView {
        PlateReadingView {
            plate: self.plate@,
            timestamp: self.timestamp,
            road: self.road,
            mile: self.mile,
            limit: self.limit,
        }
    }
}

/// A speeding ticket: the two observations it rests on (the earlier first) and the
/// average speed between them in hundredths of a mile per hour.
#[derive(Debug, PartialEq, Eq)]
pub struct Ticket {
    pub plate: Vec<u8>,
    pub road: u16,
    pub mile1: u16,
    pub timestamp1: u32,
    pub mile2: u16,
    pub timestamp2: u32,
    pub speed: u16,
}

pub struct TicketView {
    pub plate: Seq<u8>,
    pub road: u16,
    pub mile1: u16,
    pub timestamp1: u32,
    pub mile2: u16,
    pub timestamp2: u32,
    pub speed: u16,
}

impl View for Ticket {
    type V = TicketView;

    open spec fn view(&self) -> TicketView {
        TicketView {
            plate: self.plate@,
            road: self.road,
            mile1: self.mile1,
            timestamp1: self.timestamp1,
            mile2: self.mile2,
            timestamp2: self.timestamp2,
            speed: self.speed,
        }
    }
}

/// The view of an optional ticket.
pub open spec fn ticket_option_view(t: Option<Ticket>) -> Option<TicketView> {
    match t {
        Some(x) => Some(x@),
        None => None,
    }
}

/// `readings` holds an observation of `plate` on `road` at `t`.
pub open spec fn seen_at(
    readings: Map<(Seq<u8>, u16, u32), u16>,
    plate: Seq<u8>,
    road: u16,
    t: u32,
) -> bool {
    readings.dom().contains((plate, road, t))
}

/// `t` is the latest observation of `plate` on `road` strictly before `ts`.
pub open spec fn is_latest_before(
    readings: Map<(Seq<u8>, u16, u32), u16>,
    plate: Seq<u8>,
    road: u16,
    ts: u32,
    t: u32,
) -> bool {
    &&& seen_at(readings, plate, road, t)
    &&& t < ts
    &&& forall|u: u32| #[trigger] seen_at(readings, plate, road, u) && u < ts ==> u <= t
}

/// `t` is the earliest observation of `plate` on `road` at or after `ts`.
pub open spec fn is_earliest_from(
    readings: Map<(Seq<u8>, u16, u32), u16>,
    plate: Seq<u8>,
    road: u16,
    ts: u32,
    t: u32,
) -> bool {
    &&& seen_at(readings, plate, road, t)
    &&& ts <= t
    &&& forall|u: u32| #[trigger] seen_at(readings, plate, road, u) && ts <= u ==> t <= u
}

/// The timestamp of the latest observation of `plate` on `road` before `ts`.
pub open spec fn latest_before(
    readings: Map<(Seq<u8>, u16, u32), u16>,
    plate: Seq<u8>,
    road: u16,
    ts: u32,
) -> Option<u32> {
    if exists|t: u32| is_latest_before(readings, plate, road, ts, t) {
        Some(choose|t: u32| is_latest_before(readings, plate, road, ts, t))
    } else {
        None
    }
}

/// The timestamp of the earliest observation of `plate` on `road` at or after `ts`.
pub open spec fn earliest_from(
    readings: Map<(Seq<u8>, u16, u32), u16>,
    plate: Seq<u8>,
    road: u16,
    ts: u32,
) -> Option<u32> {
    if exists|t: u32| is_earliest_from(readings, plate, road, ts, t) {
        Some(choose|t: u32| is_earliest_from(readings, plate, road, ts, t))
    } else {
        None
    }
}

/// The distance in miles between two mile markers.
pub open spec fn mile_gap(a: u16, b: u16) -> int {
    if a >= b {
        a - b
    } else {
        b - a
    }
}

/// The speed check panics in the arithmetic of `u32` and `u16`: the scaled distance
/// overflows a `u32`, the time between the observations is zero, or the scaled limit
/// overflows a `u16`.
pub open spec fn speed_check_faults(gap: int, elapsed: int, limit: u16) -> bool {
    ||| gap * 360000 > u32::MAX
    ||| elapsed == 0
    ||| limit * 100 > u16::MAX
}

/// The average speed in hundredths of a mile per hour, truncated to 16 bits.
pub open spec fn speed_of(gap: int, elapsed: int) -> u16 {
    ((gap * 360000 / elapsed) % 65536) as u16
}

/// What an observation leads to before anything is recorded.
#[derive(Clone, Copy, Debug, PartialEq, Eq, Structural)]
pub enum Assessment {
    /// The plate has a ticket for the observation's day: the observation is ignored.
    Skip,
    /// Checking the speed would overflow or divide by zero.
    Fault,
    /// The observation is recorded and no ticket is due.
    Clear,
    /// The observation is recorded and a ticket is due for these two observations.
    Violation { mile1: u16, timestamp1: u32, mile2: u16, timestamp2: u32, speed: u16 },
}

/// Checking the pair (earlier at `t1`, `m1`; later at `t2`, `m2`) against `limit`.
pub open spec fn check_pair(m1: u16, t1: u32, m2: u16, t2: u32, limit: u16) -> Assessment {
    let gap = mile_gap(m1, m2);
    let elapsed = t2 - t1;
    if speed_check_faults(gap, elapsed, limit) {
        Assessment::Fault
    } else if speed_of(gap, elapsed) > limit * 100 {
        Assessment::Violation {
            mile1: m1,
            timestamp1: t1,
            mile2: m2,
            timestamp2: t2,
            speed: speed_of(gap, elapsed),
        }
    } else {
        Assessment::Clear
    }
}

/// Assessment against the latest earlier observation on the same road.
pub open spec fn assess_before(v: OfficeView, r: PlateReadingView) -> Assessment {
    match latest_before(v.readings, r.plate, r.road, r.timestamp) {
        Some(t) => if v.ticketed.contains((r.plate, day_of(t))) {
            Assessment::Clear
        } else {
            check_pair(v.readings[(r.plate, r.road, t)], t, r.mile, r.timestamp, r.limit)
        },
        None => Assessment::Clear,
    }
}

/// Assessment against the earliest observation on the same road at or after it.
pub open spec fn assess_after(v: OfficeView, r: PlateReadingView) -> Assessment {
    match earliest_from(v.readings, r.plate, r.road, r.timestamp) {
        Some(t) => if v.ticketed.contains((r.plate, day_of(t))) {
            Assessment::Clear
        } else {
            check_pair(r.mile, r.timestamp, v.readings[(r.plate, r.road, t)], t, r.limit)
        },
        None => Assessment::Clear,
    }
}

/// What an observation leads to: ignored when the plate is ticketed for its day;
/// otherwise checked first against the earlier neighbour, then, if that one is clear,
/// against the later neighbour.
pub open spec fn spec_assess(v: OfficeView, r: PlateReadingView) -> Assessment {
    if v.ticketed.contains((r.plate, day_of(r.timestamp))) {
        Assessment::Skip
    } else {
        match assess_before(v, r) {
            Assessment::Clear => assess_after(v, r),
            other => other,
        }
    }
}

/// The (plate, day) pairs from day `d1` to day `d2`.
pub open spec fn days_between(plate: Seq<u8>, d1: u32, d2: u32) -> Set<(Seq<u8>, u32)> {
    Set::new(|p: (Seq<u8>, u32)| p.0 == plate && d1 <= p.1 <= d2)
}

/// The state after an observation, and the ticket it leads to.
pub open spec fn spec_observe(v: OfficeView, r: PlateReadingView) -> (OfficeView, Option<TicketView>) {
    let recorded = OfficeView {
        readings: v.readings.insert((r.plate, r.road, r.timestamp), r.mile),
        ..v
    };
    match spec_assess(v, r) {
        Assessment::Violation { mile1, timestamp1, mile2, timestamp2, speed } => (
            OfficeView {
                ticketed: v.ticketed.union(
                    days_between(r.plate, day_of(timestamp1), day_of(timestamp2)),
                ),
                ..recorded
            },
            Some(
                TicketView {
                    plate: r.plate,
                    road: r.road,
                    mile1,
                    timestamp1,
                    mile2,
                    timestamp2,
                    speed,
                },
            ),
        ),
        Assessment::Clear => (recorded, None),
        _ => (v, None),
    }
}

/// `i` is the position of the first route for `road`.
pub open spec fn is_first_route(routes: Seq<(u16, u64)>, road: u16, i: int) -> bool {
    &&& 0 <= i < routes.len()
    &&& routes[i].0 == road
    &&& forall|j: int| 0 <= j < i ==> #[trigger] routes[j].0 != road
}

/// No route serves `road`.
pub open spec fn no_route(routes: Seq<(u16, u64)>, road: u16) -> bool {
    forall|j: int| 0 <= j < routes.len() ==> #[trigger] routes[j].0 != road
}

/// `i` is the position of the oldest pending ticket for one of `roads`.
pub open spec fn is_first_pending(pending: Seq<TicketView>, roads: Seq<u16>, i: int) -> bool {
    &&& 0 <= i < pending.len()
    &&& roads.contains(pending[i].road)
    &&& forall|j: int| 0 <= j < i ==> !roads.contains(#[trigger] pending[j].road)
}

/// No pending ticket is for one of `roads`.
pub open spec fn none_pending(pending: Seq<TicketView>, roads: Seq<u16>) -> bool {
    forall|j: int| 0 <= j < pending.len() ==> !roads.contains(#[trigger] pending[j].road)
}

/// The routes that a dispatcher for `roads` adds, in the order of `roads`.
pub open spec fn routes_of(id: u64, roads: Seq<u16>) -> Seq<(u16, u64)> {
    roads.map_values(|r: u16| (r, id))
}

/// The position of the first route for `road` at or after `k`.
pub open spec fn first_route_from(routes: Seq<(u16, u64)>, road: u16, k: int) -> Option<int>
    decreases routes.len() - k,
{
    if k < 0 || k >= routes.len() {
        None
    } else if routes[k].0 == road {
        Some(k)
    } else {
        first_route_from(routes, road, k + 1)
    }
}

/// The routes without the first one for `road`, if there is one.
pub open spec fn drop_first_route(routes: Seq<(u16, u64)>, road: u16) -> Seq<(u16, u64)> {
    match first_route_from(routes, road, 0) {
        Some(i) => routes.remove(i),
        None => routes,
    }
}

/// The next step in delivering a ticket.
#[derive(Debug, PartialEq, Eq)]
pub enum Delivery {
    /// Send the ticket to this dispatcher.
    Send { dispatcher: u64, ticket: Ticket },
    /// No dispatcher serves the ticket's road: the ticket waits among the pending ones.
    Queued,
}

pub enum DeliveryView {
    Send { dispatcher: u64, ticket: TicketView },
    Queued,
}

impl View for Delivery {
    type V = DeliveryView;

    open spec fn view(&self) -> DeliveryView {
        match self {
            Delivery::Send { dispatcher, ticket } => DeliveryView::Send {
                dispatcher: *dispatcher,
                ticket: ticket@,
            },
            Delivery::Queued => DeliveryView::Queued,
        }
    }
}

/// The state and the step after a ticket is offered for delivery. When `returned`,
/// the ticket comes back from a failed send to the first dispatcher of its road, who
/// is dropped first. The ticket goes to the first dispatcher left for its road, or,
/// when there is none, to the end of the pending tickets.
pub open spec fn spec_deliver(v: OfficeView, t: TicketView, returned: bool) -> (OfficeView, DeliveryView) {
    let routes = if returned {
        drop_first_route(v.routes, t.road)
    } else {
        v.routes
    };
    match first_route_from(routes, t.road, 0) {
        Some(i) => (
            OfficeView { routes, ..v },
            DeliveryView::Send { dispatcher: routes[i].1, ticket: t },
        ),
        None => (OfficeView { routes, pending: v.pending.push(t), ..v }, DeliveryView::Queued),
    }
}

proof fn lemma_first_route_from(routes: Seq<(u16, u64)>, road: u16, k: int)
    requires
        0 <= k,
        forall|j: int| 0 <= j < k ==> #[trigger] routes[j].0 != road,
    ensures
        match first_route_from(routes, road, k) {
            Some(i) => is_first_route(routes, road, i),
            None => no_route(routes, road),
        },
    decreases routes.len() - k,
{
    if k < routes.len() && routes[k].0 != road {
        lemma_first_route_from(routes, road, k + 1);
    }
}

/// The first route for `road`, if any, is where the search finds it.
proof fn lemma_first_route(routes: Seq<(u16, u64)>, road: u16)
    ensures
        match first_route_from(routes, road, 0) {
            Some(i) => is_first_route(routes, road, i),
            None => no_route(routes, road),
        },
        forall|i: int| is_first_route(routes, road, i) ==> first_route_from(routes, road, 0) == Some(i),
{
    lemma_first_route_from(routes, road, 0);
    assert forall|i: int| is_first_route(routes, road, i) implies first_route_from(routes, road, 0) == Some(i) by {
        if let Some(j) = first_route_from(routes, road, 0) {
            if j < i {
                assert(routes[j].0 != road);
            } else if i < j {
                assert(routes[i].0 != road);
            }
        }
    }
}

/// A stored observation: where `plate` was on `road` at `timestamp`.
struct Observation {
    plate: Vec<u8>,
    road: u16,
    timestamp: u32,
    mile: u16,
}

/// The key under which an observation is stored.
spec fn key_of(o: Observation) -> (Seq<u8>, u16, u32) {
    (o.plate@, o.road, o.timestamp)
}

/// The abstract state of the ticketing bookkeeping.
pub struct OfficeView {
    /// The mile at which each plate was seen on each road at each timestamp.
    pub readings: Map<(Seq<u8>, u16, u32), u16>,
    /// The (plate, day) pairs for which a ticket has been issued.
    pub ticketed: Set<(Seq<u8>, u32)>,
    /// Registered dispatchers: (road, dispatcher) in the order of registration.
    pub routes: Seq<(u16, u64)>,
    /// Tickets waiting for a dispatcher, oldest first.
    pub pending: Seq<TicketView>,
}

/// The bookkeeping of the speed-camera network: observations, ticketed days,
/// dispatchers by road and tickets waiting for a dispatcher.
pub struct TicketOffice {
    observations: Vec<Observation>,
    ticketed: Vec<(Vec<u8>, u32)>,
    routes: Vec<(u16, u64)>,
    pending: Vec<Ticket>,
}

spec fn readings_of(obs: Seq<Observation>) -> Map<(Seq<u8>, u16, u32), u16> {
    Map::new(
        |k: (Seq<u8>, u16, u32)| exists|i: int| 0 <= i < obs.len() && key_of(obs[i]) == k,
        |k: (Seq<u8>, u16, u32)|
            obs[choose|i: int| 0 <= i < obs.len() && key_of(obs[i]) == k].mile,
    )
}

spec fn ticketed_of(t: Seq<(Vec<u8>, u32)>) -> Set<(Seq<u8>, u32)> {
    Set::new(|p: (Seq<u8>, u32)| exists|i: int| 0 <= i < t.len() && (t[i].0@, t[i].1) == p)
}

spec fn keys_unique(obs: Seq<Observation>) -> bool {
    forall|i: int, j: int|
        0 <= i < obs.len() && 0 <= j < obs.len() && i != j ==> key_of(obs[i]) != key_of(
            obs[j],
        )
}

impl View for TicketOffice {
    type V = OfficeView;

    closed spec fn view(&self) -> OfficeView {
        OfficeView {
            readings: readings_of(self.observations@),
            ticketed: ticketed_of(self.ticketed@),
            routes: self.routes@,
            pending: self.pending@.map_values(|t: Ticket| t@),
        }
    }
}

proof fn lemma_reading_at(obs: Seq<Observation>, i: int)
    requires
        keys_unique(obs),
        0 <= i < obs.len(),
    ensures
        readings_of(obs).dom().contains(key_of(obs[i])),
        readings_of(obs)[key_of(obs[i])] == obs[i].mile,
{
    let k = key_of(obs[i]);
    assert(readings_of(obs).dom().contains(k));
    let j = choose|j: int| 0 <= j < obs.len() && key_of(obs[j]) == k;
    assert(j == i);
}

proof fn lemma_ticketed_push(t: Seq<(Vec<u8>, u32)>, x: (Vec<u8>, u32))
    ensures
        ticketed_of(t.push(x)) == ticketed_of(t).insert((x.0@, x.1)),
{
    let a = ticketed_of(t.push(x));
    let b = ticketed_of(t).insert((x.0@, x.1));
    assert forall|p: (Seq<u8>, u32)| a.contains(p) <==> b.contains(p) by {
        if a.contains(p) {
            let i = choose|i: int| 0 <= i < t.push(x).len() && (t.push(x)[i].0@, t.push(x)[i].1) == p;
            if i < t.len() {
                assert(t[i] == t.push(x)[i]);
                assert(ticketed_of(t).contains(p));
            }
        }
        if b.contains(p) {
            if p == (x.0@, x.1) {
                assert(t.push(x)[t.len() as int] == x);
            } else {
                let i = choose|i: int| 0 <= i < t.len() && (t[i].0@, t[i].1) == p;
                assert(t.push(x)[i] == t[i]);
            }
        }
    }
    assert(a =~= b);
}

proof fn lemma_readings_push(obs: Seq<Observation>, o: Observation)
    requires
        keys_unique(obs),
        !readings_of(obs).dom().contains(key_of(o)),
    ensures
        keys_unique(obs.push(o)),
        readings_of(obs.push(o)) == readings_of(obs).insert(key_of(o), o.mile),
{
    let n = obs.push(o);
    assert forall|i: int| 0 <= i < obs.len() implies key_of(obs[i]) != key_of(o) by {
        lemma_reading_at(obs, i);
    }
    assert(keys_unique(n)) by {
        assert forall|i: int, j: int|
            0 <= i < n.len() && 0 <= j < n.len() && i != j implies key_of(n[i]) != key_of(
            n[j],
        ) by {
            if i < obs.len() && j < obs.len() {
                assert(n[i] == obs[i] && n[j] == obs[j]);
            } else if i < obs.len() {
                assert(n[i] == obs[i]);
            } else {
                assert(n[j] == obs[j]);
            }
        }
    }
    let a = readings_of(n);
    let b = readings_of(obs).insert(key_of(o), o.mile);
    assert forall|k: (Seq<u8>, u16, u32)| a.dom().contains(k) <==> b.dom().contains(k) by {
        if a.dom().contains(k) {
            let i = choose|i: int| 0 <= i < n.len() && key_of(n[i]) == k;
            if i < obs.len() {
                assert(n[i] == obs[i]);
                lemma_reading_at(obs, i);
            }
        }
        if b.dom().contains(k) {
            if k == key_of(o) {
                assert(key_of(n[obs.len() as int]) == k);
            } else {
                let i = choose|i: int| 0 <= i < obs.len() && key_of(obs[i]) == k;
                assert(n[i] == obs[i]);
            }
        }
    }
    assert forall|k: (Seq<u8>, u16, u32)| a.dom().contains(k) implies a[k] == b[k] by {
        let i = choose|i: int| 0 <= i < n.len() && key_of(n[i]) == k;
        lemma_reading_at(n, i);
        if i < obs.len() {
            assert(n[i] == obs[i]);
            lemma_reading_at(obs, i);
        }
    }
    assert(a =~= b);
}

proof fn lemma_readings_update(obs: Seq<Observation>, i: int, o: Observation)
    requires
        keys_unique(obs),
        0 <= i < obs.len(),
        key_of(obs[i]) == key_of(o),
    ensures
        keys_unique(obs.update(i, o)),
        readings_of(obs.update(i, o)) == readings_of(obs).insert(key_of(o), o.mile),
{
    let n = obs.update(i, o);
    assert(keys_unique(n)) by {
        assert forall|a: int, b: int|
            0 <= a < n.len() && 0 <= b < n.len() && a != b implies key_of(n[a]) != key_of(
            n[b],
        ) by {
            assert(key_of(n[a]) == key_of(obs[a]));
            assert(key_of(n[b]) == key_of(obs[b]));
        }
    }
    let a = readings_of(n);
    let b = readings_of(obs).insert(key_of(o), o.mile);
    assert forall|k: (Seq<u8>, u16, u32)| a.dom().contains(k) <==> b.dom().contains(k) by {
        if a.dom().contains(k) {
            let j = choose|j: int| 0 <= j < n.len() && key_of(n[j]) == k;
            assert(key_of(obs[j]) == k);
        }
        if b.dom().contains(k) {
            if k == key_of(o) {
                assert(key_of(n[i]) == k);
            } else {
                let j = choose|j: int| 0 <= j < obs.len() && key_of(obs[j]) == k;
                assert(key_of(n[j]) == k);
            }
        }
    }
    assert forall|k: (Seq<u8>, u16, u32)| a.dom().contains(k) implies a[k] == b[k] by {
        let j = choose|j: int| 0 <= j < n.len() && key_of(n[j]) == k;
        lemma_reading_at(n, j);
        if j != i {
            assert(n[j] == obs[j]);
            lemma_reading_at(obs, j);
        }
    }
    assert(a =~= b);
}

impl TicketOffice {
    /// The internal invariant: at most one observation per (plate, road, timestamp).
    pub closed spec fn wf(&self) -> bool {
        keys_unique(self.observations@)
    }

    /// An office with no observations, tickets or dispatchers.
    pub fn new() -> (r: TicketOffice)
        ensures
            r.wf(),
            r@ == empty_office(),
            r@.readings == Map::<(Seq<u8>, u16, u32), u16>::empty(),
            r@.ticketed == Set::<(Seq<u8>, u32)>::empty(),
            r@.routes == Seq::<(u16, u64)>::empty(),
            r@.pending == Seq::<TicketView>::empty(),
    {
        let r = TicketOffice {
            observations: Vec::new(),
            ticketed: Vec::new(),
            routes: Vec::new(),
            pending: Vec::new(),
        };
        assert(r@.readings =~= Map::<(Seq<u8>, u16, u32), u16>::empty());
        assert(r@.ticketed =~= Set::<(Seq<u8>, u32)>::empty());
        assert(r@.pending =~= Seq::<TicketView>::empty());
        r
    }

    /// Whether a ticket was issued to `plate` for `day`.
    fn is_ticketed(&self, plate: &Vec<u8>, day: u32) -> (r: bool)
        ensures
            r == self@.ticketed.contains((plate@, day)),
    {
        let n = self.ticketed.len();
        for i in 0..n
            invariant
                n == self.ticketed@.len(),
                forall|j: int| 0 <= j < i ==> (self.ticketed@[j].0@, self.ticketed@[j].1) != (plate@, day),
        {
            if self.ticketed[i].1 == day && same_bytes(self.ticketed[i].0.as_slice(), plate.as_slice()) {
                assert((self.ticketed@[i as int].0@, self.ticketed@[i as int].1) == (plate@, day));
                return true;
            }
        }
        false
    }

    /// The index of the observation stored under (plate, road, timestamp), if any.
    fn find_reading(&self, plate: &Vec<u8>, road: u16, timestamp: u32) -> (r: Option<usize>)
        requires
            self.wf(),
        ensures
            r matches Some(i) ==> i < self.observations@.len() && key_of(self.observations@[i as int])
                == (plate@, road, timestamp),
            r is None ==> !self@.readings.dom().contains((plate@, road, timestamp)),
    {
        let n = self.observations.len();
        for i in 0..n
            invariant
                n == self.observations@.len(),
                forall|j: int|
                    0 <= j < i ==> key_of(self.observations@[j]) != (plate@, road, timestamp),
        {
            let o = &self.observations[i];
            if o.road == road && o.timestamp == timestamp && same_bytes(o.plate.as_slice(), plate.as_slice()) {
                return Some(i);
            }
        }
        None
    }

    /// The latest observation of `plate` on `road` before `ts`: its timestamp and mile.
    fn find_latest_before(&self, plate: &Vec<u8>, road: u16, ts: u32) -> (r: Option<(u32, u16)>)
        requires
            self.wf(),
        ensures
            match r {
                Some((t, m)) => latest_before(self@.readings, plate@, road, ts) == Some(t)
                    && self@.readings[(plate@, road, t)] == m,
                None => latest_before(self@.readings, plate@, road, ts) is None,
            },
    {
        let ghost obs = self.observations@;
        let n = self.observations.len();
        let mut best: Option<usize> = None;
        for i in 0..n
            invariant
                n == obs.len(),
                obs == self.observations@,
                match best {
                    Some(k) => {
                        &&& k < i
                        &&& obs[k as int].plate@ == plate@
                        &&& obs[k as int].road == road
                        &&& obs[k as int].timestamp < ts
                        &&& forall|j: int|
                            0 <= j < i && obs[j].plate@ == plate@ && obs[j].road == road
                                && obs[j].timestamp < ts ==> obs[j].timestamp
                                <= obs[k as int].timestamp
                    },
                    None => forall|j: int|
                        0 <= j < i ==> !(obs[j].plate@ == plate@ && obs[j].road == road
                            && obs[j].timestamp < ts),
                },
        {
            let o = &self.observations[i];
            if o.road == road && o.timestamp < ts && same_bytes(o.plate.as_slice(), plate.as_slice()) {
                match best {
                    Some(k) => {
                        if self.observations[k].timestamp < o.timestamp {
                            best = Some(i);
                        }
                    },
                    None => {
                        best = Some(i);
                    },
                }
            }
        }
        let ghost readings = self@.readings;
        match best {
            Some(k) => {
                let t = self.observations[k].timestamp;
                let m = self.observations[k].mile;
                proof {
                    lemma_reading_at(obs, k as int);
                    assert(key_of(obs[k as int]) == (plate@, road, t));
                    assert forall|u: u32| #[trigger]
                        seen_at(readings, plate@, road, u) && u < ts implies u <= t by {
                        let j = choose|j: int|
                            0 <= j < obs.len() && key_of(obs[j]) == (plate@, road, u);
                        assert(obs[j].timestamp == u);
                    }
                    assert(is_latest_before(readings, plate@, road, ts, t));
                    let c = choose|c: u32| is_latest_before(readings, plate@, road, ts, c);
                    assert(c <= t && t <= c);
                }
                Some((t, m))
            },
            None => {
                proof {
                    assert forall|t: u32| !is_latest_before(readings, plate@, road, ts, t) by {
                        if seen_at(readings, plate@, road, t) && t < ts {
                            let j = choose|j: int|
                                0 <= j < obs.len() && key_of(obs[j]) == (plate@, road, t);
                            assert(obs[j].timestamp == t);
                        }
                    }
                }
                None
            },
        }
    }

    /// The earliest observation of `plate` on `road` at or after `ts`: its timestamp and mile.
    fn find_earliest_from(&self, plate: &Vec<u8>, road: u16, ts: u32) -> (r: Option<(u32, u16)>)
        requires
            self.wf(),
        ensures
            match r {
                Some((t, m)) => earliest_from(self@.readings, plate@, road, ts) == Some(t)
                    && self@.readings[(plate@, road, t)] == m,
                None => earliest_from(self@.readings, plate@, road, ts) is None,
            },
    {
        let ghost obs = self.observations@;
        let n = self.observations.len();
        let mut best: Option<usize> = None;
        for i in 0..n
            invariant
                n == obs.len(),
                obs == self.observations@,
                match best {
                    Some(k) => {
                        &&& k < i
                        &&& obs[k as int].plate@ == plate@
                        &&& obs[k as int].road == road
                        &&& ts <= obs[k as int].timestamp
                        &&& forall|j: int|
                            0 <= j < i && obs[j].plate@ == plate@ && obs[j].road == road && ts
                                <= obs[j].timestamp ==> obs[k as int].timestamp
                                <= obs[j].timestamp
                    },
                    None => forall|j: int|
                        0 <= j < i ==> !(obs[j].plate@ == plate@ && obs[j].road == road && ts
                            <= obs[j].timestamp),
                },
        {
            let o = &self.observations[i];
            if o.road == road && ts <= o.timestamp && same_bytes(o.plate.as_slice(), plate.as_slice()) {
                match best {
                    Some(k) => {
                        if o.timestamp < self.observations[k].timestamp {
                            best = Some(i);
                        }
                    },
                    None => {
                        best = Some(i);
                    },
                }
            }
        }
        let ghost readings = self@.readings;
        match best {
            Some(k) => {
                let t = self.observations[k].timestamp;
                let m = self.observations[k].mile;
                proof {
                    lemma_reading_at(obs, k as int);
                    assert(key_of(obs[k as int]) == (plate@, road, t));
                    assert forall|u: u32| #[trigger]
                        seen_at(readings, plate@, road, u) && ts <= u implies t <= u by {
                        let j = choose|j: int|
                            0 <= j < obs.len() && key_of(obs[j]) == (plate@, road, u);
                        assert(obs[j].timestamp == u);
                    }
                    assert(is_earliest_from(readings, plate@, road, ts, t));
                    let c = choose|c: u32| is_earliest_from(readings, plate@, road, ts, c);
                    assert(c <= t && t <= c);
                }
                Some((t, m))
            },
            None => {
                proof {
                    assert forall|t: u32| !is_earliest_from(readings, plate@, road, ts, t) by {
                        if seen_at(readings, plate@, road, t) && ts <= t {
                            let j = choose|j: int|
                                0 <= j < obs.len() && key_of(obs[j]) == (plate@, road, t);
                            assert(obs[j].timestamp == t);
                        }
                    }
                }
                None
            },
        }
    }
    /// Records that `plate` was at `mile` on `road` at `timestamp`, replacing an earlier
    /// record under the same plate, road and timestamp.
    fn record(&mut self, plate: &Vec<u8>, road: u16, timestamp: u32, mile: u16)
        requires
            old(self).wf(),
        ensures
            final(self).wf(),
            final(self)@ == (OfficeView {
                readings: old(self)@.readings.insert((plate@, road, timestamp), mile),
                ..old(self)@
            }),
    {
        let o = Observation { plate: copy_bytes(plate.as_slice()), road, timestamp, mile };
        match self.find_reading(plate, road, timestamp) {
            Some(i) => {
                proof {
                    lemma_readings_update(self.observations@, i as int, o);
                }
                self.observations.set(i, o);
            },
            None => {
                proof {
                    lemma_readings_push(self.observations@, o);
                }
                self.observations.push(o);
            },
        }
    }

    /// Marks `plate` as ticketed on every day from `d1` to `d2`.
    fn mark_days(&mut self, plate: &Vec<u8>, d1: u32, d2: u32)
        requires
            old(self).wf(),
            d1 <= d2 < u32::MAX,
        ensures
            final(self).wf(),
            final(self)@ == (OfficeView {
                ticketed: old(self)@.ticketed.union(days_between(plate@, d1, d2)),
                ..old(self)@
            }),
    {
        let ghost start = self@;
        let mut d = d1;
        while d <= d2
            invariant
                self.wf(),
                d1 <= d <= d2 + 1,
                d2 < u32::MAX,
                self@.readings == start.readings,
                self@.routes == start.routes,
                self@.pending == start.pending,
                self@.ticketed == start.ticketed.union(
                    Set::new(|p: (Seq<u8>, u32)| p.0 == plate@ && d1 <= p.1 < d),
                ),
            decreases d2 + 1 - d,
        {
            if !self.is_ticketed(plate, d) {
                let c = copy_bytes(plate.as_slice());
                proof {
                    lemma_ticketed_push(self.ticketed@, (c, d));
                }
                self.ticketed.push((c, d));
            }
            assert(self@.ticketed =~= start.ticketed.union(
                Set::new(|p: (Seq<u8>, u32)| p.0 == plate@ && d1 <= p.1 < d + 1),
            ));
            d = d + 1;
        }
        assert(self@.ticketed =~= start.ticketed.union(days_between(plate@, d1, d2)));
    }

    /// Takes in an observation: ignores it when the plate is ticketed for its day;
    /// otherwise records it and returns the ticket that it leads to, if any, after
    /// marking the plate as ticketed on every day that the ticket spans.
    pub fn observe(&mut self, r: PlateReading) -> (t: Option<Ticket>)
        requires
            old(self).wf(),
            spec_assess(old(self)@, r@) != Assessment::Fault,
        ensures
            final(self).wf(),
            (final(self)@, ticket_option_view(t)) == spec_observe(old(self)@, r@),
    {
        match self.assess(&r) {
            Assessment::Violation { mile1, timestamp1, mile2, timestamp2, speed } => {
                self.record(&r.plate, r.road, r.timestamp, r.mile);
                self.mark_days(&r.plate, timestamp1 / SECONDS_PER_DAY, timestamp2 / SECONDS_PER_DAY);
                Some(
                    Ticket {
                        plate: r.plate,
                        road: r.road,
                        mile1,
                        timestamp1,
                        mile2,
                        timestamp2,
                        speed,
                    },
                )
            },
            Assessment::Clear => {
                self.record(&r.plate, r.road, r.timestamp, r.mile);
                None
            },
            _ => None,
        }
    }

    /// The dispatcher registered first, among those still registered, for `road`.
    pub fn first_dispatcher(&self, road: u16) -> (r: Option<u64>)
        ensures
            match r {
                Some(id) => exists|i: int| is_first_route(self@.routes, road, i) && #[trigger] self@.routes[i].1 == id,
                None => no_route(self@.routes, road),
            },
    {
        let n = self.routes.len();
        for i in 0..n
            invariant
                n == self.routes@.len(),
                forall|j: int| 0 <= j < i ==> #[trigger] self.routes@[j].0 != road,
        {
            if self.routes[i].0 == road {
                assert(is_first_route(self@.routes, road, i as int));
                return Some(self.routes[i].1);
            }
        }
        None
    }

    /// Removes the first route for `road`, as when its dispatcher has gone away.
    pub fn drop_first_dispatcher(&mut self, road: u16)
        requires
            old(self).wf(),
        ensures
            final(self).wf(),
            no_route(old(self)@.routes, road) ==> final(self)@ == old(self)@,
            forall|i: int| is_first_route(old(self)@.routes, road, i) ==> final(self)@ == (OfficeView {
                routes: old(self)@.routes.remove(i),
                ..old(self)@
            }),
    {
        let n = self.routes.len();
        for i in 0..n
            invariant
                n == self.routes@.len(),
                self.routes@ == old(self).routes@,
                self.wf(),
                *self == *old(self),
                forall|j: int| 0 <= j < i ==> #[trigger] self.routes@[j].0 != road,
        {
            if self.routes[i].0 == road {
                let ghost before = self@;
                assert(is_first_route(before.routes, road, i as int));
                self.routes.remove(i);
                assert forall|k: int| is_first_route(before.routes, road, k) implies k == i by {
                    if k < i {
                        assert(before.routes[k].0 != road);
                    } else if k > i {
                        assert(before.routes[i as int].0 != road);
                    }
                }
                return;
            }
        }
    }

    /// Registers a dispatcher for each of `roads`, after those registered before.
    pub fn register_dispatcher(&mut self, id: u64, roads: &[u16])
        requires
            old(self).wf(),
        ensures
            final(self).wf(),
            final(self)@ == (OfficeView {
                routes: old(self)@.routes + routes_of(id, roads@),
                ..old(self)@
            }),
    {
        let ghost start = self@;
        let n = roads.len();
        for i in 0..n
            invariant
                n == roads@.len(),
                self.wf(),
                self@ == (OfficeView {
                    routes: start.routes + routes_of(id, roads@.take(i as int)),
                    ..start
                }),
        {
            self.routes.push((roads[i], id));
            assert(routes_of(id, roads@.take(i + 1)) =~= routes_of(id, roads@.take(i as int)).push(
                (roads@[i as int], id),
            ));
            assert(self@.routes =~= start.routes + routes_of(id, roads@.take(i + 1)));
        }
        assert(roads@.take(n as int) =~= roads@);
    }

    /// Queues a ticket that no dispatcher took.
    pub fn enqueue(&mut self, t: Ticket)
        requires
            old(self).wf(),
        ensures
            final(self).wf(),
            final(self)@ == (OfficeView { pending: old(self)@.pending.push(t@), ..old(self)@ }),
    {
        self.pending.push(t);
        assert(self@.pending =~= old(self)@.pending.push(t@));
    }

    /// Takes out the oldest pending ticket for one of `roads`, if there is one.
    pub fn claim_pending(&mut self, roads: &[u16]) -> (r: Option<Ticket>)
        requires
            old(self).wf(),
        ensures
            final(self).wf(),
            match r {
                Some(t) => exists|i: int| #[trigger] is_first_pending(old(self)@.pending, roads@, i)
                    && old(self)@.pending[i] == t@ && final(self)@ == (OfficeView {
                    pending: old(self)@.pending.remove(i),
                    ..old(self)@
                }),
                None => none_pending(old(self)@.pending, roads@) && final(self)@ == old(self)@,
            },
    {
        let ghost start = self@;
        let n = self.pending.len();
        for i in 0..n
            invariant
                n == self.pending@.len(),
                *self == *old(self),
                start == old(self)@,
                self.wf(),
                forall|j: int| 0 <= j < i ==> !roads@.contains(#[trigger] start.pending[j].road),
        {
            if slice_contains(roads, self.pending[i].road) {
                assert(is_first_pending(start.pending, roads@, i as int));
                let t = self.pending.remove(i);
                assert(self@.pending =~= start.pending.remove(i as int));
                return Some(t);
            }
        }
        None
    }

    /// Offers a ticket for delivery: when `returned`, the ticket comes back from a failed
    /// send to the first dispatcher of its road, and that dispatcher's route is dropped.
    /// Returns the dispatcher to send the ticket to, or queues the ticket when no
    /// dispatcher serves its road.
    pub fn deliver(&mut self, ticket: Ticket, returned: bool) -> (d: Delivery)
        requires
            old(self).wf(),
        ensures
            final(self).wf(),
            (final(self)@, d@) == spec_deliver(old(self)@, ticket@, returned),
    {
        let road = ticket.road;
        let ghost start = self@;
        if returned {
            self.drop_first_dispatcher(road);
            proof {
                lemma_first_route(start.routes, road);
            }
        }
        let ghost mid = self@;
        proof {
            lemma_first_route(mid.routes, road);
        }
        match self.first_dispatcher(road) {
            Some(id) => Delivery::Send { dispatcher: id, ticket },
            None => {
                self.enqueue(ticket);
                Delivery::Queued
            },
        }
    }

    /// The next pending ticket for a dispatcher that has just identified itself with
    /// `roads`. `returned` is the ticket of the last step if sending it failed: it goes
    /// back to the end of the pending tickets, and the hand-over ends. Otherwise the
    /// oldest pending ticket for one of `roads` is taken out, or there is none left.
    pub fn next_for_dispatcher(&mut self, roads: &[u16], returned: Option<Ticket>) -> (r: Option<Ticket>)
        requires
            old(self).wf(),
        ensures
            final(self).wf(),
            match returned {
                Some(t) => r is None && final(self)@ == (OfficeView {
                    pending: old(self)@.pending.push(t@),
                    ..old(self)@
                }),
                None => match r {
                    Some(t) => exists|i: int| #[trigger] is_first_pending(old(self)@.pending, roads@, i)
                        && old(self)@.pending[i] == t@ && final(self)@ == (OfficeView {
                        pending: old(self)@.pending.remove(i),
                        ..old(self)@
                    }),
                    None => none_pending(old(self)@.pending, roads@) && final(self)@ == old(self)@,
                },
            },
    {
        match returned {
            Some(t) => {
                self.enqueue(t);
                None
            },
            None => self.claim_pending(roads),
        }
    }


    /// What `r` would lead to, before anything is recorded.
    pub fn assess(&self, r: &PlateReading) -> (a: Assessment)
        requires
            self.wf(),
        ensures
            a == spec_assess(self@, r@),
    {
        if self.is_ticketed(&r.plate, r.timestamp / SECONDS_PER_DAY) {
            return Assessment::Skip;
        }
        let before = match self.find_latest_before(&r.plate, r.road, r.timestamp) {
            Some((t, m)) => {
                if self.is_ticketed(&r.plate, t / SECONDS_PER_DAY) {
                    Assessment::Clear
                } else {
                    check_speed(m, t, r.mile, r.timestamp, r.limit)
                }
            },
            None => Assessment::Clear,
        };
        match before {
            Assessment::Clear => {
                match self.find_earliest_from(&r.plate, r.road, r.timestamp) {
                    Some((t, m)) => {
                        if self.is_ticketed(&r.plate, t / SECONDS_PER_DAY) {
                            Assessment::Clear
                        } else {
                            check_speed(r.mile, r.timestamp, m, t, r.limit)
                        }
                    },
                    None => Assessment::Clear,
                }
            },
            other => other,
        }
    }
}

/// Whether `road` is one of `roads`.
fn slice_contains(roads: &[u16], road: u16) -> (r: bool)
    ensures
        r == roads@.contains(road),
{
    let n = roads.len();
    for i in 0..n
        invariant
            n == roads@.len(),
            forall|j: int| 0 <= j < i ==> roads@[j] != road,
    {
        if roads[i] == road {
            assert(roads@[i as int] == road);
            return true;
        }
    }
    false
}

/// Checks the average speed between an earlier and a later observation against a limit.
fn check_speed(m1: u16, t1: u32, m2: u16, t2: u32, limit: u16) -> (a: Assessment)
    requires
        t1 <= t2,
    ensures
        a == check_pair(m1, t1, m2, t2, limit),
{
    let gap: u64 = if m1 >= m2 {
        (m1 - m2) as u64
    } else {
        (m2 - m1) as u64
    };
    let elapsed: u32 = t2 - t1;
    let scaled: u64 = gap * 360000;
    let scaled_limit: u32 = (limit as u32) * 100;
    if scaled > 4294967295 || elapsed == 0 || scaled_limit > 65535 {
        return Assessment::Fault;
    }
    let speed: u16 = ((scaled / (elapsed as u64)) % 65536) as u16;
    if (speed as u32) > scaled_limit {
        Assessment::Violation { mile1: m1, timestamp1: t1, mile2: m2, timestamp2: t2, speed }
    } else {
        Assessment::Clear
    }
}


/// Law: the set of ticketed (plate, day) pairs never shrinks when an observation
/// comes in.
pub proof fn lemma_observe_keeps_ticketed(v: OfficeView, r: PlateReadingView)
    ensures
        v.ticketed.subset_of(spec_observe(v, r).0.ticketed),
{
}

/// Law: an observation on a day for which its plate is already ticketed changes
/// nothing and yields no ticket.
pub proof fn lemma_ticketed_day_ignored(v: OfficeView, r: PlateReadingView)
    requires
        v.ticketed.contains((r.plate, day_of(r.timestamp))),
    ensures
        spec_observe(v, r) == (v, Option::<TicketView>::None),
{
}

/// Law: a ticket issued for an observation rests on two recorded observations of the
/// same plate on the same road, the earlier first, whose average speed (in hundredths
/// of a mile per hour, truncated to 16 bits) exceeds the limit; neither of its two days
/// was ticketed before, and afterwards every day from the first to the second is.
pub proof fn lemma_ticket_is_justified(v: OfficeView, r: PlateReadingView)
    requires
        spec_assess(v, r) != Assessment::Fault,
        spec_observe(v, r).1 is Some,
    ensures
        ({
            let (w, t) = spec_observe(v, r);
            let t = t.unwrap();
            &&& t.plate == r.plate
            &&& t.road == r.road
            &&& t.timestamp1 < t.timestamp2
            &&& t.timestamp1 == r.timestamp || t.timestamp2 == r.timestamp
            &&& w.readings.dom().contains((t.plate, t.road, t.timestamp1))
            &&& w.readings[(t.plate, t.road, t.timestamp1)] == t.mile1
            &&& w.readings.dom().contains((t.plate, t.road, t.timestamp2))
            &&& w.readings[(t.plate, t.road, t.timestamp2)] == t.mile2
            &&& t.speed == speed_of(mile_gap(t.mile1, t.mile2), t.timestamp2 - t.timestamp1)
            &&& t.speed > r.limit * 100
            &&& !v.ticketed.contains((t.plate, day_of(t.timestamp1)))
            &&& !v.ticketed.contains((t.plate, day_of(t.timestamp2)))
            &&& forall|d: u32|
                day_of(t.timestamp1) <= d <= day_of(t.timestamp2) ==> w.ticketed.contains(
                    (t.plate, d),
                )
        }),
{
    let (w, t) = spec_observe(v, r);
    let t = t.unwrap();
    let key = (r.plate, r.road, r.timestamp);
    match assess_before(v, r) {
        Assessment::Clear => {
            let n = earliest_from(v.readings, r.plate, r.road, r.timestamp);
            let tn = n.unwrap();
            assert(is_earliest_from(v.readings, r.plate, r.road, r.timestamp, tn));
            assert(tn != r.timestamp);
            assert((r.plate, r.road, tn) != key);
        },
        _ => {
            let p = latest_before(v.readings, r.plate, r.road, r.timestamp);
            let tp = p.unwrap();
            assert(is_latest_before(v.readings, r.plate, r.road, r.timestamp, tp));
            assert((r.plate, r.road, tp) != key);
        },
    }
    assert forall|d: u32| day_of(t.timestamp1) <= d <= day_of(t.timestamp2) implies w.ticketed.contains(
        (t.plate, d),
    ) by {
        assert(days_between(r.plate, day_of(t.timestamp1), day_of(t.timestamp2)).contains(
            (t.plate, d),
        ));
    }
}

/// Law: of two tickets for the same plate from two successive observations, the
/// second starts and ends on days outside the span of the first.
pub proof fn lemma_no_second_ticket_on_ticketed_days(
    v: OfficeView,
    r1: PlateReadingView,
    r2: PlateReadingView,
)
    requires
        spec_assess(v, r1) != Assessment::Fault,
        spec_assess(spec_observe(v, r1).0, r2) != Assessment::Fault,
        spec_observe(v, r1).1 is Some,
        spec_observe(spec_observe(v, r1).0, r2).1 is Some,
        r1.plate == r2.plate,
    ensures
        ({
            let t1 = spec_observe(v, r1).1.unwrap();
            let t2 = spec_observe(spec_observe(v, r1).0, r2).1.unwrap();
            &&& !(day_of(t1.timestamp1) <= day_of(t2.timestamp1) <= day_of(t1.timestamp2))
            &&& !(day_of(t1.timestamp1) <= day_of(t2.timestamp2) <= day_of(t1.timestamp2))
        }),
{
    let w = spec_observe(v, r1).0;
    lemma_ticket_is_justified(v, r1);
    lemma_ticket_is_justified(w, r2);
}


/// Law: a ticket handed out for sending goes to a dispatcher registered for the
/// ticket's road, and it is the ticket that was offered.
pub proof fn lemma_delivery_goes_to_road(v: OfficeView, t: TicketView, returned: bool)
    ensures
        spec_deliver(v, t, returned).1 matches DeliveryView::Send { dispatcher, ticket } ==> {
            &&& ticket == t
            &&& exists|i: int|
                0 <= i < spec_deliver(v, t, returned).0.routes.len() && #[trigger] spec_deliver(
                    v,
                    t,
                    returned,
                ).0.routes[i] == (t.road, dispatcher)
        },
{
    let w = spec_deliver(v, t, returned).0;
    lemma_first_route(w.routes, t.road);
}

/// Law: an offered ticket is never lost nor doubled: either it is handed out for
/// sending and the pending tickets stay as they were, or no dispatcher serves its
/// road and it is appended to the pending tickets. Observations and ticketed days do
/// not change.
pub proof fn lemma_delivery_keeps_ticket(v: OfficeView, t: TicketView, returned: bool)
    ensures
        ({
            let (w, d) = spec_deliver(v, t, returned);
            &&& w.readings == v.readings
            &&& w.ticketed == v.ticketed
            &&& d is Send ==> w.pending == v.pending
            &&& d is Queued ==> w.pending == v.pending.push(t) && no_route(w.routes, t.road)
        }),
{
    let w = spec_deliver(v, t, returned).0;
    lemma_first_route(w.routes, t.road);
}

/// Law: each failed send drops one route of the ticket's road, and a first offer drops
/// none; so delivering a ticket takes at most one more step than there are routes,
/// and ends with a send that succeeds or with the ticket queued.
pub proof fn lemma_failed_send_drops_a_route(v: OfficeView, t: TicketView)
    ensures
        spec_deliver(v, t, false).0.routes == v.routes,
        !no_route(v.routes, t.road) ==> spec_deliver(v, t, true).0.routes.len() == v.routes.len()
            - 1,
        no_route(v.routes, t.road) ==> spec_deliver(v, t, true).0.routes == v.routes,
{
    lemma_first_route(v.routes, t.road);
}

proof fn lemma_first_pending_from(pending: Seq<TicketView>, roads: Seq<u16>, k: int, j: int)
    requires
        0 <= k <= j < pending.len(),
        roads.contains(pending[j].road),
        forall|m: int| 0 <= m < k ==> !roads.contains(#[trigger] pending[m].road),
    ensures
        exists|i: int| #[trigger] is_first_pending(pending, roads, i),
    decreases j - k,
{
    if roads.contains(pending[k].road) {
        assert(is_first_pending(pending, roads, k));
    } else {
        lemma_first_pending_from(pending, roads, k + 1, j);
    }
}

/// Law: while a ticket for one of a new dispatcher's roads is pending, the hand-over
/// to that dispatcher goes on: there is an oldest such ticket for it to take.
pub proof fn lemma_pending_ticket_found(pending: Seq<TicketView>, roads: Seq<u16>, j: int)
    requires
        0 <= j < pending.len(),
        roads.contains(pending[j].road),
    ensures
        !none_pending(pending, roads),
        exists|i: int| #[trigger] is_first_pending(pending, roads, i),
{
    lemma_first_pending_from(pending, roads, 0, j);
}

/// The bookkeeping before any observation, ticket or dispatcher.
pub open spec fn empty_office() -> OfficeView {
    OfficeView {
        readings: Map::empty(),
        ticketed: Set::empty(),
        routes: Seq::empty(),
        pending: Seq::empty(),
    }
}

/// The bookkeeping after the observations `rs`, in order, starting from nothing.
pub open spec fn office_after(rs: Seq<PlateReadingView>) -> OfficeView
    decreases rs.len(),
{
    if rs.len() == 0 {
        empty_office()
    } else {
        spec_observe(office_after(rs.drop_last()), rs.last()).0
    }
}

/// Law: every recorded observation was received: its plate, road, timestamp and mile
/// are those of one of the observations taken in.
pub proof fn lemma_recorded_readings_were_received(rs: Seq<PlateReadingView>)
    ensures
        forall|k: (Seq<u8>, u16, u32)| #[trigger]
            office_after(rs).readings.dom().contains(k) ==> exists|i: int|
                0 <= i < rs.len() && (rs[i].plate, rs[i].road, rs[i].timestamp) == k && rs[i].mile
                    == office_after(rs).readings[k],
    decreases rs.len(),
{
    if rs.len() > 0 {
        let prev = rs.drop_last();
        lemma_recorded_readings_were_received(prev);
        let v = office_after(prev);
        let w = office_after(rs);
        let r = rs.last();
        assert forall|k: (Seq<u8>, u16, u32)| #[trigger] w.readings.dom().contains(k) implies exists|i: int|
            0 <= i < rs.len() && (rs[i].plate, rs[i].road, rs[i].timestamp) == k && rs[i].mile
                == w.readings[k] by {
            if w.readings == v.readings.insert((r.plate, r.road, r.timestamp), r.mile) && k == (
                r.plate,
                r.road,
                r.timestamp,
            ) {
                assert(rs[rs.len() - 1] == r);
            } else {
                assert(v.readings.dom().contains(k) && w.readings[k] == v.readings[k]);
                let i = choose|i: int|
                    0 <= i < prev.len() && (prev[i].plate, prev[i].road, prev[i].timestamp) == k
                        && prev[i].mile == v.readings[k];
                assert(rs[i] == prev[i]);
            }
        }
    }
}

/// Law: a ticket issued for the observation `rs[n]`, after the observations before it,
/// rests on two received observations of its plate on its road, at its two timestamps
/// (the earlier first) and at its two miles; its speed is the average speed between
/// them, in hundredths of a mile per hour truncated to 16 bits, and exceeds the limit
/// of the observation that led to it.
pub proof fn lemma_tickets_rest_on_received_readings(rs: Seq<PlateReadingView>, n: int)
    requires
        0 <= n < rs.len(),
        spec_assess(office_after(rs.take(n)), rs[n]) != Assessment::Fault,
        spec_observe(office_after(rs.take(n)), rs[n]).1 is Some,
    ensures
        ({
            let t = spec_observe(office_after(rs.take(n)), rs[n]).1.unwrap();
            &&& t.plate == rs[n].plate
            &&& t.road == rs[n].road
            &&& t.timestamp1 < t.timestamp2
            &&& exists|i: int|
                0 <= i <= n && rs[i].plate == t.plate && rs[i].road == t.road && #[trigger] rs[i].timestamp
                    == t.timestamp1 && rs[i].mile == t.mile1
            &&& exists|j: int|
                0 <= j <= n && rs[j].plate == t.plate && rs[j].road == t.road && #[trigger] rs[j].timestamp
                    == t.timestamp2 && rs[j].mile == t.mile2
            &&& t.speed == speed_of(mile_gap(t.mile1, t.mile2), t.timestamp2 - t.timestamp1)
            &&& t.speed > rs[n].limit * 100
        }),
{
    let before = rs.take(n);
    let upto = rs.take(n + 1);
    assert(upto.drop_last() =~= before);
    assert(upto.last() == rs[n]);
    lemma_ticket_is_justified(office_after(before), rs[n]);
    lemma_recorded_readings_were_received(upto);
    let w = office_after(upto);
    let t = spec_observe(office_after(before), rs[n]).1.unwrap();
    let k1 = (t.plate, t.road, t.timestamp1);
    let k2 = (t.plate, t.road, t.timestamp2);
    assert(w.readings.dom().contains(k1));
    assert(w.readings.dom().contains(k2));
    let i = choose|i: int|
        0 <= i < upto.len() && (upto[i].plate, upto[i].road, upto[i].timestamp) == k1 && upto[i].mile
            == w.readings[k1];
    let j = choose|j: int|
        0 <= j < upto.len() && (upto[j].plate, upto[j].road, upto[j].timestamp) == k2 && upto[j].mile
            == w.readings[k2];
    assert(upto[i] == rs[i]);
    assert(upto[j] == rs[j]);
}

} // verus!
