//! Speed daemon: cameras report plate observations, dispatchers take
//! speeding tickets, and each plate is ticketed at most once per day.

use vstd::prelude::*;

use crate::util::be32_at;
use crate::util::enc_u32;
use crate::util::lemma_be32_of_enc;
use crate::util::lemma_parse_u32_at_enc;
use crate::util::parse_u32_at;
use crate::util::parse_u8_at;

verus! {

/// A camera: fixed to a road at a mile marker, knowing the limit.
#[derive(Clone, Copy, PartialEq, Eq, Structural, Debug)]
pub struct Camera {
    pub id: u16,
    pub road: u16,
    pub mile: u16,
    pub limit: u16,
}

/// A dispatcher: responsible for a set of roads.
pub struct Dispatcher {
    pub id: u16,
    pub roads: Vec<u16>,
}

#[verifier::ext_equal]
pub struct DispatcherView {
    pub id: u16,
    pub roads: Seq<u16>,
}

impl View for Dispatcher {
    type V = DispatcherView;

    open spec fn view(&self) -> DispatcherView {
        DispatcherView { id: self.id, roads: self.roads@ }
    }
}

/// One plate sighting.
pub struct Observation {
    pub plate: Vec<u8>,
    pub timestamp: u32,
    pub road: u16,
    pub mile: u16,
}

#[verifier::ext_equal]
pub struct ObservationView {
    pub plate: Seq<u8>,
    pub timestamp: u32,
    pub road: u16,
    pub mile: u16,
}

impl View for Observation {
    type V = ObservationView;

    open spec fn view(&self) -> ObservationView {
        ObservationView {
            plate: self.plate@,
            timestamp: self.timestamp,
            road: self.road,
            mile: self.mile,
        }
    }
}

/// A speeding ticket.  The speed field carries hundredths of a mile
/// per hour; the recipient is the dispatcher it was assigned to, or
/// nothing while it waits in the queue.
pub struct Ticket {
    pub recipient: Option<u16>,
    pub plate: Vec<u8>,
    pub road: u16,
    pub mile1: u16,
    pub timestamp1: u32,
    pub mile2: u16,
    pub timestamp2: u32,
    pub speed: u32,
}

#[verifier::ext_equal]
pub struct TicketView {
    pub recipient: Option<u16>,
    pub plate: Seq<u8>,
    pub road: u16,
    pub mile1: u16,
    pub timestamp1: u32,
    pub mile2: u16,
    pub timestamp2: u32,
    pub speed: u32,
}

impl View for Ticket {
    type V = TicketView;

    open spec fn view(&self) -> TicketView {
        TicketView {
            recipient: self.recipient,
            plate: self.plate@,
            road: self.road,
            mile1: self.mile1,
            timestamp1: self.timestamp1,
            mile2: self.mile2,
            timestamp2: self.timestamp2,
            speed: self.speed,
        }
    }
}

pub open spec fn dviews(ds: Seq<Dispatcher>) -> Seq<DispatcherView> {
    ds.map_values(|d: Dispatcher| d@)
}

pub open spec fn obviews(os: Seq<Observation>) -> Seq<ObservationView> {
    os.map_values(|o: Observation| o@)
}

pub open spec fn tkviews(ts: Seq<Ticket>) -> Seq<TicketView> {
    ts.map_values(|t: Ticket| t@)
}

pub open spec fn sentviews(ss: Seq<(Vec<u8>, Vec<u32>)>) -> Seq<(Seq<u8>, Seq<u32>)> {
    ss.map_values(|s: (Vec<u8>, Vec<u32>)| (s.0@, s.1@))
}

/// The average speed between two sightings, in miles per hour,
/// rounded to the nearest integer (half rounds up) and saturated at
/// the largest `u16`; two sightings at one instant saturate too.
pub open spec fn speed_of(m1: u16, t1: u32, m2: u16, t2: u32) -> u16 {
    let d = if m1 >= m2 {
        m1 - m2
    } else {
        m2 - m1
    };
    let t = if t1 >= t2 {
        t1 - t2
    } else {
        t2 - t1
    };
    if t == 0 {
        65535
    } else {
        let v = (7200 * d + t) / (2 * t);
        if v > 65535 {
            65535
        } else {
            v as u16
        }
    }
}

/// Some consumed day of `days` falls inside `[d1, d2]`.
pub open spec fn day_hit(days: Seq<u32>, d1: u32, d2: u32) -> bool {
    exists|k: int| 0 <= k < days.len() && d1 <= #[trigger] days[k] <= d2
}

/// Every day of `[d1, d2]` stands in `days`.
pub open spec fn days_covered(days: Seq<u32>, d1: u32, d2: u32) -> bool {
    forall|d: u32| d1 <= d <= d2 ==> days.contains(d)
}

/// The index of `plate` in the consumed-days table, or -1.
pub open spec fn plate_idx(ss: Seq<(Seq<u8>, Seq<u32>)>, plate: Seq<u8>) -> int
    decreases ss.len(),
{
    if ss.len() == 0 {
        -1
    } else if ss[0].0 == plate {
        0
    } else {
        let r = plate_idx(ss.drop_first(), plate);
        if r < 0 {
            -1
        } else {
            r + 1
        }
    }
}

/// The days already consumed for `plate`.
pub open spec fn days_of(ss: Seq<(Seq<u8>, Seq<u32>)>, plate: Seq<u8>) -> Seq<u32> {
    let i = plate_idx(ss, plate);
    if i < 0 {
        Seq::empty()
    } else {
        ss[i].1
    }
}

/// At most one ticket per plate and day: a ticket emitted against
/// consumed days `days1`, covering `[a1, b1]`, and a later ticket
/// emitted against consumed days `days2` that include everything the
/// first consumed, cover disjoint day ranges.
pub proof fn lemma_ticket_days_disjoint(
    days1: Seq<u32>,
    days2: Seq<u32>,
    a1: u32,
    b1: u32,
    a2: u32,
    b2: u32,
)
    requires
        !day_hit(days1, a1, b1),
        days_covered(days2, a1, b1),
        !day_hit(days2, a2, b2),
        a1 <= b1,
        a2 <= b2,
    ensures
        b1 < a2 || b2 < a1,
{
    if !(b1 < a2 || b2 < a1) {
        let d: u32 = if a1 <= a2 {
            a2
        } else {
            a1
        };
        assert(a1 <= d <= b1 && a2 <= d <= b2);
        assert(days2.contains(d));
        let k = choose|k: int| 0 <= k < days2.len() && days2[k] == d;
        assert(day_hit(days2, a2, b2));
    }
}

pub proof fn lemma_plate_idx_from(ss: Seq<(Seq<u8>, Seq<u32>)>, plate: Seq<u8>, i: int)
    requires
        0 <= i <= ss.len(),
        forall|k: int| 0 <= k < i ==> (#[trigger] ss[k]).0 != plate,
        i == ss.len() || ss[i].0 == plate,
    ensures
        plate_idx(ss, plate) == if i == ss.len() {
            -1int
        } else {
            i
        },
    decreases ss.len(),
{
    if ss.len() > 0 && i > 0 {
        assert(ss[0].0 != plate);
        assert forall|k: int| 0 <= k < i - 1 implies (#[trigger] ss.drop_first()[k]).0 != plate by {
            assert(ss.drop_first()[k] == ss[k + 1]);
        }
        if i < ss.len() {
            assert(ss.drop_first()[i - 1] == ss[i]);
        }
        lemma_plate_idx_from(ss.drop_first(), plate, i - 1);
    }
}

pub proof fn lemma_plate_idx_is_match(ss: Seq<(Seq<u8>, Seq<u32>)>, plate: Seq<u8>)
    ensures
        plate_idx(ss, plate) >= 0 ==> plate_idx(ss, plate) < ss.len() && ss[plate_idx(
            ss,
            plate,
        )].0 == plate,
    decreases ss.len(),
{
    if ss.len() > 0 && ss[0].0 != plate {
        lemma_plate_idx_is_match(ss.drop_first(), plate);
        if plate_idx(ss, plate) >= 0 {
            assert(ss.drop_first()[plate_idx(ss.drop_first(), plate)] == ss[plate_idx(ss, plate)]);
        }
    }
}


/// The index of the camera registered by `client`, or -1.
pub open spec fn cam_idx(cams: Seq<Camera>, client: u16) -> int
    decreases cams.len(),
{
    if cams.len() == 0 {
        -1
    } else if cams[0].id == client {
        0
    } else {
        let r = cam_idx(cams.drop_first(), client);
        if r < 0 {
            -1
        } else {
            r + 1
        }
    }
}

pub proof fn lemma_cam_idx_from(cams: Seq<Camera>, client: u16, i: int)
    requires
        0 <= i <= cams.len(),
        forall|k: int| 0 <= k < i ==> (#[trigger] cams[k]).id != client,
        i == cams.len() || cams[i].id == client,
    ensures
        cam_idx(cams, client) == if i == cams.len() {
            -1int
        } else {
            i
        },
    decreases cams.len(),
{
    if cams.len() > 0 && i > 0 {
        assert(cams[0].id != client);
        assert forall|k: int| 0 <= k < i - 1 implies (#[trigger] cams.drop_first()[k]).id
            != client by {
            assert(cams.drop_first()[k] == cams[k + 1]);
        }
        if i < cams.len() {
            assert(cams.drop_first()[i - 1] == cams[i]);
        }
        lemma_cam_idx_from(cams.drop_first(), client, i - 1);
    }
}

/// The first dispatcher serving `road`, or -1.
pub open spec fn first_dispatcher_for(dv: Seq<DispatcherView>, road: u16) -> int
    decreases dv.len(),
{
    if dv.len() == 0 {
        -1
    } else if dv[0].roads.contains(road) {
        0
    } else {
        let r = first_dispatcher_for(dv.drop_first(), road);
        if r < 0 {
            -1
        } else {
            r + 1
        }
    }
}

pub proof fn lemma_first_dispatcher_from(dv: Seq<DispatcherView>, road: u16, i: int)
    requires
        0 <= i <= dv.len(),
        forall|k: int| 0 <= k < i ==> !(#[trigger] dv[k]).roads.contains(road),
        i == dv.len() || dv[i].roads.contains(road),
    ensures
        first_dispatcher_for(dv, road) == if i == dv.len() {
            -1int
        } else {
            i
        },
    decreases dv.len(),
{
    if dv.len() > 0 && i > 0 {
        assert(!dv[0].roads.contains(road));
        assert forall|k: int| 0 <= k < i - 1 implies !(#[trigger] dv.drop_first()[k]).roads.contains(
            road,
        ) by {
            assert(dv.drop_first()[k] == dv[k + 1]);
        }
        if i < dv.len() {
            assert(dv.drop_first()[i - 1] == dv[i]);
        }
        lemma_first_dispatcher_from(dv.drop_first(), road, i - 1);
    }
}

/// A client is known as a camera or a dispatcher.
pub open spec fn has_client_spec(cams: Seq<Camera>, dv: Seq<DispatcherView>, id: u16) -> bool {
    (exists|k: int| 0 <= k < cams.len() && (#[trigger] cams[k]).id == id) || (exists|k: int|
        0 <= k < dv.len() && (#[trigger] dv[k]).id == id)
}

/// The ticket for a pair of sightings: the earlier sighting comes
/// first, the speed field carries hundredths.
pub open spec fn ticket_of(
    o1: ObservationView,
    o2: ObservationView,
    speed: u16,
    recipient: Option<u16>,
) -> TicketView {
    let start_ts = if o1.timestamp <= o2.timestamp {
        o1.timestamp
    } else {
        o2.timestamp
    };
    let end_ts = if o1.timestamp <= o2.timestamp {
        o2.timestamp
    } else {
        o1.timestamp
    };
    let m1 = if o1.timestamp < o2.timestamp {
        o1.mile
    } else {
        o2.mile
    };
    let m2 = if o1.timestamp < o2.timestamp {
        o2.mile
    } else {
        o1.mile
    };
    TicketView {
        recipient,
        plate: o1.plate,
        road: o1.road,
        mile1: m1,
        timestamp1: start_ts,
        mile2: m2,
        timestamp2: end_ts,
        speed: (100 * speed as u32) as u32,
    }
}

/// The queued tickets a new dispatcher takes over, assigned to it.
pub open spec fn flushed(qv: Seq<TicketView>, roads: Seq<u16>, id: u16) -> Seq<TicketView>
    decreases qv.len(),
{
    if qv.len() == 0 {
        Seq::empty()
    } else {
        let r = flushed(qv.drop_last(), roads, id);
        if roads.contains(qv.last().road) {
            r.push(
                TicketView {
                    recipient: Some(id),
                    plate: qv.last().plate,
                    road: qv.last().road,
                    mile1: qv.last().mile1,
                    timestamp1: qv.last().timestamp1,
                    mile2: qv.last().mile2,
                    timestamp2: qv.last().timestamp2,
                    speed: qv.last().speed,
                },
            )
        } else {
            r
        }
    }
}

/// The queued tickets that stay behind.
pub open spec fn kept(qv: Seq<TicketView>, roads: Seq<u16>) -> Seq<TicketView>
    decreases qv.len(),
{
    if qv.len() == 0 {
        Seq::empty()
    } else {
        let r = kept(qv.drop_last(), roads);
        if roads.contains(qv.last().road) {
            r
        } else {
            r.push(qv.last())
        }
    }
}

/// The whole server state shared by all connections.
pub struct ServerState {
    pub cameras: Vec<Camera>,
    pub dispatchers: Vec<Dispatcher>,
    pub observations: Vec<Observation>,
    pub have_heartbeats: Vec<u16>,
    pub ticket_queue: Vec<Ticket>,
    pub ticket_sent: Vec<(Vec<u8>, Vec<u32>)>,
}

impl ServerState {
    pub fn new() -> (r: ServerState)
        ensures
            r.cameras@.len() == 0,
            r.dispatchers@.len() == 0,
            r.observations@.len() == 0,
            r.have_heartbeats@.len() == 0,
            r.ticket_queue@.len() == 0,
            r.ticket_sent@.len() == 0,
    {
        ServerState {
            cameras: Vec::new(),
            dispatchers: Vec::new(),
            observations: Vec::new(),
            have_heartbeats: Vec::new(),
            ticket_queue: Vec::new(),
            ticket_sent: Vec::new(),
        }
    }

    /// Whether `client` already declared a role.
    pub fn has_client(&self, client: u16) -> (r: bool)
        ensures
            r == has_client_spec(self.cameras@, dviews(self.dispatchers@), client),
    {
        let mut i: usize = 0;
        while i < self.cameras.len()
            invariant
                0 <= i <= self.cameras@.len(),
                forall|k: int| 0 <= k < i ==> (#[trigger] self.cameras@[k]).id != client,
            decreases self.cameras@.len() - i,
        {
            if self.cameras[i].id == client {
                return true;
            }
            i = i + 1;
        }
        let ghost dv = dviews(self.dispatchers@);
        let mut j: usize = 0;
        while j < self.dispatchers.len()
            invariant
                0 <= j <= self.dispatchers@.len(),
                dv == dviews(self.dispatchers@),
                dv.len() == self.dispatchers@.len(),
                forall|k: int| 0 <= k < i ==> (#[trigger] self.cameras@[k]).id != client,
                i == self.cameras@.len(),
                forall|k: int| 0 <= k < j ==> (#[trigger] dv[k]).id != client,
            decreases self.dispatchers@.len() - j,
        {
            if self.dispatchers[j].id == client {
                proof {
                    assert(dv[j as int].id == client);
                }
                return true;
            }
            proof {
                assert(dv[j as int].id != client);
            }
            j = j + 1;
        }
        proof {
            if has_client_spec(self.cameras@, dv, client) {
                if exists|k: int| 0 <= k < self.cameras@.len() && (#[trigger] self.cameras@[k]).id
                    == client {
                    let k = choose|k: int|
                        0 <= k < self.cameras@.len() && (#[trigger] self.cameras@[k]).id == client;
                    assert(false);
                } else {
                    let k = choose|k: int| 0 <= k < dv.len() && (#[trigger] dv[k]).id == client;
                    assert(false);
                }
            }
        }
        false
    }

    /// The average speed between two sightings.
    pub fn compute_speed(obs1: &Observation, obs2: &Observation) -> (r: u16)
        ensures
            r == speed_of(obs1.mile, obs1.timestamp, obs2.mile, obs2.timestamp),
    {
        let d: u64 = if obs1.mile >= obs2.mile {
            (obs1.mile - obs2.mile) as u64
        } else {
            (obs2.mile - obs1.mile) as u64
        };
        let t: u64 = if obs1.timestamp >= obs2.timestamp {
            (obs1.timestamp - obs2.timestamp) as u64
        } else {
            (obs2.timestamp - obs1.timestamp) as u64
        };
        if t == 0 {
            return 65535;
        }
        let v = (7200 * d + t) / (2 * t);
        if v > 65535 {
            65535
        } else {
            v as u16
        }
    }

    /// The first dispatcher serving `road`, if any.
    pub fn get_dispatcher(&self, road: u16) -> (r: Option<u16>)
        ensures
            ({
                let dv = dviews(self.dispatchers@);
                let i = first_dispatcher_for(dv, road);
                match r {
                    Some(id) => i >= 0 && id == dv[i].id,
                    None => i < 0,
                }
            }),
    {
        let ghost dv = dviews(self.dispatchers@);
        let mut j: usize = 0;
        while j < self.dispatchers.len()
            invariant
                0 <= j <= self.dispatchers@.len(),
                dv == dviews(self.dispatchers@),
                dv.len() == self.dispatchers@.len(),
                forall|k: int| 0 <= k < j ==> !(#[trigger] dv[k]).roads.contains(road),
            decreases self.dispatchers@.len() - j,
        {
            proof {
                assert(dv[j as int].roads == self.dispatchers@[j as int].roads@);
            }
            let mut m: usize = 0;
            let nroads = self.dispatchers[j].roads.len();
            while m < nroads
                invariant
                    j < self.dispatchers@.len(),
                    0 <= m <= self.dispatchers@[j as int].roads@.len(),
                    nroads == self.dispatchers@[j as int].roads@.len(),
                    dv == dviews(self.dispatchers@),
                    dv.len() == self.dispatchers@.len(),
                    forall|k: int| 0 <= k < j ==> !(#[trigger] dv[k]).roads.contains(road),
                    forall|k: int|
                        0 <= k < m ==> self.dispatchers@[j as int].roads@[k] != road,
                decreases nroads - m,
            {
                if self.dispatchers[j].roads[m] == road {
                    proof {
                        assert(dv[j as int].roads[m as int] == road);
                        assert(dv[j as int].roads.contains(road));
                        lemma_first_dispatcher_from(dv, road, j as int);
                    }
                    return Some(self.dispatchers[j].id);
                }
                m = m + 1;
            }
            proof {
                assert(!dv[j as int].roads.contains(road)) by {
                    if dv[j as int].roads.contains(road) {
                        let k = choose|k: int|
                            0 <= k < dv[j as int].roads.len() && dv[j as int].roads[k] == road;
                        assert(false);
                    }
                }
            }
            j = j + 1;
        }
        proof {
            lemma_first_dispatcher_from(dv, road, dv.len() as int);
        }
        None
    }

    /// Register a heartbeat request; at most one per client.
    pub fn mark_heartbeat(&mut self, client: u16) -> (r: bool)
        ensures
            r == !old(self).have_heartbeats@.contains(client),
            final (self).have_heartbeats@ == if old(self).have_heartbeats@.contains(client) {
                old(self).have_heartbeats@
            } else {
                old(self).have_heartbeats@.push(client)
            },
            final (self).cameras@ == old(self).cameras@,
            final (self).dispatchers@ == old(self).dispatchers@,
            final (self).observations@ == old(self).observations@,
            final (self).ticket_queue@ == old(self).ticket_queue@,
            final (self).ticket_sent@ == old(self).ticket_sent@,
    {
        let mut i: usize = 0;
        while i < self.have_heartbeats.len()
            invariant
                0 <= i <= self.have_heartbeats@.len(),
                *self == *old(self),
                forall|k: int| 0 <= k < i ==> self.have_heartbeats@[k] != client,
            decreases self.have_heartbeats@.len() - i,
        {
            if self.have_heartbeats[i] == client {
                proof {
                    assert(old(self).have_heartbeats@.contains(client));
                }
                return false;
            }
            i = i + 1;
        }
        proof {
            if old(self).have_heartbeats@.contains(client) {
                let k = choose|k: int|
                    0 <= k < old(self).have_heartbeats@.len() && old(self).have_heartbeats@[k]
                        == client;
                assert(false);
            }
        }
        self.have_heartbeats.push(client);
        true
    }

    /// Register a camera; the client must not have a role yet.
    pub fn add_camera(&mut self, camera: Camera) -> (r: bool)
        ensures
            r == !has_client_spec(old(self).cameras@, dviews(old(self).dispatchers@), camera.id),
            final (self).cameras@ == if r {
                old(self).cameras@.push(camera)
            } else {
                old(self).cameras@
            },
            final (self).dispatchers@ == old(self).dispatchers@,
            final (self).observations@ == old(self).observations@,
            final (self).have_heartbeats@ == old(self).have_heartbeats@,
            final (self).ticket_queue@ == old(self).ticket_queue@,
            final (self).ticket_sent@ == old(self).ticket_sent@,
    {
        if self.has_client(camera.id) {
            return false;
        }
        self.cameras.push(camera);
        true
    }

    /// Register a dispatcher; the client must not have a role yet.
    /// The queued tickets for its roads are flushed to it, in arrival
    /// order.
    pub fn add_dispatcher(&mut self, dispatcher: Dispatcher) -> (r: Option<Vec<Ticket>>)
        ensures
            ({
                let had = has_client_spec(
                    old(self).cameras@,
                    dviews(old(self).dispatchers@),
                    dispatcher@.id,
                );
                match r {
                    Some(tickets) => !had && final (self).dispatchers@ == old(
                        self,
                    ).dispatchers@.push(dispatcher) && tkviews(final (self).ticket_queue@) =~~= kept(
                        tkviews(old(self).ticket_queue@),
                        dispatcher@.roads,
                    ) && tkviews(tickets@) =~~= flushed(
                        tkviews(old(self).ticket_queue@),
                        dispatcher@.roads,
                        dispatcher@.id,
                    ),
                    None => had && *final (self) == *old(self),
                }
            }),
            final (self).cameras@ == old(self).cameras@,
            final (self).observations@ == old(self).observations@,
            final (self).have_heartbeats@ == old(self).have_heartbeats@,
            final (self).ticket_sent@ == old(self).ticket_sent@,
    {
        if self.has_client(dispatcher.id) {
            return None;
        }
        let ghost qv = tkviews(self.ticket_queue@);
        let ghost roads = dispatcher@.roads;
        let did = dispatcher.id;
        let mut to_send: Vec<Ticket> = Vec::new();
        let mut staying: Vec<Ticket> = Vec::new();
        let mut i: usize = 0;
        proof {
            assert(tkviews(to_send@) =~~= flushed(qv.take(0), roads, did));
            assert(tkviews(staying@) =~~= kept(qv.take(0), roads));
        }
        while i < self.ticket_queue.len()
            invariant
                0 <= i <= self.ticket_queue@.len(),
                *self == *old(self),
                did == dispatcher@.id,
                roads == dispatcher.roads@,
                qv == tkviews(self.ticket_queue@),
                qv.len() == self.ticket_queue@.len(),
                tkviews(to_send@) =~~= flushed(qv.take(i as int), roads, did),
                tkviews(staying@) =~~= kept(qv.take(i as int), roads),
            decreases self.ticket_queue@.len() - i,
        {
            proof {
                assert(qv[i as int] == self.ticket_queue@[i as int]@);
                assert(qv.take(i + 1).drop_last() =~= qv.take(i as int));
                assert(qv.take(i + 1).last() == qv[i as int]);
            }
            let troad = self.ticket_queue[i].road;
            proof {
                assert(troad == qv[i as int].road);
            }
            let mut on_road = false;
            let mut m: usize = 0;
            while !on_road && m < dispatcher.roads.len()
                invariant
                    i < self.ticket_queue@.len(),
                    0 <= m <= dispatcher.roads@.len(),
                    roads == dispatcher.roads@,
                    qv == tkviews(self.ticket_queue@),
                    troad == qv[i as int].road,
                    on_road ==> roads.contains(qv[i as int].road),
                    !on_road ==> forall|k: int| 0 <= k < m ==> roads[k] != qv[i as int].road,
                decreases dispatcher.roads@.len() - m, (if on_road {
                    0int
                } else {
                    1int
                }),
            {
                if dispatcher.roads[m] == troad {
                    on_road = true;
                    proof {
                        assert(roads[m as int] == qv[i as int].road);
                    }
                }
                m = m + 1;
            }
            let t = &self.ticket_queue[i];
            proof {
                if !on_road {
                    if roads.contains(qv[i as int].road) {
                        let k = choose|k: int| 0 <= k < roads.len() && roads[k] == qv[
                            i as int
                        ].road;
                        assert(false);
                    }
                }
            }
            if on_road {
                let ghost prev = tkviews(to_send@);
                let tt = Ticket {
                    recipient: Some(did),
                    plate: t.plate.clone(),
                    road: t.road,
                    mile1: t.mile1,
                    timestamp1: t.timestamp1,
                    mile2: t.mile2,
                    timestamp2: t.timestamp2,
                    speed: t.speed,
                };
                proof {
                    assert(tt@.plate =~= qv[i as int].plate);
                }
                to_send.push(tt);
                proof {
                    assert(tkviews(to_send@) =~~= prev.push(tkviews(to_send@).last()));
                    assert(tkviews(to_send@) =~~= flushed(qv.take(i + 1), roads, did));
                }
            } else {
                let ghost prev = tkviews(staying@);
                let tt = Ticket {
                    recipient: t.recipient,
                    plate: t.plate.clone(),
                    road: t.road,
                    mile1: t.mile1,
                    timestamp1: t.timestamp1,
                    mile2: t.mile2,
                    timestamp2: t.timestamp2,
                    speed: t.speed,
                };
                proof {
                    assert(tt@ =~~= qv[i as int]);
                }
                staying.push(tt);
                proof {
                    assert(tkviews(staying@) =~~= kept(qv.take(i + 1), roads));
                }
            }
            i = i + 1;
        }
        proof {
            assert(qv.take(qv.len() as int) =~= qv);
        }
        self.ticket_queue = staying;
        self.dispatchers.push(dispatcher);
        Some(to_send)
    }

    /// Forget a client's role and heartbeat mark: the first matching
    /// entry of each table is swap-removed.
    pub fn remove_client(&mut self, client: u16)
        ensures
            final (self).observations@ == old(self).observations@,
            final (self).ticket_queue@ == old(self).ticket_queue@,
            final (self).ticket_sent@ == old(self).ticket_sent@,
            ({
                let cams = old(self).cameras@;
                let i = cam_idx(cams, client);
                final (self).cameras@ == if i >= 0 {
                    cams.update(i, cams.last()).drop_last()
                } else {
                    cams
                }
            }),
            ({
                let dv = dviews(old(self).dispatchers@);
                let i = disp_idx(dv, client);
                dviews(final (self).dispatchers@) =~~= if i >= 0 {
                    dv.update(i, dv.last()).drop_last()
                } else {
                    dv
                }
            }),
            ({
                let hb = old(self).have_heartbeats@;
                let i = hb_idx(hb, client);
                final (self).have_heartbeats@ == if i >= 0 {
                    hb.update(i, hb.last()).drop_last()
                } else {
                    hb
                }
            }),
    {
        let ghost cams = self.cameras@;
        let mut i: usize = 0;
        let mut found = false;
        while !found && i < self.cameras.len()
            invariant
                0 <= i <= self.cameras@.len(),
                *self == *old(self),
                cams == self.cameras@,
                found ==> i < cams.len() && cams[i as int].id == client,
                forall|k: int| 0 <= k < i ==> (#[trigger] cams[k]).id != client,
            decreases self.cameras@.len() - i, (if found {
                0int
            } else {
                1int
            }),
        {
            if self.cameras[i].id == client {
                found = true;
            } else {
                i = i + 1;
            }
        }
        proof {
            if found {
                lemma_cam_idx_from(cams, client, i as int);
            } else {
                lemma_cam_idx_from(cams, client, cams.len() as int);
            }
        }
        if found {
            self.cameras.swap_remove(i);
        }
        let ghost dv = dviews(self.dispatchers@);
        let mut j: usize = 0;
        let mut dfound = false;
        while !dfound && j < self.dispatchers.len()
            invariant
                0 <= j <= self.dispatchers@.len(),
                dv == dviews(self.dispatchers@),
                dv.len() == self.dispatchers@.len(),
                dfound ==> j < dv.len() && dv[j as int].id == client,
                forall|k: int| 0 <= k < j ==> (#[trigger] dv[k]).id != client,
            decreases self.dispatchers@.len() - j, (if dfound {
                0int
            } else {
                1int
            }),
        {
            if self.dispatchers[j].id == client {
                dfound = true;
            } else {
                j = j + 1;
            }
        }
        proof {
            if dfound {
                lemma_disp_idx_from(dv, client, j as int);
            } else {
                lemma_disp_idx_from(dv, client, dv.len() as int);
            }
        }
        if dfound {
            self.dispatchers.swap_remove(j);
            proof {
                assert(dviews(self.dispatchers@) =~~= dv.update(j as int, dv.last()).drop_last());
            }
        }
        let ghost hb = self.have_heartbeats@;
        let mut m: usize = 0;
        let mut hfound = false;
        while !hfound && m < self.have_heartbeats.len()
            invariant
                0 <= m <= self.have_heartbeats@.len(),
                hb == self.have_heartbeats@,
                hfound ==> m < hb.len() && hb[m as int] == client,
                forall|k: int| 0 <= k < m ==> hb[k] != client,
            decreases self.have_heartbeats@.len() - m, (if hfound {
                0int
            } else {
                1int
            }),
        {
            if self.have_heartbeats[m] == client {
                hfound = true;
            } else {
                m = m + 1;
            }
        }
        proof {
            if hfound {
                lemma_hb_idx_from(hb, client, m as int);
            } else {
                lemma_hb_idx_from(hb, client, hb.len() as int);
            }
        }
        if hfound {
            self.have_heartbeats.swap_remove(m);
        }
    }
}

/// The index of the dispatcher registered by `client`, or -1.
pub open spec fn disp_idx(dv: Seq<DispatcherView>, client: u16) -> int
    decreases dv.len(),
{
    if dv.len() == 0 {
        -1
    } else if dv[0].id == client {
        0
    } else {
        let r = disp_idx(dv.drop_first(), client);
        if r < 0 {
            -1
        } else {
            r + 1
        }
    }
}

pub proof fn lemma_disp_idx_from(dv: Seq<DispatcherView>, client: u16, i: int)
    requires
        0 <= i <= dv.len(),
        forall|k: int| 0 <= k < i ==> (#[trigger] dv[k]).id != client,
        i == dv.len() || dv[i].id == client,
    ensures
        disp_idx(dv, client) == if i == dv.len() {
            -1int
        } else {
            i
        },
    decreases dv.len(),
{
    if dv.len() > 0 && i > 0 {
        assert(dv[0].id != client);
        assert forall|k: int| 0 <= k < i - 1 implies (#[trigger] dv.drop_first()[k]).id
            != client by {
            assert(dv.drop_first()[k] == dv[k + 1]);
        }
        if i < dv.len() {
            assert(dv.drop_first()[i - 1] == dv[i]);
        }
        lemma_disp_idx_from(dv.drop_first(), client, i - 1);
    }
}

/// The index of `client` among the heartbeat marks, or -1.
pub open spec fn hb_idx(hb: Seq<u16>, client: u16) -> int
    decreases hb.len(),
{
    if hb.len() == 0 {
        -1
    } else if hb[0] == client {
        0
    } else {
        let r = hb_idx(hb.drop_first(), client);
        if r < 0 {
            -1
        } else {
            r + 1
        }
    }
}

pub proof fn lemma_hb_idx_from(hb: Seq<u16>, client: u16, i: int)
    requires
        0 <= i <= hb.len(),
        forall|k: int| 0 <= k < i ==> hb[k] != client,
        i == hb.len() || hb[i] == client,
    ensures
        hb_idx(hb, client) == if i == hb.len() {
            -1int
        } else {
            i
        },
    decreases hb.len(),
{
    if hb.len() > 0 && i > 0 {
        assert(hb[0] != client);
        assert forall|k: int| 0 <= k < i - 1 implies hb.drop_first()[k] != client by {
            assert(hb.drop_first()[k] == hb[k + 1]);
        }
        if i < hb.len() {
            assert(hb.drop_first()[i - 1] == hb[i]);
        }
        lemma_hb_idx_from(hb.drop_first(), client, i - 1);
    }
}


/// The consecutive days from `d1` to `d2`.
pub open spec fn day_range(d1: u32, d2: u32) -> Seq<u32> {
    Seq::new((d2 - d1 + 1) as nat, |i: int| (d1 + i) as u32)
}

/// The `generate_tickets` transition: how one speeding pair changes
/// the consumed-days table and the ticket queue, and what it emits.
pub open spec fn gen_step(
    dv: Seq<DispatcherView>,
    ss: Seq<(Seq<u8>, Seq<u32>)>,
    qv: Seq<TicketView>,
    o1: ObservationView,
    o2: ObservationView,
    speed: u16,
) -> (Seq<(Seq<u8>, Seq<u32>)>, Seq<TicketView>, Seq<TicketView>) {
    let d1 = (if o1.timestamp <= o2.timestamp {
        o1.timestamp
    } else {
        o2.timestamp
    }) / 86400;
    let d2 = (if o1.timestamp <= o2.timestamp {
        o2.timestamp
    } else {
        o1.timestamp
    }) / 86400;
    if day_hit(days_of(ss, o1.plate), d1, d2) {
        (ss, qv, Seq::empty())
    } else {
        let newdays = days_of(ss, o1.plate) + day_range(d1, d2);
        let pi = plate_idx(ss, o1.plate);
        let ss2 = if pi >= 0 {
            ss.update(pi, (o1.plate, newdays))
        } else {
            ss.push((o1.plate, newdays))
        };
        let di = first_dispatcher_for(dv, o1.road);
        if di >= 0 {
            (ss2, qv, seq![ticket_of(o1, o2, speed, Some(dv[di].id))])
        } else {
            (ss2, qv.push(ticket_of(o1, o2, speed, None)), Seq::empty())
        }
    }
}

/// The earlier sightings of one plate on one road, in arrival order.
pub open spec fn matching_obs(os: Seq<ObservationView>, plate: Seq<u8>, road: u16) -> Seq<
    ObservationView,
>
    decreases os.len(),
{
    if os.len() == 0 {
        Seq::empty()
    } else {
        let r = matching_obs(os.drop_last(), plate, road);
        if os.last().plate == plate && os.last().road == road {
            r.push(os.last())
        } else {
            r
        }
    }
}

/// What one plate report does, pair by pair: each earlier matching
/// sighting whose computed speed beats the limit takes the
/// `gen_step` transition, in order; the emitted tickets concatenate.
pub open spec fn read_plate_fold(
    dv: Seq<DispatcherView>,
    ss: Seq<(Seq<u8>, Seq<u32>)>,
    qv: Seq<TicketView>,
    obs: ObservationView,
    limit: u16,
    rel: Seq<ObservationView>,
    i: int,
) -> (Seq<(Seq<u8>, Seq<u32>)>, Seq<TicketView>, Seq<TicketView>)
    decreases rel.len() - i,
{
    if i < 0 || i >= rel.len() {
        (ss, qv, Seq::empty())
    } else {
        let speed = speed_of(obs.mile, obs.timestamp, rel[i].mile, rel[i].timestamp);
        if speed > limit {
            let step = gen_step(dv, ss, qv, obs, rel[i], speed);
            let rest = read_plate_fold(dv, step.0, step.1, obs, limit, rel, i + 1);
            (rest.0, rest.1, step.2 + rest.2)
        } else {
            read_plate_fold(dv, ss, qv, obs, limit, rel, i + 1)
        }
    }
}

impl ServerState {
    /// Weigh one speeding pair: if any day the violation spans was
    /// already consumed for this plate, nothing is emitted and
    /// nothing changes.  Otherwise the spanned days are consumed and
    /// one ticket is made: handed back for the first dispatcher of
    /// the road, or queued when no dispatcher serves it.
    pub fn generate_tickets(&mut self, obs1: &Observation, obs2: &Observation, speed: u16) -> (r:
        Vec<Ticket>)
        requires
            obs1.plate@ == obs2.plate@,
            obs1.road == obs2.road,
        ensures
            final (self).cameras@ == old(self).cameras@,
            final (self).dispatchers@ == old(self).dispatchers@,
            final (self).observations@ == old(self).observations@,
            final (self).have_heartbeats@ == old(self).have_heartbeats@,
            ({
                let ss = sentviews(old(self).ticket_sent@);
                let d1 = (if obs1.timestamp <= obs2.timestamp {
                    obs1.timestamp
                } else {
                    obs2.timestamp
                }) / 86400;
                let d2 = (if obs1.timestamp <= obs2.timestamp {
                    obs2.timestamp
                } else {
                    obs1.timestamp
                }) / 86400;
                if day_hit(days_of(ss, obs1.plate@), d1, d2) {
                    *final (self) == *old(self) && r@.len() == 0
                } else {
                    let newdays = days_of(ss, obs1.plate@) + day_range(d1, d2);
                    let pi = plate_idx(ss, obs1.plate@);
                    &&& sentviews(final (self).ticket_sent@) =~~= (if pi >= 0 {
                        ss.update(pi, (obs1.plate@, newdays))
                    } else {
                        ss.push((obs1.plate@, newdays))
                    })
                    &&& days_covered(days_of(sentviews(final (self).ticket_sent@), obs1.plate@), d1, d2)
                    &&& forall|p: Seq<u8>, d: u32|
                        days_of(ss, p).contains(d) ==> #[trigger] days_of(
                            sentviews(final (self).ticket_sent@),
                            p,
                        ).contains(d)
                    &&& ({
                        let di = first_dispatcher_for(dviews(old(self).dispatchers@), obs1.road);
                        if di >= 0 {
                            tkviews(r@) =~~= seq![
                                ticket_of(
                                    obs1@,
                                    obs2@,
                                    speed,
                                    Some(dviews(old(self).dispatchers@)[di].id),
                                ),
                            ] && final (self).ticket_queue@ == old(self).ticket_queue@
                        } else {
                            r@.len() == 0 && tkviews(final (self).ticket_queue@) =~~= tkviews(
                                old(self).ticket_queue@,
                            ).push(ticket_of(obs1@, obs2@, speed, None))
                        }
                    })
                }
            }),
            ({
                let step = gen_step(
                    dviews(old(self).dispatchers@),
                    sentviews(old(self).ticket_sent@),
                    tkviews(old(self).ticket_queue@),
                    obs1@,
                    obs2@,
                    speed,
                );
                &&& sentviews(final (self).ticket_sent@) =~~= step.0
                &&& tkviews(final (self).ticket_queue@) =~~= step.1
                &&& tkviews(r@) =~~= step.2
            }),
    {
        let ghost ss = sentviews(old(self).ticket_sent@);
        let start_ts = if obs1.timestamp <= obs2.timestamp {
            obs1.timestamp
        } else {
            obs2.timestamp
        };
        let end_ts = if obs1.timestamp <= obs2.timestamp {
            obs2.timestamp
        } else {
            obs1.timestamp
        };
        let d1 = start_ts / 86400;
        let d2 = end_ts / 86400;
        // find the plate's consumed days
        let mut pi: usize = 0;
        let mut pfound = false;
        while !pfound && pi < self.ticket_sent.len()
            invariant
                0 <= pi <= self.ticket_sent@.len(),
                *self == *old(self),
                ss == sentviews(self.ticket_sent@),
                ss.len() == self.ticket_sent@.len(),
                pfound ==> pi < ss.len() && ss[pi as int].0 == obs1.plate@,
                d1 == (if obs1.timestamp <= obs2.timestamp {
                    obs1.timestamp
                } else {
                    obs2.timestamp
                }) / 86400,
                d2 == (if obs1.timestamp <= obs2.timestamp {
                    obs2.timestamp
                } else {
                    obs1.timestamp
                }) / 86400,
                forall|k: int| 0 <= k < pi ==> (#[trigger] ss[k]).0 != obs1.plate@,
            decreases self.ticket_sent@.len() - pi, (if pfound {
                0int
            } else {
                1int
            }),
        {
            proof {
                assert(ss[pi as int].0 == self.ticket_sent@[pi as int].0@);
            }
            if crate::util::bytes_eq(self.ticket_sent[pi].0.as_slice(), obs1.plate.as_slice()) {
                pfound = true;
            } else {
                pi = pi + 1;
            }
        }
        proof {
            if pfound {
                lemma_plate_idx_from(ss, obs1.plate@, pi as int);
            } else {
                lemma_plate_idx_from(ss, obs1.plate@, ss.len() as int);
            }
        }
        let ghost old_days = days_of(ss, obs1.plate@);
        // check for an already consumed day in [d1, d2]
        if pfound {
            let ndays = self.ticket_sent[pi].1.len();
            let mut k: usize = 0;
            while k < ndays
                invariant
                    pi < self.ticket_sent@.len(),
                    0 <= k <= ndays,
                    *self == *old(self),
                    ss == sentviews(self.ticket_sent@),
                    ss[pi as int].0 == obs1.plate@,
                    plate_idx(ss, obs1.plate@) == pi as int,
                    old_days == days_of(ss, obs1.plate@),
                    ndays == self.ticket_sent@[pi as int].1@.len(),
                    d1 == (if obs1.timestamp <= obs2.timestamp {
                        obs1.timestamp
                    } else {
                        obs2.timestamp
                    }) / 86400,
                    d2 == (if obs1.timestamp <= obs2.timestamp {
                        obs2.timestamp
                    } else {
                        obs1.timestamp
                    }) / 86400,
                    forall|j: int| 0 <= j < k ==> !(d1 <= #[trigger] old_days[j] <= d2),
                decreases ndays - k,
            {
                proof {
                    assert(old_days[k as int] == self.ticket_sent@[pi as int].1@[k as int]);
                }
                let day = self.ticket_sent[pi].1[k];
                if d1 <= day && day <= d2 {
                    proof {
                        assert(d1 <= old_days[k as int] <= d2);
                        assert(day_hit(old_days, d1, d2));
                        assert(day_hit(
                            days_of(sentviews(old(self).ticket_sent@), obs1.plate@),
                            d1,
                            d2,
                        ));
                    }
                    return Vec::new();
                }
                k = k + 1;
            }
        }
        proof {
            if day_hit(old_days, d1, d2) {
                let j = choose|j: int| 0 <= j < old_days.len() && d1 <= #[trigger] old_days[j]
                    <= d2;
                assert(false);
            }
        }
        // consume the spanned days
        let mut fresh: Vec<u32> = Vec::new();
        let mut d = d1;
        loop
            invariant_except_break
                d1 <= d <= d2,
                fresh@ =~= day_range(d1, d2).take(d - d1),
            ensures
                fresh@ =~= day_range(d1, d2),
            decreases d2 - d,
        {
            fresh.push(d);
            proof {
                assert(fresh@ =~= day_range(d1, d2).take(d - d1 + 1));
            }
            if d == d2 {
                proof {
                    assert(day_range(d1, d2).take(d2 - d1 + 1) =~= day_range(d1, d2));
                }
                break;
            }
            d = d + 1;
        }
        if pfound {
            let mut newv: Vec<u32> = Vec::new();
            let nd = self.ticket_sent[pi].1.len();
            let mut k2: usize = 0;
            proof {
                assert(old_days == self.ticket_sent@[pi as int].1@);
            }
            while k2 < nd
                invariant
                    pi < self.ticket_sent@.len(),
                    0 <= k2 <= nd,
                    *self == *old(self),
                    ss == sentviews(self.ticket_sent@),
                    old_days == self.ticket_sent@[pi as int].1@,
                    nd == old_days.len(),
                    newv@ =~= old_days.take(k2 as int),
                decreases nd - k2,
            {
                newv.push(self.ticket_sent[pi].1[k2]);
                proof {
                    assert(newv@ =~= old_days.take(k2 + 1));
                }
                k2 = k2 + 1;
            }
            proof {
                assert(old_days.take(old_days.len() as int) =~= old_days);
            }
            newv.append(&mut fresh);
            let mut plate2: Vec<u8> = Vec::new();
            plate2.extend_from_slice(obs1.plate.as_slice());
            proof {
                assert(plate2@ =~= obs1.plate@);
                assert(newv@ == old_days + day_range(d1, d2));
            }
            self.ticket_sent[pi] = (plate2, newv);
            proof {
                assert(sentviews(self.ticket_sent@) =~~= ss.update(
                    pi as int,
                    (obs1.plate@, old_days + day_range(d1, d2)),
                ));
            }
        } else {
            let mut plate2: Vec<u8> = Vec::new();
            plate2.extend_from_slice(obs1.plate.as_slice());
            proof {
                assert(plate2@ =~= obs1.plate@);
            }
            self.ticket_sent.push((plate2, fresh));
            proof {
                assert(old_days + day_range(d1, d2) =~= day_range(d1, d2));
                assert(sentviews(self.ticket_sent@) =~~= ss.push(
                    (obs1.plate@, old_days + day_range(d1, d2)),
                ));
            }
        }
        proof {
            let ss2 = sentviews(self.ticket_sent@);
            let newdays = old_days + day_range(d1, d2);
            if pfound {
                assert forall|k: int| 0 <= k < pi implies (#[trigger] ss2[k]).0 != obs1.plate@ by {
                    assert(ss2[k] == ss[k]);
                }
                lemma_plate_idx_from(ss2, obs1.plate@, pi as int);
                assert(days_of(ss2, obs1.plate@) == newdays);
            } else {
                assert forall|k: int| 0 <= k < ss.len() implies (#[trigger] ss2[k]).0
                    != obs1.plate@ by {
                    assert(ss2[k] == ss[k]);
                }
                assert(ss2[ss.len() as int].0 == obs1.plate@);
                lemma_plate_idx_from(ss2, obs1.plate@, ss.len() as int);
                assert(days_of(ss2, obs1.plate@) =~= newdays);
            }
            assert forall|dd: u32| d1 <= dd <= d2 implies days_of(ss2, obs1.plate@).contains(
                dd,
            ) by {
                assert(day_range(d1, d2)[dd - d1] == dd);
                assert(newdays[old_days.len() + (dd - d1)] == dd);
            }
            assert forall|dd: u32| old_days.contains(dd) implies days_of(
                ss2,
                obs1.plate@,
            ).contains(dd) by {
                let k = choose|k: int| 0 <= k < old_days.len() && old_days[k] == dd;
                assert(newdays[k] == dd);
            }
            assert forall|p: Seq<u8>, dd: u32|
                days_of(ss, p).contains(dd) implies #[trigger] days_of(ss2, p).contains(dd) by {
                if p == obs1.plate@ {
                    assert(days_of(ss2, obs1.plate@).contains(dd));
                } else {
                    let idx = plate_idx(ss, p);
                    if idx < 0 {
                        assert(days_of(ss, p) =~= Seq::<u32>::empty());
                        assert(false);
                    }
                    lemma_plate_idx_is_match(ss, p);
                    lemma_plate_idx_first(ss, p);
                    assert forall|k: int| 0 <= k < idx implies (#[trigger] ss2[k]).0 != p by {
                        assert(ss2[k].0 == ss[k].0);
                    }
                    assert(ss2[idx].0 == ss[idx].0);
                    lemma_plate_idx_from(ss2, p, idx);
                    assert(ss2[idx].1 == ss[idx].1);
                }
            }
        }
        // build the ticket
        let recipient = self.get_dispatcher(obs1.road);
        let (m1, m2) = if obs1.timestamp < obs2.timestamp {
            (obs1.mile, obs2.mile)
        } else {
            (obs2.mile, obs1.mile)
        };
        let mut plate3: Vec<u8> = Vec::new();
        plate3.extend_from_slice(obs1.plate.as_slice());
        proof {
            assert(plate3@ =~= obs1.plate@);
        }
        let ticket = Ticket {
            recipient,
            plate: plate3,
            road: obs1.road,
            mile1: m1,
            timestamp1: start_ts,
            mile2: m2,
            timestamp2: end_ts,
            speed: 100 * (speed as u32),
        };
        match recipient {
            Some(_) => {
                let mut r: Vec<Ticket> = Vec::new();
                proof {
                    let di = first_dispatcher_for(dviews(old(self).dispatchers@), obs1.road);
                    assert(ticket@ =~~= ticket_of(
                        obs1@,
                        obs2@,
                        speed,
                        Some(dviews(old(self).dispatchers@)[di].id),
                    ));
                }
                r.push(ticket);
                proof {
                    assert(tkviews(r@) =~~= seq![tkviews(r@)[0]]);
                }
                r
            },
            None => {
                let ghost prev = tkviews(self.ticket_queue@);
                proof {
                    assert(ticket@ =~~= ticket_of(obs1@, obs2@, speed, None));
                }
                self.ticket_queue.push(ticket);
                proof {
                    assert(tkviews(self.ticket_queue@) =~~= prev.push(
                        ticket_of(obs1@, obs2@, speed, None),
                    ));
                }
                Vec::new()
            },
        }
    }
}



/// Nothing before `plate_idx` matches.
pub proof fn lemma_plate_idx_first(ss: Seq<(Seq<u8>, Seq<u32>)>, plate: Seq<u8>)
    ensures
        plate_idx(ss, plate) >= 0 ==> forall|k: int|
            0 <= k < plate_idx(ss, plate) ==> (#[trigger] ss[k]).0 != plate,
    decreases ss.len(),
{
    lemma_plate_idx_is_match(ss, plate);
    if ss.len() > 0 && ss[0].0 != plate && plate_idx(ss, plate) >= 0 {
        lemma_plate_idx_first(ss.drop_first(), plate);
        lemma_plate_idx_is_match(ss.drop_first(), plate);
        assert forall|k: int| 0 <= k < plate_idx(ss, plate) implies (#[trigger] ss[k]).0
            != plate by {
            if k > 0 {
                assert(ss.drop_first()[k - 1] == ss[k]);
            }
        }
    }
}

impl ServerState {
    /// A camera reports a plate.  The sighting is recorded; every
    /// earlier sighting of the same plate on the same road is weighed
    /// against the camera's limit, and each violation yields at most
    /// one ticket, paced by the one-ticket-per-day rule carried by
    /// `generate_tickets`.  `None` when the client is no camera.
    pub fn read_plate(&mut self, client: u16, plate: Vec<u8>, timestamp: u32) -> (r: Option<
        Vec<Ticket>,
    >)
        ensures
            match r {
                None => cam_idx(old(self).cameras@, client) == -1 && *final (self) == *old(self),
                Some(tickets) => {
                    let ci = cam_idx(old(self).cameras@, client);
                    let cam = old(self).cameras@[ci];
                    let full = read_plate_fold(
                        dviews(old(self).dispatchers@),
                        sentviews(old(self).ticket_sent@),
                        tkviews(old(self).ticket_queue@),
                        ObservationView {
                            plate: plate@,
                            timestamp,
                            road: cam.road,
                            mile: cam.mile,
                        },
                        cam.limit,
                        matching_obs(obviews(old(self).observations@), plate@, cam.road),
                        0,
                    );
                    &&& ci >= 0
                    &&& final (self).cameras@ == old(self).cameras@
                    &&& final (self).dispatchers@ == old(self).dispatchers@
                    &&& final (self).have_heartbeats@ == old(self).have_heartbeats@
                    &&& obviews(final (self).observations@) =~~= obviews(
                        old(self).observations@,
                    ).push(
                        ObservationView {
                            plate: plate@,
                            timestamp,
                            road: cam.road,
                            mile: cam.mile,
                        },
                    )
                    &&& sentviews(final (self).ticket_sent@) =~~= full.0
                    &&& tkviews(final (self).ticket_queue@) =~~= full.1
                    &&& tkviews(tickets@) =~~= full.2
                    &&& forall|k: int|
                        0 <= k < tickets@.len() ==> (#[trigger] tkviews(tickets@)[k]).plate
                            == plate@ && tkviews(tickets@)[k].road == cam.road && tkviews(
                            tickets@,
                        )[k].recipient is Some
                    &&& forall|p: Seq<u8>, d: u32|
                        days_of(sentviews(old(self).ticket_sent@), p).contains(d)
                            ==> #[trigger] days_of(sentviews(final (self).ticket_sent@), p).contains(
                            d,
                        )
                },
            },
    {
        let ghost st0 = *old(self);
        let mut ci: usize = 0;
        let mut cfound = false;
        while !cfound && ci < self.cameras.len()
            invariant
                0 <= ci <= self.cameras@.len(),
                *self == *old(self),
                cfound ==> ci < self.cameras@.len() && self.cameras@[ci as int].id == client,
                forall|k: int| 0 <= k < ci ==> (#[trigger] self.cameras@[k]).id != client,
            decreases self.cameras@.len() - ci, (if cfound {
                0int
            } else {
                1int
            }),
        {
            if self.cameras[ci].id == client {
                cfound = true;
            } else {
                ci = ci + 1;
            }
        }
        proof {
            if cfound {
                lemma_cam_idx_from(self.cameras@, client, ci as int);
            } else {
                lemma_cam_idx_from(self.cameras@, client, self.cameras@.len() as int);
            }
        }
        if !cfound {
            return None;
        }
        let cam = self.cameras[ci];
        // gather the earlier sightings of this plate on this road
        let ghost all_obs = obviews(self.observations@);
        let mut relevant: Vec<Observation> = Vec::new();
        let mut i: usize = 0;
        proof {
            assert(obviews(relevant@) =~~= matching_obs(all_obs.take(0), plate@, cam.road));
        }
        while i < self.observations.len()
            invariant
                0 <= i <= self.observations@.len(),
                *self == *old(self),
                all_obs == obviews(self.observations@),
                all_obs.len() == self.observations@.len(),
                obviews(relevant@) =~~= matching_obs(all_obs.take(i as int), plate@, cam.road),
                forall|k: int|
                    0 <= k < relevant@.len() ==> (#[trigger] relevant@[k]@).plate == plate@
                        && relevant@[k]@.road == cam.road,
            decreases self.observations@.len() - i,
        {
            proof {
                assert(all_obs[i as int] =~~= self.observations@[i as int]@);
                assert(all_obs.take(i + 1).drop_last() =~= all_obs.take(i as int));
                assert(all_obs.take(i + 1).last() == all_obs[i as int]);
            }
            let o = &self.observations[i];
            if o.road == cam.road && crate::util::bytes_eq(o.plate.as_slice(), plate.as_slice()) {
                let c = Observation {
                    plate: o.plate.clone(),
                    timestamp: o.timestamp,
                    road: o.road,
                    mile: o.mile,
                };
                let ghost prev = obviews(relevant@);
                proof {
                    assert(c@.plate =~= plate@);
                    assert(c@ =~~= all_obs[i as int]);
                }
                relevant.push(c);
                proof {
                    assert(obviews(relevant@) =~~= prev.push(all_obs[i as int]));
                }
            }
            i = i + 1;
        }
        proof {
            assert(all_obs.take(all_obs.len() as int) =~= all_obs);
        }
        let ghost relv = obviews(relevant@);
        let kept_plate = plate.clone();
        proof {
            assert(kept_plate@ =~= plate@);
        }
        let obs = Observation { plate, timestamp, road: cam.road, mile: cam.mile };
        let ghost obs_v = obs@;
        let ghost old_obs = obviews(self.observations@);
        self.observations.push(obs);
        proof {
            assert(obviews(self.observations@) =~~= old_obs.push(obs_v));
        }
        let local = Observation { plate: kept_plate, timestamp, road: cam.road, mile: cam.mile };
        proof {
            assert(local@ =~~= obs_v);
        }
        let ghost dv0 = dviews(st0.dispatchers@);
        let ghost ss0 = sentviews(st0.ticket_sent@);
        let ghost qv0 = tkviews(st0.ticket_queue@);
        let mut tickets: Vec<Ticket> = Vec::new();
        let mut j: usize = 0;
        proof {
            assert(tkviews(tickets@) =~~= Seq::<TicketView>::empty());
        }
        while j < relevant.len()
            invariant
                0 <= j <= relevant@.len(),
                local@ == obs_v,
                obs_v.plate == plate@ && obs_v.road == cam.road && obs_v.mile == cam.mile
                    && obs_v.timestamp == timestamp,
                relv == obviews(relevant@),
                relv.len() == relevant@.len(),
                relv == matching_obs(obviews(st0.observations@), plate@, cam.road),
                forall|k: int|
                    0 <= k < relevant@.len() ==> (#[trigger] relevant@[k]@).plate == plate@
                        && relevant@[k]@.road == cam.road,
                self.cameras@ == st0.cameras@,
                self.dispatchers@ == st0.dispatchers@,
                self.have_heartbeats@ == st0.have_heartbeats@,
                dv0 == dviews(st0.dispatchers@),
                ss0 == sentviews(st0.ticket_sent@),
                qv0 == tkviews(st0.ticket_queue@),
                obviews(self.observations@) =~~= obviews(st0.observations@).push(obs_v),
                ({
                    let full = read_plate_fold(dv0, ss0, qv0, obs_v, cam.limit, relv, 0);
                    let rest = read_plate_fold(
                        dv0,
                        sentviews(self.ticket_sent@),
                        tkviews(self.ticket_queue@),
                        obs_v,
                        cam.limit,
                        relv,
                        j as int,
                    );
                    full.0 == rest.0 && full.1 == rest.1 && full.2 == tkviews(tickets@) + rest.2
                }),
                forall|k: int|
                    0 <= k < tickets@.len() ==> (#[trigger] tkviews(tickets@)[k]).plate == plate@
                        && tkviews(tickets@)[k].road == cam.road && tkviews(tickets@)[k].recipient
                        is Some,
                forall|p: Seq<u8>, d: u32|
                    days_of(sentviews(st0.ticket_sent@), p).contains(d)
                        ==> #[trigger] days_of(sentviews(self.ticket_sent@), p).contains(d),
            decreases relevant@.len() - j,
        {
            proof {
                assert(relv[j as int] =~~= relevant@[j as int]@);
            }
            let speed = Self::compute_speed(&local, &relevant[j]);
            proof {
                assert(speed == speed_of(
                    obs_v.mile,
                    obs_v.timestamp,
                    relv[j as int].mile,
                    relv[j as int].timestamp,
                ));
            }
            if speed > cam.limit {
                let ghost mid_ss = sentviews(self.ticket_sent@);
                let ghost mid_qv = tkviews(self.ticket_queue@);
                let ghost disp_before = dviews(self.dispatchers@);
                let mut emitted = self.generate_tickets(&local, &relevant[j], speed);
                let ghost em = tkviews(emitted@);
                proof {
                    assert(disp_before == dv0);
                    let step = gen_step(dv0, mid_ss, mid_qv, obs_v, relv[j as int], speed);
                    assert(em =~~= step.2);
                    assert(sentviews(self.ticket_sent@) =~~= step.0);
                    assert(tkviews(self.ticket_queue@) =~~= step.1);
                    assert forall|k: int|
                        0 <= k < em.len() implies (#[trigger] em[k]).plate == plate@ && em[k].road
                        == cam.road && em[k].recipient is Some by {
                        let di = first_dispatcher_for(dv0, obs_v.road);
                        assert(em[k] == ticket_of(
                            obs_v,
                            relv[j as int],
                            speed,
                            Some(dv0[di].id),
                        ));
                    }
                }
                let ghost prev_t = tkviews(tickets@);
                tickets.append(&mut emitted);
                proof {
                    assert(tkviews(tickets@) =~~= prev_t + em);
                    assert forall|a: Seq<TicketView>|
                        (prev_t + em) + a =~~= prev_t + (em + a) by {}
                }
            }
            j = j + 1;
        }
        proof {
            assert(read_plate_fold(
                dv0,
                sentviews(self.ticket_sent@),
                tkviews(self.ticket_queue@),
                obs_v,
                cam.limit,
                relv,
                relv.len() as int,
            ).2 =~~= Seq::<TicketView>::empty());
            assert(tkviews(tickets@) + Seq::<TicketView>::empty() =~~= tkviews(tickets@));
        }
        Some(tickets)
    }
}


/// The two bytes of `v`, big endian.
pub open spec fn enc_u16(v: u16) -> Seq<u8> {
    seq![((v >> 8) & 0xff) as u8, (v & 0xff) as u8]
}

/// The big-endian value of the two bytes at `i`.
pub open spec fn be16_at(d: Seq<u8>, i: int) -> u16 {
    (((d[i] as u16) << 8) | (d[i + 1] as u16))
}

pub proof fn lemma_be16_of_enc(v: u16)
    ensures
        be16_at(enc_u16(v), 0) == v,
{
    let b0 = ((v >> 8) & 0xff) as u8;
    let b1 = (v & 0xff) as u8;
    assert((((b0 as u16) << 8) | (b1 as u16)) == v) by (bit_vector)
        requires
            b0 == ((v >> 8) & 0xff) as u8,
            b1 == (v & 0xff) as u8,
    ;
}

/// Read two big-endian bytes at `i`.
pub open spec fn parse_u16_at(d: Seq<u8>, i: int) -> Option<(u16, int)> {
    if 0 <= i && i + 2 <= d.len() {
        Some((be16_at(d, i), i + 2))
    } else {
        None
    }
}

pub proof fn lemma_parse_u16_at_enc(d: Seq<u8>, i: int, v: u16)
    requires
        0 <= i,
        i + 2 <= d.len(),
        d.subrange(i, i + 2) == enc_u16(v),
    ensures
        parse_u16_at(d, i) == Some((v, i + 2)),
{
    lemma_be16_of_enc(v);
    assert(d[i] == enc_u16(v)[0] && d[i + 1] == enc_u16(v)[1]) by {
        assert(d.subrange(i, i + 2)[0] == d[i]);
        assert(d.subrange(i, i + 2)[1] == d[i + 1]);
    }
}

/// A string with a one-byte length prefix.
pub open spec fn enc_u8str(s: Seq<u8>) -> Seq<u8> {
    seq![s.len() as u8] + s
}

/// Read a one-byte-length-prefixed string at `i`.
pub open spec fn parse_u8str_at(d: Seq<u8>, i: int) -> Option<(Seq<u8>, int)> {
    match parse_u8_at(d, i) {
        Some((n, j)) => if j + n <= d.len() {
            Some((d.subrange(j, j + n), j + n))
        } else {
            None
        },
        None => None,
    }
}

pub proof fn lemma_parse_u8str_at_enc(d: Seq<u8>, i: int, s: Seq<u8>)
    requires
        0 <= i,
        s.len() <= 255,
        i + 1 + s.len() <= d.len(),
        d.subrange(i, i + 1 + s.len()) == enc_u8str(s),
    ensures
        parse_u8str_at(d, i) == Some((s, i + 1 + s.len())),
{
    assert(d[i] == enc_u8str(s)[0]) by {
        assert(d.subrange(i, i + 1 + s.len())[0] == d[i]);
    }
    assert(d.subrange(i + 1, i + 1 + s.len()) =~= s) by {
        assert forall|k: int| 0 <= k < s.len() implies d.subrange(i + 1, i + 1 + s.len())[k]
            == s[k] by {
            assert(d.subrange(i, i + 1 + s.len())[k + 1] == d[i + 1 + k]);
            assert(enc_u8str(s)[k + 1] == s[k]);
        }
    }
}

/// Road numbers, two bytes each.
pub open spec fn enc_roads(rs: Seq<u16>) -> Seq<u8>
    decreases rs.len(),
{
    if rs.len() == 0 {
        Seq::empty()
    } else {
        enc_u16(rs[0]) + enc_roads(rs.drop_first())
    }
}

/// Read `cnt` road numbers at `i`.
pub open spec fn parse_roads_at(d: Seq<u8>, i: int, cnt: nat) -> Option<(Seq<u16>, int)>
    decreases cnt,
{
    if cnt == 0 {
        Some((Seq::empty(), i))
    } else {
        match parse_u16_at(d, i) {
            Some((r, j)) => match parse_roads_at(d, j, (cnt - 1) as nat) {
                Some((rs, end)) => Some((seq![r] + rs, end)),
                None => None,
            },
            None => None,
        }
    }
}

proof fn lemma_parse_roads_of_enc(d: Seq<u8>, i: int, rs: Seq<u16>)
    requires
        0 <= i,
        i + enc_roads(rs).len() <= d.len(),
        d.subrange(i, i + enc_roads(rs).len()) == enc_roads(rs),
    ensures
        parse_roads_at(d, i, rs.len()) == Some((rs, i + enc_roads(rs).len())),
    decreases rs.len(),
{
    if rs.len() > 0 {
        let rest = rs.drop_first();
        let ltot = enc_roads(rs).len() as int;
        assert(enc_roads(rs) == enc_u16(rs[0]) + enc_roads(rest));
        assert(d.subrange(i, i + 2) =~= enc_u16(rs[0])) by {
            assert forall|k: int| 0 <= k < 2 implies d.subrange(i, i + 2)[k] == enc_u16(
                rs[0],
            )[k] by {
                assert(d.subrange(i, i + ltot)[k] == d[i + k]);
            }
        }
        lemma_parse_u16_at_enc(d, i, rs[0]);
        assert(d.subrange(i + 2, i + ltot) =~= enc_roads(rest)) by {
            assert forall|k: int| 0 <= k < ltot - 2 implies d.subrange(i + 2, i + ltot)[k]
                == enc_roads(rest)[k] by {
                assert(d.subrange(i, i + ltot)[k + 2] == d[i + 2 + k]);
            }
        }
        lemma_parse_roads_of_enc(d, i + 2, rest);
        assert(seq![rs[0]] + rest =~= rs);
    }
}

/// A message a client sends the server.
pub enum ClientMsg {
    Plate { plate: Vec<u8>, timestamp: u32 },
    WantHeartbeat { interval: u32 },
    IAmCamera { road: u16, mile: u16, limit: u16 },
    IAmDispatcher { roads: Vec<u16> },
}

/// Mathematical image of a client message.
#[verifier::ext_equal]
pub enum ClientMsgView {
    Plate { plate: Seq<u8>, timestamp: u32 },
    WantHeartbeat { interval: u32 },
    IAmCamera { road: u16, mile: u16, limit: u16 },
    IAmDispatcher { roads: Seq<u16> },
}

impl View for ClientMsg {
    type V = ClientMsgView;

    open spec fn view(&self) -> ClientMsgView {
        match self {
            ClientMsg::Plate { plate, timestamp } => ClientMsgView::Plate {
                plate: plate@,
                timestamp: *timestamp,
            },
            ClientMsg::WantHeartbeat { interval } => ClientMsgView::WantHeartbeat {
                interval: *interval,
            },
            ClientMsg::IAmCamera { road, mile, limit } => ClientMsgView::IAmCamera {
                road: *road,
                mile: *mile,
                limit: *limit,
            },
            ClientMsg::IAmDispatcher { roads } => ClientMsgView::IAmDispatcher { roads: roads@ },
        }
    }
}

/// The bytes of a client message.
pub open spec fn enc_client_msg(m: ClientMsgView) -> Seq<u8> {
    match m {
        ClientMsgView::Plate { plate, timestamp } => seq![0x20u8] + enc_u8str(plate) + enc_u32(
            timestamp,
        ),
        ClientMsgView::WantHeartbeat { interval } => seq![0x40u8] + enc_u32(interval),
        ClientMsgView::IAmCamera { road, mile, limit } => seq![0x80u8] + enc_u16(road) + enc_u16(
            mile,
        ) + enc_u16(limit),
        ClientMsgView::IAmDispatcher { roads } => seq![0x81u8] + seq![roads.len() as u8]
            + enc_roads(roads),
    }
}

/// A client message's lengths fit its wire fields.
pub open spec fn client_msg_wf(m: ClientMsgView) -> bool {
    match m {
        ClientMsgView::Plate { plate, .. } => plate.len() <= 255,
        ClientMsgView::IAmDispatcher { roads } => roads.len() <= 255,
        _ => true,
    }
}

/// What one attempt to read a client message from buffered bytes
/// yields.
#[verifier::ext_equal]
pub enum ClientStepView {
    /// A whole message, and the index after it.
    Parsed(ClientMsgView, int),
    /// The buffer ends inside a message.
    Incomplete,
    /// The first byte is no message type.
    Invalid,
}

/// Read one client message from the front of `d`; bytes after it are
/// left for the next read.
pub open spec fn spec_parse_client(d: Seq<u8>) -> ClientStepView {
    if d.len() == 0 {
        ClientStepView::Incomplete
    } else if d[0] == 0x20 {
        match parse_u8str_at(d, 1) {
            Some((plate, i)) => match parse_u32_at(d, i) {
                Some((ts, j)) => ClientStepView::Parsed(
                    ClientMsgView::Plate { plate, timestamp: ts },
                    j,
                ),
                None => ClientStepView::Incomplete,
            },
            None => ClientStepView::Incomplete,
        }
    } else if d[0] == 0x40 {
        match parse_u32_at(d, 1) {
            Some((iv, j)) => ClientStepView::Parsed(
                ClientMsgView::WantHeartbeat { interval: iv },
                j,
            ),
            None => ClientStepView::Incomplete,
        }
    } else if d[0] == 0x80 {
        match parse_u16_at(d, 1) {
            Some((road, i)) => match parse_u16_at(d, i) {
                Some((mile, j)) => match parse_u16_at(d, j) {
                    Some((limit, k)) => ClientStepView::Parsed(
                        ClientMsgView::IAmCamera { road, mile, limit },
                        k,
                    ),
                    None => ClientStepView::Incomplete,
                },
                None => ClientStepView::Incomplete,
            },
            None => ClientStepView::Incomplete,
        }
    } else if d[0] == 0x81 {
        match parse_u8_at(d, 1) {
            Some((cnt, i)) => match parse_roads_at(d, i, cnt as nat) {
                Some((roads, j)) => ClientStepView::Parsed(
                    ClientMsgView::IAmDispatcher { roads },
                    j,
                ),
                None => ClientStepView::Incomplete,
            },
            None => ClientStepView::Incomplete,
        }
    } else {
        ClientStepView::Invalid
    }
}

/// Framing round-trip for client messages: a message's bytes at the
/// front of any buffer read back as exactly that message.
pub proof fn lemma_client_msg_roundtrip(m: ClientMsgView, extra: Seq<u8>)
    requires
        client_msg_wf(m),
    ensures
        spec_parse_client(enc_client_msg(m) + extra) == ClientStepView::Parsed(
            m,
            enc_client_msg(m).len() as int,
        ),
{
    let e = enc_client_msg(m);
    let d = e + extra;
    match m {
        ClientMsgView::Plate { plate, timestamp } => {
            assert(d[0] == 0x20);
            assert(d.subrange(1, 2 + plate.len() as int) =~= enc_u8str(plate));
            lemma_parse_u8str_at_enc(d, 1, plate);
            let i = 2 + plate.len() as int;
            assert(d.subrange(i, i + 4) =~= enc_u32(timestamp));
            lemma_parse_u32_at_enc(d, i, timestamp);
        },
        ClientMsgView::WantHeartbeat { interval } => {
            assert(d[0] == 0x40);
            assert(d.subrange(1, 5) =~= enc_u32(interval));
            lemma_parse_u32_at_enc(d, 1, interval);
        },
        ClientMsgView::IAmCamera { road, mile, limit } => {
            assert(d[0] == 0x80);
            assert(d.subrange(1, 3) =~= enc_u16(road));
            lemma_parse_u16_at_enc(d, 1, road);
            assert(d.subrange(3, 5) =~= enc_u16(mile));
            lemma_parse_u16_at_enc(d, 3, mile);
            assert(d.subrange(5, 7) =~= enc_u16(limit));
            lemma_parse_u16_at_enc(d, 5, limit);
        },
        ClientMsgView::IAmDispatcher { roads } => {
            assert(d[0] == 0x81);
            assert(d[1] == roads.len() as u8);
            assert(d.subrange(2, 2 + enc_roads(roads).len() as int) =~= enc_roads(roads));
            lemma_parse_roads_of_enc(d, 2, roads);
            assert((roads.len() as u8) as nat == roads.len());
        },
    }
}

/// Try to read one client message from the front of `d`.
pub fn parse_client_msg(d: &[u8]) -> (r: Option<(ClientMsg, usize)>)
    ensures
        match r {
            Some((m, used)) => spec_parse_client(d@) == ClientStepView::Parsed(m@, used as int),
            None => spec_parse_client(d@) is Incomplete || spec_parse_client(d@) is Invalid,
        },
{
    if d.len() == 0 {
        return None;
    }
    let tag = d[0];
    if tag == 0x20 {
        if d.len() < 2 {
            return None;
        }
        let n = d[1] as usize;
        if d.len() < 2 + n {
            return None;
        }
        let mut plate: Vec<u8> = Vec::new();
        let mut k: usize = 0;
        while k < n
            invariant
                0 <= k <= n,
                2 + n <= d@.len(),
                d@.len() <= usize::MAX,
                plate@ =~= d@.subrange(2, 2 + k),
            decreases n - k,
        {
            plate.push(d[2 + k]);
            proof {
                assert(plate@ =~= d@.subrange(2, 2 + k + 1));
            }
            k = k + 1;
        }
        if d.len() < 6 + n {
            return None;
        }
        let i = 2 + n;
        let ts: u32 = ((d[i] as u32) << 24) | ((d[i + 1] as u32) << 16) | ((d[i + 2] as u32) << 8)
            | (d[i + 3] as u32);
        proof {
            assert(parse_u8str_at(d@, 1) == Some((plate@, 2 + n as int)));
        }
        Some((ClientMsg::Plate { plate, timestamp: ts }, 6 + n))
    } else if tag == 0x40 {
        if d.len() < 5 {
            return None;
        }
        let iv: u32 = ((d[1] as u32) << 24) | ((d[2] as u32) << 16) | ((d[3] as u32) << 8) | (
        d[4] as u32);
        Some((ClientMsg::WantHeartbeat { interval: iv }, 5))
    } else if tag == 0x80 {
        if d.len() < 7 {
            return None;
        }
        let road: u16 = ((d[1] as u16) << 8) | (d[2] as u16);
        let mile: u16 = ((d[3] as u16) << 8) | (d[4] as u16);
        let limit: u16 = ((d[5] as u16) << 8) | (d[6] as u16);
        Some((ClientMsg::IAmCamera { road, mile, limit }, 7))
    } else if tag == 0x81 {
        if d.len() < 2 {
            return None;
        }
        let cnt = d[1] as usize;
        if d.len() < 2 + 2 * cnt {
            proof {
                lemma_roads_incomplete(d@, 2, d[1] as nat);
            }
            return None;
        }
        let mut roads: Vec<u16> = Vec::new();
        let mut k: usize = 0;
        proof {
            assert(parse_roads_at(d@, 2, d@[1] as nat) == (match parse_roads_at(
                d@,
                2 + 2 * (k as int),
                (d@[1] as nat - k as nat) as nat,
            ) {
                Some((rs, e)) => Some((roads@ + rs, e)),
                None => None::<(Seq<u16>, int)>,
            }));
        }
        while k < cnt
            invariant
                0 <= k <= cnt,
                cnt == d@[1] as nat,
                2 + 2 * cnt <= d@.len(),
                roads@.len() == k,
                parse_roads_at(d@, 2, d@[1] as nat) == (match parse_roads_at(
                    d@,
                    2 + 2 * (k as int),
                    (d@[1] as nat - k as nat) as nat,
                ) {
                    Some((rs, e)) => Some((roads@ + rs, e)),
                    None => None::<(Seq<u16>, int)>,
                }),
            decreases cnt - k,
        {
            let i = 2 + 2 * k;
            let road: u16 = ((d[i] as u16) << 8) | (d[i + 1] as u16);
            proof {
                assert(parse_u16_at(d@, 2 + 2 * (k as int)) == Some(
                    (road, 2 + 2 * (k as int) + 2),
                ));
                assert forall|rs: Seq<u16>| roads@ + (seq![road] + rs) =~= roads@.push(road)
                    + rs by {}
            }
            roads.push(road);
            k = k + 1;
        }
        proof {
            assert(parse_roads_at(d@, 2 + 2 * (cnt as int), 0) == Some(
                (Seq::<u16>::empty(), 2 + 2 * (cnt as int)),
            ));
            assert(roads@ + Seq::<u16>::empty() =~= roads@);
        }
        Some((ClientMsg::IAmDispatcher { roads }, 2 + 2 * cnt))
    } else {
        None
    }
}

/// Too few bytes for the announced number of roads.
proof fn lemma_roads_incomplete(d: Seq<u8>, i: int, cnt: nat)
    requires
        0 <= i <= d.len(),
        i + 2 * cnt > d.len(),
    ensures
        parse_roads_at(d, i, cnt) is None,
    decreases cnt,
{
    if cnt > 0 {
        if i + 2 <= d.len() {
            lemma_roads_incomplete(d, i + 2, (cnt - 1) as nat);
        }
    }
}


/// The bytes of an error report to a client.
pub open spec fn enc_error_msg(msg: Seq<u8>) -> Seq<u8> {
    seq![0x10u8] + enc_u8str(msg)
}

/// The bytes of a ticket on the wire.  The wire speed field is two
/// bytes, so the ticket's speed must fit it.
pub open spec fn enc_ticket_msg(t: TicketView) -> Seq<u8> {
    seq![0x21u8] + enc_u8str(t.plate) + enc_u16(t.road) + enc_u16(t.mile1) + enc_u32(t.timestamp1)
        + enc_u16(t.mile2) + enc_u32(t.timestamp2) + enc_u16(t.speed as u16)
}

/// The single heartbeat byte.
pub open spec fn enc_heartbeat_msg() -> Seq<u8> {
    seq![0x41u8]
}

/// Read one server-to-client message from the front of `d`: an
/// error, a ticket, or a heartbeat.
pub open spec fn spec_parse_server(d: Seq<u8>) -> Option<(ServerMsgView, int)> {
    if d.len() == 0 {
        None
    } else if d[0] == 0x10 {
        match parse_u8str_at(d, 1) {
            Some((msg, i)) => Some((ServerMsgView::Error { msg }, i)),
            None => None,
        }
    } else if d[0] == 0x21 {
        match parse_u8str_at(d, 1) {
            Some((plate, i)) => match parse_u16_at(d, i) {
                Some((road, i2)) => match parse_u16_at(d, i2) {
                    Some((m1, i3)) => match parse_u32_at(d, i3) {
                        Some((t1, i4)) => match parse_u16_at(d, i4) {
                            Some((m2, i5)) => match parse_u32_at(d, i5) {
                                Some((t2, i6)) => match parse_u16_at(d, i6) {
                                    Some((sp, i7)) => Some(
                                        (
                                            ServerMsgView::TicketMsg {
                                                plate,
                                                road,
                                                mile1: m1,
                                                timestamp1: t1,
                                                mile2: m2,
                                                timestamp2: t2,
                                                speed: sp,
                                            },
                                            i7,
                                        ),
                                    ),
                                    None => None,
                                },
                                None => None,
                            },
                            None => None,
                        },
                        None => None,
                    },
                    None => None,
                },
                None => None,
            },
            None => None,
        }
    } else if d[0] == 0x41 {
        Some((ServerMsgView::Heartbeat, 1))
    } else {
        None
    }
}

/// Mathematical image of a server-to-client message.
#[verifier::ext_equal]
pub enum ServerMsgView {
    Error { msg: Seq<u8> },
    TicketMsg {
        plate: Seq<u8>,
        road: u16,
        mile1: u16,
        timestamp1: u32,
        mile2: u16,
        timestamp2: u32,
        speed: u16,
    },
    Heartbeat,
}

/// Framing round-trip for server messages: an encoded error, ticket
/// or heartbeat at the front of any buffer reads back as itself.
#[verifier::rlimit(60)]
#[verifier::spinoff_prover]
pub proof fn lemma_server_msg_roundtrip(m: ServerMsgView, extra: Seq<u8>)
    requires
        m matches ServerMsgView::Error { msg } ==> msg.len() <= 255,
    ensures
        ({
            let e = match m {
                ServerMsgView::Error { msg } => enc_error_msg(msg),
                ServerMsgView::TicketMsg {
                    plate,
                    road,
                    mile1,
                    timestamp1,
                    mile2,
                    timestamp2,
                    speed,
                } => enc_ticket_msg(
                    TicketView {
                        recipient: None,
                        plate,
                        road,
                        mile1,
                        timestamp1,
                        mile2,
                        timestamp2,
                        speed: speed as u32,
                    },
                ),
                ServerMsgView::Heartbeat => enc_heartbeat_msg(),
            };
            (m matches ServerMsgView::TicketMsg { plate, .. } ==> plate.len() <= 255)
                ==> spec_parse_server(e + extra) == Some((m, e.len() as int))
        }),
{
    match m {
        ServerMsgView::Error { msg } => {
            let e = enc_error_msg(msg);
            let d = e + extra;
            assert(d[0] == 0x10);
            assert(d.subrange(1, 2 + msg.len() as int) =~= enc_u8str(msg));
            lemma_parse_u8str_at_enc(d, 1, msg);
        },
        ServerMsgView::TicketMsg { plate, road, mile1, timestamp1, mile2, timestamp2, speed } => {
            if plate.len() <= 255 {
                let tv = TicketView {
                    recipient: None,
                    plate,
                    road,
                    mile1,
                    timestamp1,
                    mile2,
                    timestamp2,
                    speed: speed as u32,
                };
                let e = enc_ticket_msg(tv);
                let d = e + extra;
                assert(d[0] == 0x21);
                assert(d.subrange(1, 2 + plate.len() as int) =~= enc_u8str(plate));
                lemma_parse_u8str_at_enc(d, 1, plate);
                let i = 2 + plate.len() as int;
                assert(d.subrange(i, i + 2) =~= enc_u16(road));
                lemma_parse_u16_at_enc(d, i, road);
                assert(d.subrange(i + 2, i + 4) =~= enc_u16(mile1));
                lemma_parse_u16_at_enc(d, i + 2, mile1);
                assert(d.subrange(i + 4, i + 8) =~= enc_u32(timestamp1));
                lemma_parse_u32_at_enc(d, i + 4, timestamp1);
                assert(d.subrange(i + 8, i + 10) =~= enc_u16(mile2));
                lemma_parse_u16_at_enc(d, i + 8, mile2);
                assert(d.subrange(i + 10, i + 14) =~= enc_u32(timestamp2));
                lemma_parse_u32_at_enc(d, i + 10, timestamp2);
                assert(d.subrange(i + 14, i + 16) =~= enc_u16(speed));
                lemma_parse_u16_at_enc(d, i + 14, speed);
                assert((tv.speed as u16) == speed);
            }
        },
        ServerMsgView::Heartbeat => {
            let d = enc_heartbeat_msg() + extra;
            assert(d[0] == 0x41);
        },
    }
}

/// Write a one-byte-length-prefixed string.
fn push_u8str(out: &mut Vec<u8>, s: &[u8])
    requires
        s@.len() <= 255,
    ensures
        final (out)@ == old(out)@ + enc_u8str(s@),
{
    out.push(s.len() as u8);
    let mut k: usize = 0;
    while k < s.len()
        invariant
            0 <= k <= s@.len(),
            out@ =~= old(out)@ + seq![s@.len() as u8] + s@.subrange(0, k as int),
        decreases s@.len() - k,
    {
        out.push(s[k]);
        proof {
            assert(out@ =~= old(out)@ + seq![s@.len() as u8] + s@.subrange(0, k + 1));
        }
        k = k + 1;
    }
    proof {
        assert(s@.subrange(0, s@.len() as int) =~= s@);
        assert(old(out)@ + seq![s@.len() as u8] + s@ =~= old(out)@ + enc_u8str(s@));
    }
}

fn push_u16be(out: &mut Vec<u8>, v: u16)
    ensures
        final (out)@ == old(out)@ + enc_u16(v),
{
    out.push(((v >> 8) & 0xff) as u8);
    out.push((v & 0xff) as u8);
    proof {
        assert(out@ =~= old(out)@ + enc_u16(v));
    }
}

fn push_u32be(out: &mut Vec<u8>, v: u32)
    ensures
        final (out)@ == old(out)@ + enc_u32(v),
{
    out.push(((v >> 24) & 0xff) as u8);
    out.push(((v >> 16) & 0xff) as u8);
    out.push(((v >> 8) & 0xff) as u8);
    out.push((v & 0xff) as u8);
    proof {
        assert(out@ =~= old(out)@ + enc_u32(v));
    }
}

/// Write an error report.
pub fn encode_error(msg: &[u8]) -> (r: Vec<u8>)
    requires
        msg@.len() <= 255,
    ensures
        r@ == enc_error_msg(msg@),
{
    let mut out: Vec<u8> = Vec::new();
    out.push(0x10);
    push_u8str(&mut out, msg);
    proof {
        assert(out@ =~= enc_error_msg(msg@));
    }
    out
}

/// Write a ticket for the wire.
pub fn encode_ticket(t: &Ticket) -> (r: Vec<u8>)
    requires
        t.plate@.len() <= 255,
        t.speed <= 65535,
    ensures
        r@ == enc_ticket_msg(t@),
{
    let mut out: Vec<u8> = Vec::new();
    out.push(0x21);
    push_u8str(&mut out, t.plate.as_slice());
    push_u16be(&mut out, t.road);
    push_u16be(&mut out, t.mile1);
    push_u32be(&mut out, t.timestamp1);
    push_u16be(&mut out, t.mile2);
    push_u32be(&mut out, t.timestamp2);
    push_u16be(&mut out, t.speed as u16);
    proof {
        assert(out@ =~= enc_ticket_msg(t@));
    }
    out
}

/// Write a heartbeat.
pub fn encode_heartbeat() -> (r: Vec<u8>)
    ensures
        r@ == enc_heartbeat_msg(),
{
    let mut out: Vec<u8> = Vec::new();
    out.push(0x41);
    proof {
        assert(out@ =~= enc_heartbeat_msg());
    }
    out
}

} // verus!
