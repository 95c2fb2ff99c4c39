//! The zones asked for, and the network that they feed.
use std::collections::{HashSet, VecDeque};
use vstd::prelude::*;

use super::network;
use super::network::{Cell, NetView, TrailNetwork};
use super::overpass;
use super::overpass::{parse_overpass, WayModel};
use super::way;
use super::way::Way;
use super::source::OverpassSource;
use super::zone::ZoneKey;
use crate::geo::LatLon;
use crate::json;

verus! {

broadcast use vstd::std_specs::hash::group_hash_axioms;

/// Requests on the wire. The service grants two slots: beyond that a small urgent
/// zone would wait behind a large basin.
pub const MAX_IN_FLIGHT: usize = 2;

/// Nanoseconds past which a request counts as lost: an instance that never
/// answers must not hold a slot for good.
pub const REQUEST_TIMEOUT_NS: u64 = 12_000_000_000;

/// A request on the wire: its zone, its attempt, and when it was sent.
#[derive(Clone, Copy, Debug, PartialEq, Eq, Structural)]
pub struct Flight {
    pub key: ZoneKey,
    pub attempt: usize,
    pub sent_ns: u64,
}

/// What a store stands for, apart from its network.
#[verifier::ext_equal]
pub struct StoreState {
    /// Zones in memory, by their codes.
    pub loaded: Set<u128>,
    /// Zones asked for but not sent, with their attempts.
    pub queue: Seq<(ZoneKey, usize)>,
    pub pending: Seq<Flight>,
    /// Zones given up, and why.
    pub failed: Seq<(ZoneKey, Seq<char>)>,
    pub last_error: Option<Seq<char>>,
    /// Requests to be sent, with their attempts.
    pub outbox: Seq<(ZoneKey, usize)>,
    /// How many instances can be asked.
    pub endpoints: nat,
}

/// A zone is in a queue.
pub open spec fn queued(queue: Seq<(ZoneKey, usize)>, key: ZoneKey) -> bool {
    exists|i: int| 0 <= i < queue.len() && (#[trigger] queue[i]).0 == key
}

/// A request for a zone is on the wire.
pub open spec fn flying(pending: Seq<Flight>, key: ZoneKey) -> bool {
    exists|i: int| 0 <= i < pending.len() && (#[trigger] pending[i]).key == key
}

/// A zone is among those given up.
pub open spec fn given_up(failed: Seq<(ZoneKey, Seq<char>)>, key: ZoneKey) -> bool {
    exists|i: int| 0 <= i < failed.len() && (#[trigger] failed[i]).0 == key
}

/// The requests on the wire but for those of a zone.
pub open spec fn landed(pending: Seq<Flight>, key: ZoneKey) -> Seq<Flight>
    decreases pending.len(),
{
    if pending.len() == 0 {
        seq![]
    } else {
        let rest = landed(pending.drop_last(), key);
        if pending.last().key == key {
            rest
        } else {
            rest.push(pending.last())
        }
    }
}

/// The zones given up but for one.
pub open spec fn pardoned(failed: Seq<(ZoneKey, Seq<char>)>, key: ZoneKey) -> Seq<
    (ZoneKey, Seq<char>),
>
    decreases failed.len(),
{
    if failed.len() == 0 {
        seq![]
    } else {
        let rest = pardoned(failed.drop_last(), key);
        if failed.last().0 == key {
            rest
        } else {
            rest.push(failed.last())
        }
    }
}

/// The requests on the wire that are too old, with their attempts.
pub open spec fn stale(pending: Seq<Flight>, now_ns: u64) -> Seq<(ZoneKey, usize)>
    decreases pending.len(),
{
    if pending.len() == 0 {
        seq![]
    } else {
        let rest = stale(pending.drop_last(), now_ns);
        let f = pending.last();
        if now_ns - f.sent_ns > REQUEST_TIMEOUT_NS {
            rest.push((f.key, f.attempt))
        } else {
            rest
        }
    }
}

/// What is said of a request that was not answered.
pub open spec fn timeout_text() -> Seq<char> {
    "no answer within 12 s"@
}

impl StoreState {
    /// A zone is loaded, on the wire, queued or given up: nothing more is sent
    /// for it now.
    pub open spec fn settled(self, key: ZoneKey) -> bool {
        self.loaded.contains(key.code_of()) || flying(self.pending, key) || queued(self.queue, key)
            || given_up(self.failed, key)
    }

    /// Queued zones go out while slots are free.
    pub open spec fn dispatched(self, now_ns: u64) -> Self
        decreases self.queue.len(),
    {
        if self.pending.len() >= MAX_IN_FLIGHT || self.queue.len() == 0 {
            self
        } else {
            let (key, attempt) = self.queue[0];
            (StoreState {
                queue: self.queue.skip(1),
                pending: self.pending.push(Flight { key, attempt, sent_ns: now_ns }),
                outbox: self.outbox.push((key, attempt)),
                ..self
            }).dispatched(now_ns)
        }
    }

    /// A zone is asked for. Small zones, which a person waits for, go ahead of
    /// large ones.
    pub open spec fn spawned(self, key: ZoneKey, attempt: usize, now_ns: u64) -> Self {
        (StoreState {
            queue: if key.level == 0 {
                seq![(key, attempt)] + self.queue
            } else {
                self.queue.push((key, attempt))
            },
            ..self
        }).dispatched(now_ns)
    }

    /// A zone is asked for, unless it is settled.
    pub open spec fn ensured(self, key: ZoneKey, now_ns: u64) -> Self {
        if self.settled(key) {
            self
        } else {
            self.spawned(key, 0, now_ns)
        }
    }

    /// Zones are asked for one after the other.
    pub open spec fn all_ensured(self, keys: Seq<ZoneKey>, now_ns: u64) -> Self
        decreases keys.len(),
    {
        if keys.len() == 0 {
            self
        } else {
            self.all_ensured(keys.drop_last(), now_ns).ensured(keys.last(), now_ns)
        }
    }

    /// Zones are still to come.
    pub open spec fn waiting(self) -> bool {
        self.pending.len() > 0 || self.queue.len() > 0
    }

    /// How many of some zones are asked for when they are one after the other.
    pub open spec fn asked_of(self, keys: Seq<ZoneKey>, now_ns: u64) -> nat
        decreases keys.len(),
    {
        if keys.len() == 0 {
            0
        } else {
            let less = keys.drop_last();
            self.asked_of(less, now_ns) + if self.all_ensured(less, now_ns).settled(keys.last()) {
                0nat
            } else {
                1nat
            }
        }
    }

    /// The zones up to the one at which `max_new` were asked for.
    pub open spec fn until_enough(self, keys: Seq<ZoneKey>, max_new: nat, now_ns: u64) -> Seq<
        ZoneKey,
    >
        decreases keys.len(),
    {
        if keys.len() == 0 {
            keys
        } else if self.asked_of(keys.drop_last(), now_ns) >= max_new {
            self.until_enough(keys.drop_last(), max_new, now_ns)
        } else {
            keys
        }
    }

    /// Zones are no longer given up.
    pub open spec fn all_pardoned(self, keys: Seq<ZoneKey>) -> Self
        decreases keys.len(),
    {
        if keys.len() == 0 {
            self
        } else {
            let s = self.all_pardoned(keys.drop_last());
            StoreState { failed: pardoned(s.failed, keys.last()), ..s }
        }
    }

    /// Zones are asked for anew, one after the other.
    pub open spec fn all_spawned(self, keys: Seq<ZoneKey>, now_ns: u64) -> Self
        decreases keys.len(),
    {
        if keys.len() == 0 {
            self
        } else {
            self.all_spawned(keys.drop_last(), now_ns).spawned(keys.last(), 0, now_ns)
        }
    }

    /// An attempt came to nothing: the next instance is asked, or the zone is
    /// given up after the last one.
    pub open spec fn attempt_failed(
        self,
        key: ZoneKey,
        attempt: usize,
        why: Seq<char>,
        now_ns: u64,
    ) -> Self {
        let s = StoreState { pending: landed(self.pending, key), ..self };
        if attempt + 1 < self.endpoints {
            s.spawned(key, (attempt + 1) as usize, now_ns)
        } else {
            StoreState { failed: s.failed.push((key, why)), last_error: Some(why), ..s }
        }
    }

    /// A reply is one that is waited for: of the attempt on the wire, and not of
    /// one abandoned before.
    pub open spec fn waited_for(self, key: ZoneKey, attempt: usize) -> bool {
        exists|i: int|
            0 <= i < self.pending.len() && (#[trigger] self.pending[i]).key == key
                && self.pending[i].attempt == attempt
    }

    /// What a reply does, given what it holds.
    pub open spec fn replied(
        self,
        key: ZoneKey,
        attempt: usize,
        answer: Result<Seq<WayModel>, Seq<char>>,
        now_ns: u64,
    ) -> Self {
        if !self.waited_for(key, attempt) {
            self
        } else {
            match answer {
                Ok(_) => StoreState {
                    pending: landed(self.pending, key),
                    loaded: self.loaded.insert(key.code_of()),
                    ..self
                },
                Err(e) => self.attempt_failed(key, attempt, e, now_ns),
            }
        }
    }

    /// Requests that are too old are abandoned, one after the other.
    pub open spec fn all_expired(self, old: Seq<(ZoneKey, usize)>, now_ns: u64) -> Self
        decreases old.len(),
    {
        if old.len() == 0 {
            self
        } else {
            self.all_expired(old.drop_last(), now_ns).attempt_failed(
                old.last().0,
                old.last().1,
                timeout_text(),
                now_ns,
            )
        }
    }

    /// No zone is in two places at once, and no more requests are on the wire
    /// than allowed.
    pub open spec fn ok(self) -> bool {
        &&& self.pending.len() <= MAX_IN_FLIGHT
        &&& forall|i: int, j: int|
            0 <= i < j < self.pending.len() ==> (#[trigger] self.pending[i]).key != (
            #[trigger] self.pending[j]).key
        &&& forall|i: int, j: int|
            0 <= i < j < self.queue.len() ==> (#[trigger] self.queue[i]).0 != (
            #[trigger] self.queue[j]).0
        &&& forall|i: int, j: int|
            0 <= i < j < self.failed.len() ==> (#[trigger] self.failed[i]).0 != (
            #[trigger] self.failed[j]).0
        &&& forall|k: ZoneKey| #[trigger]
            flying(self.pending, k) ==> !queued(self.queue, k) && !given_up(self.failed, k)
                && !self.loaded.contains(k.code_of())
        &&& forall|k: ZoneKey| #[trigger]
            queued(self.queue, k) ==> !given_up(self.failed, k) && !self.loaded.contains(
                k.code_of(),
            )
        &&& forall|k: ZoneKey| #[trigger]
            given_up(self.failed, k) ==> !self.loaded.contains(k.code_of())
    }
}

// ---------------------------------------------------------------------------
// What replies add to the network
// ---------------------------------------------------------------------------

/// A reply: zone, attempt, and body.
pub type ZoneReply = (ZoneKey, usize, Result<String, String>);

/// What the body of a reply holds.
pub open spec fn answer_in(body: Result<String, String>) -> Result<Seq<WayModel>, Seq<char>> {
    match body {
        Ok(s) => overpass::answer_of(json::parsed(s@)),
        Err(e) => Err(e@),
    }
}

/// Ways with the cells of their points, as they were read.
pub open spec fn all_read<F: Fn(LatLon) -> Cell>(
    added: Seq<(Way, Seq<Cell>)>,
    ways: Seq<WayModel>,
    cell: F,
) -> bool {
    &&& added.len() == ways.len()
    &&& forall|i: int|
        0 <= i < ways.len() ==> overpass::model((#[trigger] added[i]).0) == ways[i] && cells_by(
            added[i].0.points@,
            added[i].1,
            cell,
        )
}

/// The cells of points.
pub open spec fn cells_by<F: Fn(LatLon) -> Cell>(
    points: Seq<LatLon>,
    cells: Seq<Cell>,
    cell: F,
) -> bool {
    &&& cells.len() == points.len()
    &&& forall|i: int|
        0 <= i < points.len() ==> call_ensures(cell, (#[trigger] points[i],), cells[i])
}

/// One reply was taken in.
pub open spec fn stepped<F: Fn(LatLon) -> Cell>(
    s: StoreState,
    n: NetView,
    reply: ZoneReply,
    s2: StoreState,
    n2: NetView,
    cell: F,
    now_ns: u64,
) -> bool {
    &&& s2 == s.replied(reply.0, reply.1, answer_in(reply.2), now_ns)
    &&& if s.waited_for(reply.0, reply.1) && answer_in(reply.2) is Ok {
        exists|added: Seq<(Way, Seq<Cell>)>| #[trigger]
            all_read(added, answer_in(reply.2)->Ok_0, cell) && n2 == network::all_admitted(n, added)
    } else {
        n2 == n
    }
}

/// Replies were taken in one after the other, by way of these states.
pub open spec fn ran<F: Fn(LatLon) -> Cell>(
    trace: Seq<(StoreState, NetView)>,
    replies: Seq<ZoneReply>,
    cell: F,
    now_ns: u64,
) -> bool {
    &&& trace.len() == replies.len() + 1
    &&& forall|i: int|
        0 <= i < replies.len() ==> #[trigger] stepped(
            trace[i].0,
            trace[i].1,
            replies[i],
            trace[i + 1].0,
            trace[i + 1].1,
            cell,
            now_ns,
        )
}

/// A reply brought a zone.
pub open spec fn brought(s: StoreState, reply: ZoneReply) -> bool {
    s.waited_for(reply.0, reply.1) && answer_in(reply.2) is Ok
}

// ---------------------------------------------------------------------------
// The store
// ---------------------------------------------------------------------------

/// The zones of a store: those in memory, on their way, waiting and given up.
pub struct Zones {
    loaded: HashSet<u128>,
    queue: VecDeque<(ZoneKey, usize)>,
    pending: Vec<Flight>,
    failed: Vec<(ZoneKey, String)>,
    last_error: Option<String>,
    outbox: Vec<(ZoneKey, usize)>,
    endpoints: usize,
}

/// The zones asked for, and the network that they feed.
pub struct TrailStore {
    pub net: TrailNetwork,
    pub zones: Zones,
}

spec fn failed_view(failed: Seq<(ZoneKey, String)>) -> Seq<(ZoneKey, Seq<char>)> {
    Seq::new(failed.len(), |i: int| (failed[i].0, failed[i].1@))
}

impl View for Zones {
    type V = StoreState;

    closed spec fn view(&self) -> StoreState {
        StoreState {
            loaded: self.loaded@,
            queue: self.queue@,
            pending: self.pending@,
            failed: failed_view(self.failed@),
            last_error: way::text_of(self.last_error),
            outbox: self.outbox@,
            endpoints: self.endpoints as nat,
        }
    }
}

impl View for TrailStore {
    type V = StoreState;

    open spec fn view(&self) -> StoreState {
        self.zones@
    }
}

impl TrailStore {
    /// The network.
    pub open spec fn network(&self) -> TrailNetwork {
        self.net
    }

    /// The store and its network are in good order.
    pub closed spec fn wf(&self) -> bool {
        &&& self.net.wf()
        &&& self@.ok()
    }

    /// What is known of a store in good order.
    pub proof fn lemma_wf(&self)
        requires
            self.wf(),
        ensures
            self.network().wf(),
            self@.ok(),
    {
    }

    /// An empty store that can ask some instances.
    pub fn new(endpoints: usize) -> (s: Self)
        ensures
            s.wf(),
            s.network().list() == Seq::<Way>::empty(),
            s@ == (StoreState {
                loaded: Set::empty(),
                queue: seq![],
                pending: seq![],
                failed: seq![],
                last_error: None,
                outbox: seq![],
                endpoints: endpoints as nat,
            }),
    {
        let s = TrailStore {
            net: TrailNetwork::default(),
            zones: Zones {
                loaded: HashSet::new(),
                queue: VecDeque::new(),
                pending: Vec::new(),
                failed: Vec::new(),
                last_error: None,
                outbox: Vec::new(),
                endpoints,
            },
        };
        assert(s@.failed =~= seq![]);
        s
    }

    /// A store over the public instances.
    pub fn overpass() -> (s: Self)
        ensures
            s.wf(),
            s.network().list() == Seq::<Way>::empty(),
            s@ == (StoreState {
                loaded: Set::empty(),
                queue: seq![],
                pending: seq![],
                failed: seq![],
                last_error: None,
                outbox: seq![],
                endpoints: 3,
            }),
    {
        Self::new(OverpassSource::default().endpoint_count())
    }

    /// The network.
    pub fn net(&self) -> (n: &TrailNetwork)
        ensures
            *n == self.network(),
    {
        &self.net
    }

    /// What went wrong last.
    pub fn last_error(&self) -> (r: &Option<String>)
        ensures
            way::text_of(*r) == self@.last_error,
    {
        &self.zones.last_error
    }

    /// Whether a position is covered by a zone in memory, of either size: a
    /// large zone covers the fine ones inside it.
    pub fn zone_ready(&self, fine: ZoneKey, coarse: ZoneKey) -> (b: bool)
        ensures
            b == (self@.loaded.contains(fine.code_of()) || self@.loaded.contains(
                coarse.code_of(),
            )),
    {
        self.zones.loaded.contains(&fine.code()) || self.zones.loaded.contains(&coarse.code())
    }

    /// Why a zone was given up, if it was.
    pub fn zone_failed(&self, key: ZoneKey) -> (r: Option<&str>)
        requires
            self.wf(),
        ensures
            r is Some <==> given_up(self@.failed, key),
            r matches Some(e) ==> self@.failed.contains((key, e@)),
    {
        let mut i: usize = 0;
        while i < self.zones.failed.len()
            invariant
                i <= self.zones.failed@.len(),
                forall|k: int| 0 <= k < i ==> (#[trigger] self@.failed[k]).0 != key,
            decreases self.zones.failed@.len() - i,
        {
            assert(self@.failed[i as int] == (self.zones.failed@[i as int].0, self.zones.failed@[i as int].1@));
            if self.zones.failed[i].0 == key {
                return Some(self.zones.failed[i].1.as_str());
            }
            i = i + 1;
        }
        None
    }

    fn is_flying(&self, key: ZoneKey) -> (b: bool)
        ensures
            b == flying(self@.pending, key),
    {
        let mut i: usize = 0;
        while i < self.zones.pending.len()
            invariant
                i <= self.zones.pending@.len(),
                forall|k: int| 0 <= k < i ==> (#[trigger] self@.pending[k]).key != key,
            decreases self.zones.pending@.len() - i,
        {
            assert(self@.pending[i as int] == self.zones.pending@[i as int]);
            if self.zones.pending[i].key == key {
                return true;
            }
            i = i + 1;
        }
        false
    }

    fn is_queued(&self, key: ZoneKey) -> (b: bool)
        ensures
            b == queued(self@.queue, key),
    {
        let mut i: usize = 0;
        while i < self.zones.queue.len()
            invariant
                i <= self.zones.queue@.len(),
                forall|k: int| 0 <= k < i ==> (#[trigger] self@.queue[k]).0 != key,
            decreases self.zones.queue@.len() - i,
        {
            assert(self@.queue[i as int] == self.zones.queue@[i as int]);
            if self.zones.queue[i].0 == key {
                return true;
            }
            i = i + 1;
        }
        false
    }

    /// Whether a zone is loaded, on the wire, queued or given up.
    pub fn zone_settled(&self, key: ZoneKey) -> (b: bool)
        requires
            self.wf(),
        ensures
            b == self@.settled(key),
    {
        self.zones.loaded.contains(&key.code()) || self.is_flying(key) || self.is_queued(key)
            || self.zone_failed(key).is_some()
    }

    /// Asks for the zone of a position if none is in memory. A loaded zone is
    /// never asked for again.
    pub fn ensure(&mut self, fine: ZoneKey, coarse: ZoneKey, now_ns: u64)
        requires
            old(self).wf(),
        ensures
            final(self).wf(),
            final(self).network() == old(self).network(),
            final(self)@ == if old(self)@.loaded.contains(fine.code_of()) || old(self)@.loaded.contains(coarse.code_of()) {
                old(self)@
            } else {
                old(self)@.ensured(fine, now_ns)
            },
    {
        if self.zone_ready(fine, coarse) {
            return ;
        }
        self.ensure_key(fine, now_ns);
    }

    fn ensure_key(&mut self, key: ZoneKey, now_ns: u64)
        requires
            old(self).wf(),
        ensures
            final(self).wf(),
            final(self).network() == old(self).network(),
            final(self)@ == old(self)@.ensured(key, now_ns),
    {
        if self.zone_settled(key) {
            return ;
        }
        self.spawn(key, 0, now_ns);
    }

    /// Asks for the first `max_zones` of some zones, and tells how many were not
    /// settled.
    pub fn ensure_zones(&mut self, keys: &Vec<ZoneKey>, max_zones: usize, now_ns: u64) -> (
        asked: usize)
        requires
            old(self).wf(),
        ensures
            final(self).wf(),
            final(self).network() == old(self).network(),
            ({
                let first = keys@.take(
                    vstd::math::min(max_zones as int, keys@.len() as int),
                );
                &&& final(self)@ == old(self)@.all_ensured(first, now_ns)
                &&& asked == old(self)@.asked_of(first, now_ns)
            }),
    {
        let ghost was = self@;
        let n: usize = if max_zones < keys.len() {
            max_zones
        } else {
            keys.len()
        };
        let mut asked: usize = 0;
        let mut i: usize = 0;
        while i < n
            invariant
                was == old(self)@,
                i <= n <= keys@.len(),
                asked <= i,
                self.wf(),
                self.network() == old(self).network(),
                self@ == was.all_ensured(keys@.take(i as int), now_ns),
                asked == was.asked_of(keys@.take(i as int), now_ns),
            decreases n - i,
        {
            assert(keys@.take(i + 1).drop_last() =~= keys@.take(i as int));
            if !self.zone_settled(keys[i]) {
                asked = asked + 1;
            }
            self.ensure_key(keys[i], now_ns);
            i = i + 1;
        }
        asked
    }

    /// Asks for zones that are not settled, at most `max_new` of them, and tells
    /// how many. The cap is on new requests, not on the list: an area can be
    /// grown a few zones at a time.
    pub fn ensure_some(&mut self, keys: &Vec<ZoneKey>, max_new: usize, now_ns: u64) -> (
        asked: usize)
        requires
            old(self).wf(),
        ensures
            final(self).wf(),
            final(self).network() == old(self).network(),
            ({
                let enough = old(self)@.until_enough(keys@, max_new as nat, now_ns);
                &&& final(self)@ == old(self)@.all_ensured(enough, now_ns)
                &&& asked == old(self)@.asked_of(enough, now_ns)
                &&& asked <= max_new
            }),
    {
        let ghost was = self@;
        let mut asked: usize = 0;
        let mut i: usize = 0;
        while i < keys.len() && asked < max_new
            invariant
                was == old(self)@,
                i <= keys@.len(),
                asked <= i,
                asked <= max_new,
                self.wf(),
                self.network() == old(self).network(),
                self@ == was.all_ensured(keys@.take(i as int), now_ns),
                asked == was.asked_of(keys@.take(i as int), now_ns),
                i > 0 ==> was.asked_of(keys@.take(i - 1), now_ns) < max_new,
            decreases keys@.len() - i,
        {
            assert(keys@.take(i + 1).drop_last() =~= keys@.take(i as int));
            assert(keys@.take((i + 1) - 1) =~= keys@.take(i as int));
            if !self.zone_settled(keys[i]) {
                self.ensure_key(keys[i], now_ns);
                asked = asked + 1;
            }
            i = i + 1;
        }
        proof {
            lemma_until_enough(was, keys@, i as int, max_new as nat, now_ns);
        }
        asked
    }

    /// How many of some zones are in memory.
    pub fn zones_loaded(&self, keys: &Vec<ZoneKey>) -> (n: usize)
        ensures
            n == loaded_among(self@.loaded, keys@),
    {
        let mut n: usize = 0;
        let mut i: usize = 0;
        while i < keys.len()
            invariant
                i <= keys@.len(),
                n <= i,
                n == loaded_among(self@.loaded, keys@.take(i as int)),
            decreases keys@.len() - i,
        {
            assert(keys@.take(i + 1).drop_last() =~= keys@.take(i as int));
            if self.zones.loaded.contains(&keys[i].code()) {
                n = n + 1;
            }
            i = i + 1;
        }
        assert(keys@.take(i as int) =~= keys@);
        n
    }

    /// Asks for the first `max_zones` of the zones of an area, and tells how
    /// many. Zones given up are tried again: asking again means that.
    pub fn ensure_area(&mut self, keys: &Vec<ZoneKey>, max_zones: usize, now_ns: u64) -> (
        asked: usize)
        requires
            old(self).wf(),
        ensures
            final(self).wf(),
            final(self).network() == old(self).network(),
            ({
                let first = keys@.take(
                    vstd::math::min(max_zones as int, keys@.len() as int),
                );
                let s = old(self)@.all_pardoned(first);
                let enough = s.until_enough(first, max_zones as nat, now_ns);
                &&& final(self)@ == s.all_ensured(enough, now_ns)
                &&& asked == s.asked_of(enough, now_ns)
            }),
    {
        let ghost was = self@;
        let mut first: Vec<ZoneKey> = Vec::new();
        let mut i: usize = 0;
        while i < keys.len() && i < max_zones
            invariant
                was == old(self)@,
                i <= keys@.len(),
                i <= max_zones,
                first@ == keys@.take(i as int),
                self.wf(),
                self.network() == old(self).network(),
                self@ == was.all_pardoned(keys@.take(i as int)),
            decreases keys@.len() - i,
        {
            assert(keys@.take(i + 1).drop_last() =~= keys@.take(i as int));
            first.push(keys[i]);
            assert(first@ =~= keys@.take(i + 1));
            self.pardon(keys[i]);
            i = i + 1;
        }
        self.ensure_some(&first, max_zones, now_ns)
    }

    /// A zone is no longer given up.
    fn pardon(&mut self, key: ZoneKey)
        requires
            old(self).wf(),
        ensures
            final(self).wf(),
            final(self).network() == old(self).network(),
            final(self)@ == (StoreState { failed: pardoned(old(self)@.failed, key), ..old(self)@ }),
    {
        let ghost was = *self;
        let mut kept: Vec<(ZoneKey, String)> = Vec::new();
        let mut i: usize = 0;
        assert(failed_view(kept@) =~= pardoned(was@.failed.take(0), key));
        while i < self.zones.failed.len()
            invariant
                *self == was,
                i <= self.zones.failed@.len(),
                failed_view(kept@) == pardoned(was@.failed.take(i as int), key),
            decreases self.zones.failed@.len() - i,
        {
            assert(was@.failed.take(i + 1).drop_last() =~= was@.failed.take(i as int));
            assert(was@.failed[i as int] == (was.zones.failed@[i as int].0, was.zones.failed@[i as int].1@));
            if self.zones.failed[i].0 != key {
                let ghost had = kept@;
                let item: (ZoneKey, String) = (self.zones.failed[i].0, self.zones.failed[i].1.clone());
                kept.push(item);
                assert(failed_view(kept@) =~= failed_view(had).push((item.0, item.1@)));
            }
            i = i + 1;
        }
        assert(was@.failed.take(i as int) =~= was@.failed);
        self.zones.failed = kept;
        proof {
            lemma_pardoned(was@.failed, key);
            assert(self@.ok());
        }
    }

    /// Asks for every zone given up once more.
    pub fn retry_failed(&mut self, now_ns: u64)
        requires
            old(self).wf(),
        ensures
            final(self).wf(),
            final(self).network() == old(self).network(),
            final(self)@ == (StoreState { failed: seq![], last_error: None, ..old(self)@ }).all_spawned(
                failed_keys(old(self)@.failed),
                now_ns,
            ),
    {
        let ghost was = *self;
        let mut zones: Vec<ZoneKey> = Vec::new();
        let mut i: usize = 0;
        while i < self.zones.failed.len()
            invariant
                *self == was,
                i <= self.zones.failed@.len(),
                zones@ == failed_keys(was@.failed).take(i as int),
            decreases self.zones.failed@.len() - i,
        {
            assert(was@.failed[i as int].0 == was.zones.failed@[i as int].0);
            zones.push(self.zones.failed[i].0);
            assert(zones@ =~= failed_keys(was@.failed).take(i + 1));
            i = i + 1;
        }
        assert(failed_keys(was@.failed).take(i as int) =~= failed_keys(was@.failed));
        self.zones.failed = Vec::new();
        self.zones.last_error = None;
        let ghost cleared = self@;
        proof {
            assert(cleared.failed =~= seq![]);
            assert(cleared == (StoreState { failed: seq![], last_error: None, ..was@ }));
            assert(forall|k: ZoneKey| !given_up(cleared.failed, k));
            assert(cleared.ok());
            assert forall|j: int| 0 <= j < zones@.len() implies !cleared.settled(
                #[trigger] zones@[j],
            ) by {
                assert(was@.failed[j].0 == zones@[j]);
                assert(given_up(was@.failed, zones@[j]));
            }
            assert forall|a: int, b: int| 0 <= a < b < zones@.len() implies zones@[a]
                != zones@[b] by {
                assert(was@.failed[a].0 != was@.failed[b].0);
            }
        }
        let mut j: usize = 0;
        while j < zones.len()
            invariant
                self.wf(),
                self.network() == was.network(),
                j <= zones@.len(),
                self@ == cleared.all_spawned(zones@.take(j as int), now_ns),
                forall|k: int|
                    j <= k < zones@.len() ==> !self@.settled(#[trigger] zones@[k]),
                forall|a: int, b: int| 0 <= a < b < zones@.len() ==> zones@[a] != zones@[b],
            decreases zones@.len() - j,
        {
            assert(zones@.take(j + 1).drop_last() =~= zones@.take(j as int));
            let ghost before = self@;
            self.spawn(zones[j], 0, now_ns);
            proof {
                assert forall|k: int| j + 1 <= k < zones@.len() implies !self@.settled(
                    #[trigger] zones@[k],
                ) by {
                    assert(!before.settled(zones@[k]));
                    lemma_spawned(before, zones@[j as int], 0, now_ns);
                    assert(zones@[j as int] != zones@[k]);
                    assert(self@.settled(zones@[k]) <==> before.settled(zones@[k]) || zones@[k]
                        == zones@[j as int]);
                }
            }
            j = j + 1;
        }
        assert(zones@.take(j as int) =~= zones@);
    }

    /// Queues a zone, and sends what can be sent.
    fn spawn(&mut self, key: ZoneKey, attempt: usize, now_ns: u64)
        requires
            old(self).wf(),
            !old(self)@.settled(key),
        ensures
            final(self).wf(),
            final(self).network() == old(self).network(),
            final(self)@ == old(self)@.spawned(key, attempt, now_ns),
    {
        let ghost was = self@;
        if key.level == 0 {
            self.zones.queue.push_front((key, attempt));
        } else {
            self.zones.queue.push_back((key, attempt));
        }
        proof {
            lemma_queued(was, self@, key, attempt);
            lemma_spawned(was, key, attempt, now_ns);
        }
        self.dispatch(now_ns);
    }

    /// Sends queued zones while slots are free.
    fn dispatch(&mut self, now_ns: u64)
        requires
            old(self).wf(),
        ensures
            final(self).wf(),
            final(self).network() == old(self).network(),
            final(self)@ == old(self)@.dispatched(now_ns),
    {
        let ghost goal = self@.dispatched(now_ns);
        while self.zones.pending.len() < MAX_IN_FLIGHT
            invariant
                self.wf(),
                self.network() == old(self).network(),
                self@.dispatched(now_ns) == goal,
                goal == old(self)@.dispatched(now_ns),
            decreases self@.queue.len(),
        {
            let ghost was = self@;
            match self.zones.queue.pop_front() {
                Some((key, attempt)) => {
                    self.zones.pending.push(Flight { key, attempt, sent_ns: now_ns });
                    self.zones.outbox.push((key, attempt));
                    proof {
                        assert(self@.queue =~= was.queue.skip(1));
                        lemma_sent(was, self@, now_ns);
                    }
                },
                None => {
                    assert(self@.queue =~= was.queue);
                    return ;
                },
            }
        }
    }

    /// Hands out the requests to be sent, each once.
    pub fn take_requests(&mut self) -> (v: Vec<(ZoneKey, usize)>)
        requires
            old(self).wf(),
        ensures
            final(self).wf(),
            final(self).network() == old(self).network(),
            v@ == old(self)@.outbox,
            final(self)@ == (StoreState { outbox: seq![], ..old(self)@ }),
    {
        let mut out: Vec<(ZoneKey, usize)> = Vec::new();
        out.append(&mut self.zones.outbox);
        assert(out@ =~= old(self)@.outbox);
        assert(self@.outbox =~= seq![]);
        out
    }

    /// Takes replies in, abandons requests that are too old, and sends what can
    /// be sent. Tells whether new zones entered the network. `cell` gives the
    /// cell that a position lies in.
    pub fn pump<F: Fn(LatLon) -> Cell>(&mut self, replies: &Vec<ZoneReply>, now_ns: u64, cell: F) -> (
        changed: bool)
        requires
            old(self).wf(),
            forall|p: LatLon| call_requires(cell, (p,)),
        ensures
            final(self).wf(),
            exists|trace: Seq<(StoreState, NetView)>| #[trigger]
                ran(trace, replies@, cell, now_ns) && trace[0] == (
                    old(self)@,
                    network::net_view(&old(self).network()),
                ) && ({
                    let last = trace[replies@.len() as int];
                    &&& final(self)@ == last.0.all_expired(
                        stale(last.0.pending, now_ns),
                        now_ns,
                    ).dispatched(now_ns)
                    &&& network::net_view(&final(self).network()) == last.1
                    &&& changed == (exists|i: int|
                        0 <= i < replies@.len() && #[trigger] brought(trace[i].0, replies@[i]))
                }),
    {
        let ghost mut trace: Seq<(StoreState, NetView)> = seq![
            (self@, network::net_view(&self.net)),
        ];
        let mut changed: bool = false;
        let mut i: usize = 0;
        while i < replies.len()
            invariant
                i <= replies@.len(),
                self.wf(),
                forall|p: LatLon| call_requires(cell, (p,)),
                trace.len() == i + 1,
                trace[0] == (old(self)@, network::net_view(&old(self).network())),
                trace[i as int] == (self@, network::net_view(&self.net)),
                forall|k: int|
                    0 <= k < i ==> #[trigger] stepped(
                        trace[k].0,
                        trace[k].1,
                        replies@[k],
                        trace[k + 1].0,
                        trace[k + 1].1,
                        cell,
                        now_ns,
                    ),
                changed == (exists|k: int|
                    0 <= k < i && #[trigger] brought(trace[k].0, replies@[k])),
            decreases replies@.len() - i,
        {
            let ghost had = trace;
            let ghost before = changed;
            if self.receive(&replies[i], now_ns, &cell) {
                changed = true;
            }
            proof {
                trace = trace.push((self@, network::net_view(&self.net)));
                assert forall|k: int| 0 <= k < i + 1 implies #[trigger] stepped(
                    trace[k].0,
                    trace[k].1,
                    replies@[k],
                    trace[k + 1].0,
                    trace[k + 1].1,
                    cell,
                    now_ns,
                ) by {
                    if k < i {
                        assert(stepped(
                            had[k].0,
                            had[k].1,
                            replies@[k],
                            had[k + 1].0,
                            had[k + 1].1,
                            cell,
                            now_ns,
                        ));
                    }
                }
                if before {
                    let k = choose|k: int| 0 <= k < i && #[trigger] brought(had[k].0, replies@[k]);
                    assert(brought(trace[k].0, replies@[k]));
                }
                if changed && !before {
                    assert(brought(trace[i as int].0, replies@[i as int]));
                }
                if exists|k: int| 0 <= k < i + 1 && #[trigger] brought(trace[k].0, replies@[k]) {
                    let k = choose|k: int|
                        0 <= k < i + 1 && #[trigger] brought(trace[k].0, replies@[k]);
                    if k < i {
                        assert(brought(had[k].0, replies@[k]));
                    }
                }
            }
            i = i + 1;
        }
        assert(ran(trace, replies@, cell, now_ns));
        self.expire(now_ns);
        self.dispatch(now_ns);
        changed
    }

    /// Takes one reply in.
    fn receive<F: Fn(LatLon) -> Cell>(&mut self, reply: &ZoneReply, now_ns: u64, cell: &F) -> (
        changed: bool)
        requires
            old(self).wf(),
            forall|p: LatLon| call_requires(*cell, (p,)),
        ensures
            final(self).wf(),
            stepped(
                old(self)@,
                network::net_view(&old(self).network()),
                *reply,
                final(self)@,
                network::net_view(&final(self).network()),
                *cell,
                now_ns,
            ),
            changed == brought(old(self)@, *reply),
    {
        let key: ZoneKey = reply.0;
        let attempt: usize = reply.1;
        if !self.is_waited_for(key, attempt) {
            return false;
        }
        let ghost first = self@;
        proof {
            let i = choose|i: int|
                0 <= i < first.pending.len() && (#[trigger] first.pending[i]).key == key
                    && first.pending[i].attempt == attempt;
            assert(first.pending[i].key == key);
            assert(flying(first.pending, key));
        }
        let answer: Result<Vec<Way>, String> = match &reply.2 {
            Ok(body) => parse_overpass(body.as_str()),
            Err(e) => Err(e.clone()),
        };
        match answer {
            Ok(ways) => {
                let ghost models = overpass::models(ways@);
                self.land(key);
                self.take_in(ways, cell);
                let ghost was = self@;
                let ghost net = self.network();
                self.zones.loaded.insert(key.code());
                proof {
                    assert(self.network() == net);
                    let added = choose|added: Seq<(Way, Seq<Cell>)>| #[trigger]
                        all_read(added, models, *cell) && network::net_view(&net)
                            == network::all_admitted(
                            network::net_view(&old(self).network()),
                            added,
                        );
                    assert(all_read(added, models, *cell));
                    lemma_loaded(was, self@, key);
                    assert(self@ == first.replied(key, attempt, answer_in(reply.2), now_ns));
                    assert(answer_in(reply.2) == Ok::<Seq<WayModel>, Seq<char>>(models));
                    assert(first.waited_for(reply.0, reply.1));
                    assert(network::net_view(&self.network()) == network::all_admitted(
                        network::net_view(&old(self).network()),
                        added,
                    ));
                    assert(all_read(added, answer_in(reply.2)->Ok_0, *cell));
                    assert(stepped(
                        old(self)@,
                        network::net_view(&old(self).network()),
                        *reply,
                        self@,
                        network::net_view(&self.network()),
                        *cell,
                        now_ns,
                    ));
                }
                true
            },
            Err(e) => {
                self.fail_attempt(key, attempt, e, now_ns);
                false
            },
        }
    }

    fn is_waited_for(&self, key: ZoneKey, attempt: usize) -> (b: bool)
        ensures
            b == self@.waited_for(key, attempt),
    {
        let mut i: usize = 0;
        while i < self.zones.pending.len()
            invariant
                i <= self.zones.pending@.len(),
                forall|k: int|
                    0 <= k < i ==> !((#[trigger] self@.pending[k]).key == key
                        && self@.pending[k].attempt == attempt),
            decreases self.zones.pending@.len() - i,
        {
            assert(self@.pending[i as int] == self.zones.pending@[i as int]);
            if self.zones.pending[i].key == key && self.zones.pending[i].attempt == attempt {
                return true;
            }
            i = i + 1;
        }
        false
    }

    /// Frees the slot of a zone.
    fn land(&mut self, key: ZoneKey)
        requires
            old(self).wf(),
        ensures
            final(self).wf(),
            final(self).network() == old(self).network(),
            final(self)@ == (StoreState { pending: landed(old(self)@.pending, key), ..old(self)@ }),
            !flying(final(self)@.pending, key),
    {
        let ghost was = self@;
        let mut kept: Vec<Flight> = Vec::new();
        let mut i: usize = 0;
        while i < self.zones.pending.len()
            invariant
                i <= self.zones.pending@.len(),
                self.zones.pending@ == was.pending,
                kept@ == landed(was.pending.take(i as int), key),
            decreases self.zones.pending@.len() - i,
        {
            assert(was.pending.take(i + 1).drop_last() =~= was.pending.take(i as int));
            let f: Flight = self.zones.pending[i];
            if f.key != key {
                kept.push(f);
            }
            i = i + 1;
        }
        assert(was.pending.take(i as int) =~= was.pending);
        self.zones.pending = kept;
        proof {
            lemma_landed(was.pending, key);
            assert(self@.ok());
        }
    }

    /// Adds ways to the network.
    fn take_in<F: Fn(LatLon) -> Cell>(&mut self, ways: Vec<Way>, cell: &F)
        requires
            old(self).wf(),
            forall|p: LatLon| call_requires(*cell, (p,)),
        ensures
            final(self).wf(),
            final(self)@ == old(self)@,
            exists|added: Seq<(Way, Seq<Cell>)>| #[trigger]
                all_read(added, overpass::models(ways@), *cell) && network::net_view(
                    &final(self).network()) == network::all_admitted(
                    network::net_view(&old(self).network()),
                    added,
                ),
    {
        let ghost all = overpass::models(ways@);
        let ghost was = *self;
        let ghost before = network::net_view(&self.net);
        let ghost mut added: Seq<(Way, Seq<Cell>)> = seq![];
        for w in it: ways.into_iter()
            invariant
                it.seq() == ways@,
                all == overpass::models(ways@),
                self.net.wf(),
                self@ == was@,
                was@.ok(),
                forall|p: LatLon| call_requires(*cell, (p,)),
                added.len() == it.index(),
                network::net_view(&self.net) == network::all_admitted(before, added),
                forall|k: int|
                    0 <= k < added.len() ==> overpass::model((#[trigger] added[k]).0) == all[k]
                        && cells_by(added[k].0.points@, added[k].1, *cell),
        {
            let cells = cells_for(&w.points, cell);
            proof {
                let had = added;
                added = added.push((w, cells@));
                assert(added.drop_last() =~= had);
            }
            let ghost old_net = network::net_view(&self.net);
            self.net.insert(w, &cells);
            assert(network::net_view(&self.net) == network::admitted(old_net, w, cells@));
        }
        assert(all_read(added, all, *cell));
    }

    /// An attempt came to nothing.
    fn fail_attempt(&mut self, key: ZoneKey, attempt: usize, why: String, now_ns: u64)
        requires
            old(self).wf(),
            flying(old(self)@.pending, key),
        ensures
            final(self).wf(),
            final(self).network() == old(self).network(),
            final(self)@ == old(self)@.attempt_failed(key, attempt, why@, now_ns),
    {
        let ghost was = self@;
        self.land(key);
        assert(!self@.settled(key));
        if attempt < self.zones.endpoints && attempt + 1 < self.zones.endpoints {
            self.spawn(key, attempt + 1, now_ns);
        } else {
            let ghost before = *self;
            self.zones.last_error = Some(why.clone());
            self.zones.failed.push((key, why));
            proof {
                assert(self@.failed =~= before@.failed.push((key, why@)));
                lemma_given_up(before@, self@, key, why@);
            }
        }
    }

    /// Abandons requests that are too old.
    fn expire(&mut self, now_ns: u64)
        requires
            old(self).wf(),
        ensures
            final(self).wf(),
            final(self).network() == old(self).network(),
            final(self)@ == old(self)@.all_expired(stale(old(self)@.pending, now_ns), now_ns),
    {
        let ghost was = self@;
        let mut old_ones: Vec<(ZoneKey, usize)> = Vec::new();
        let mut i: usize = 0;
        while i < self.zones.pending.len()
            invariant
                i <= self.zones.pending@.len(),
                self@ == was,
                self.zones.pending@ == was.pending,
                old_ones@ == stale(was.pending.take(i as int), now_ns),
            decreases self.zones.pending@.len() - i,
        {
            assert(was.pending.take(i + 1).drop_last() =~= was.pending.take(i as int));
            let f: Flight = self.zones.pending[i];
            if now_ns > f.sent_ns && now_ns - f.sent_ns > REQUEST_TIMEOUT_NS {
                old_ones.push((f.key, f.attempt));
            }
            i = i + 1;
        }
        assert(was.pending.take(i as int) =~= was.pending);
        proof {
            lemma_stale(was.pending, now_ns);
        }
        let mut j: usize = 0;
        while j < old_ones.len()
            invariant
                self.wf(),
                self.network() == old(self).network(),
                j <= old_ones@.len(),
                self@ == was.all_expired(old_ones@.take(j as int), now_ns),
                forall|k: int|
                    j <= k < old_ones@.len() ==> flying(
                        self@.pending,
                        (#[trigger] old_ones@[k]).0,
                    ),
                forall|a: int, b: int|
                    0 <= a < b < old_ones@.len() ==> (#[trigger] old_ones@[a]).0 != (
                    #[trigger] old_ones@[b]).0,
            decreases old_ones@.len() - j,
        {
            assert(old_ones@.take(j + 1).drop_last() =~= old_ones@.take(j as int));
            let ghost before = self@;
            let key: ZoneKey = old_ones[j].0;
            let attempt: usize = old_ones[j].1;
            self.fail_attempt(key, attempt, "no answer within 12 s".to_owned(), now_ns);
            proof {
                assert forall|k: int| j + 1 <= k < old_ones@.len() implies flying(
                    self@.pending,
                    (#[trigger] old_ones@[k]).0,
                ) by {
                    assert(old_ones@[j as int].0 != old_ones@[k].0);
                    assert(flying(before.pending, old_ones@[k].0));
                    lemma_landed(before.pending, key);
                    lemma_still_flying(before, key, attempt, timeout_text(), now_ns, old_ones@[k].0);
                }
            }
            j = j + 1;
        }
        assert(old_ones@.take(j as int) =~= old_ones@);
    }

    /// Whether zones are still to come: on the wire, or waiting for a slot.
    pub fn is_waiting(&self) -> (b: bool)
        ensures
            b == self@.waiting(),
    {
        self.zones.pending.len() > 0 || self.zones.queue.len() > 0
    }

    /// Zones in memory, zones on their way, zones given up, and ways.
    pub fn stats(&self) -> (r: (usize, usize, usize, usize))
        requires
            self.wf(),
            self@.pending.len() + self@.queue.len() <= usize::MAX,
        ensures
            r.0 == self@.loaded.len(),
            r.1 == self@.pending.len() + self@.queue.len(),
            r.2 == self@.failed.len(),
            r.3 == self.network().list().len(),
    {
        (
            self.zones.loaded.len(),
            self.zones.pending.len() + self.zones.queue.len(),
            self.zones.failed.len(),
            self.net.len(),
        )
    }
}

/// The zones given up, without why.
pub open spec fn failed_keys(failed: Seq<(ZoneKey, Seq<char>)>) -> Seq<ZoneKey> {
    Seq::new(failed.len(), |i: int| failed[i].0)
}

/// How many of some zones are in memory.
pub open spec fn loaded_among(loaded: Set<u128>, keys: Seq<ZoneKey>) -> nat
    decreases keys.len(),
{
    if keys.len() == 0 {
        0
    } else {
        loaded_among(loaded, keys.drop_last()) + if loaded.contains(keys.last().code_of()) {
            1nat
        } else {
            0nat
        }
    }
}

/// The cells of points.
fn cells_for<F: Fn(LatLon) -> Cell>(points: &Vec<LatLon>, cell: &F) -> (v: Vec<Cell>)
    requires
        forall|p: LatLon| call_requires(*cell, (p,)),
    ensures
        cells_by(points@, v@, *cell),
{
    let mut out: Vec<Cell> = Vec::new();
    let mut i: usize = 0;
    while i < points.len()
        invariant
            forall|p: LatLon| call_requires(*cell, (p,)),
            i <= points@.len(),
            out@.len() == i,
            forall|k: int| 0 <= k < i ==> call_ensures(*cell, (#[trigger] points@[k],), out@[k]),
        decreases points@.len() - i,
    {
        let c: Cell = cell(points[i]);
        out.push(c);
        i = i + 1;
    }
    out
}

// ---------------------------------------------------------------------------
// Laws
// ---------------------------------------------------------------------------

/// A zone that is asked for is settled from then on, so asking again changes
/// nothing.
pub proof fn law_ensuring_again_changes_nothing(s: StoreState, key: ZoneKey, now_ns: u64, later_ns: u64)
    requires
        s.ok(),
    ensures
        s.ensured(key, now_ns).settled(key),
        s.ensured(key, now_ns).ensured(key, later_ns) == s.ensured(key, now_ns),
{
    if !s.settled(key) {
        lemma_spawned(s, key, 0, now_ns);
        assert(s.spawned(key, 0, now_ns).settled(key) <==> s.settled(key) || key == key);
    }
}

/// A zone in memory is never asked for again.
pub proof fn law_loaded_zones_are_not_asked_for(s: StoreState, key: ZoneKey, now_ns: u64)
    requires
        s.loaded.contains(key.code_of()),
    ensures
        s.ensured(key, now_ns) == s,
{
}

/// A slot that frees goes to the front of the queue: with zones waiting, every
/// slot is taken.
pub proof fn law_no_slot_stays_idle(s: StoreState, now_ns: u64)
    requires
        s.ok(),
    ensures
        s.dispatched(now_ns).queue.len() > 0 ==> s.dispatched(now_ns).pending.len()
            == MAX_IN_FLIGHT,
        s.dispatched(now_ns).pending.len() <= MAX_IN_FLIGHT,
    decreases s.queue.len(),
{
    if s.pending.len() < MAX_IN_FLIGHT && s.queue.len() > 0 {
        let (key, attempt) = s.queue[0];
        let next = StoreState {
            queue: s.queue.skip(1),
            pending: s.pending.push(Flight { key, attempt, sent_ns: now_ns }),
            outbox: s.outbox.push((key, attempt)),
            ..s
        };
        lemma_sent(s, next, now_ns);
        law_no_slot_stays_idle(next, now_ns);
    }
}

/// A small zone, which a person waits for, goes out ahead of everything that is
/// queued: at once where a slot is free, and else as the next one.
pub proof fn law_clicks_go_ahead(s: StoreState, key: ZoneKey, attempt: usize, now_ns: u64)
    requires
        key.level == 0,
    ensures
        s.pending.len() < MAX_IN_FLIGHT ==> {
            let sent = s.spawned(key, attempt, now_ns).outbox;
            sent.len() > s.outbox.len() && sent[s.outbox.len() as int] == (key, attempt)
        },
        s.pending.len() >= MAX_IN_FLIGHT ==> s.spawned(key, attempt, now_ns).queue == seq![
            (key, attempt),
        ] + s.queue,
{
    let front = StoreState { queue: seq![(key, attempt)] + s.queue, ..s };
    if s.pending.len() < MAX_IN_FLIGHT {
        let next = StoreState {
            queue: front.queue.skip(1),
            pending: front.pending.push(Flight { key, attempt, sent_ns: now_ns }),
            outbox: front.outbox.push((key, attempt)),
            ..front
        };
        assert(front.queue[0] == (key, attempt));
        assert(front.dispatched(now_ns) == next.dispatched(now_ns));
        lemma_outbox_grows(next, now_ns);
    }
}

/// What is to be sent stays to be sent, in its order.
proof fn lemma_outbox_grows(s: StoreState, now_ns: u64)
    ensures
        s.dispatched(now_ns).outbox.len() >= s.outbox.len(),
        s.dispatched(now_ns).outbox.take(s.outbox.len() as int) == s.outbox,
        forall|i: int|
            0 <= i < s.outbox.len() ==> #[trigger] s.dispatched(now_ns).outbox[i] == s.outbox[i],
    decreases s.queue.len(),
{
    if s.pending.len() < MAX_IN_FLIGHT && s.queue.len() > 0 {
        let (key, attempt) = s.queue[0];
        let next = StoreState {
            queue: s.queue.skip(1),
            pending: s.pending.push(Flight { key, attempt, sent_ns: now_ns }),
            outbox: s.outbox.push((key, attempt)),
            ..s
        };
        lemma_outbox_grows(next, now_ns);
        assert forall|i: int| 0 <= i < s.outbox.len() implies #[trigger] s.dispatched(
            now_ns,
        ).outbox[i] == s.outbox[i] by {
            assert(next.dispatched(now_ns).outbox[i] == next.outbox[i]);
        }
        assert(s.dispatched(now_ns).outbox.take(s.outbox.len() as int) =~= s.outbox);
    } else {
        assert(s.outbox.take(s.outbox.len() as int) =~= s.outbox);
    }
}

/// A reply to an attempt that was abandoned changes nothing: its slot was given
/// back before.
pub proof fn law_late_replies_are_ignored(
    s: StoreState,
    key: ZoneKey,
    attempt: usize,
    answer: Result<Seq<WayModel>, Seq<char>>,
    now_ns: u64,
)
    requires
        !s.waited_for(key, attempt),
    ensures
        s.replied(key, attempt, answer, now_ns) == s,
{
}

/// A zone is given up only when every instance was asked: until then an attempt
/// that came to nothing leads to the next one.
pub proof fn law_every_endpoint_is_tried(
    s: StoreState,
    key: ZoneKey,
    attempt: usize,
    why: Seq<char>,
    now_ns: u64,
)
    requires
        s.ok(),
        flying(s.pending, key),
    ensures
        ({
            let after = s.attempt_failed(key, attempt, why, now_ns);
            &&& given_up(after.failed, key) <==> attempt + 1 >= s.endpoints
            &&& attempt + 1 < s.endpoints ==> flying(after.pending, key) || queued(after.queue, key)
        }),
{
    let t = StoreState { pending: landed(s.pending, key), ..s };
    lemma_landed(s.pending, key);
    assert(t.ok());
    assert(!t.settled(key));
    if attempt + 1 < s.endpoints {
        lemma_spawned(t, key, (attempt + 1) as usize, now_ns);
        let after = t.spawned(key, (attempt + 1) as usize, now_ns);
        assert(after.settled(key) <==> t.settled(key) || key == key);
    } else {
        assert(t.failed.push((key, why))[t.failed.len() as int].0 == key);
    }
}

// ---------------------------------------------------------------------------
// Proofs
// ---------------------------------------------------------------------------

/// A zone more in the queue.
proof fn lemma_queued(s: StoreState, t: StoreState, key: ZoneKey, attempt: usize)
    requires
        s.ok(),
        !s.settled(key),
        t == (StoreState {
            queue: if key.level == 0 {
                seq![(key, attempt)] + s.queue
            } else {
                s.queue.push((key, attempt))
            },
            ..s
        }),
    ensures
        t.ok(),
        forall|k: ZoneKey| #[trigger] queued(t.queue, k) <==> queued(s.queue, k) || k == key,
{
    let off: int = if key.level == 0 {
        1
    } else {
        0
    };
    assert forall|i: int| 0 <= i < s.queue.len() implies #[trigger] s.queue[i] == t.queue[i
        + off] by {}
    let at: int = if key.level == 0 {
        0
    } else {
        s.queue.len() as int
    };
    assert(t.queue[at] == (key, attempt));
    assert forall|k: ZoneKey| #[trigger] queued(t.queue, k) <==> queued(s.queue, k) || k == key by {
        if queued(s.queue, k) {
            let i = choose|i: int| 0 <= i < s.queue.len() && (#[trigger] s.queue[i]).0 == k;
            assert(t.queue[i + off].0 == k);
        }
        if queued(t.queue, k) && k != key {
            let i = choose|i: int| 0 <= i < t.queue.len() && (#[trigger] t.queue[i]).0 == k;
            assert(s.queue[i - off].0 == k);
        }
    }
    assert forall|i: int, j: int| 0 <= i < j < t.queue.len() implies (#[trigger] t.queue[i]).0 != (
    #[trigger] t.queue[j]).0 by {
        if i == at {
            assert(queued(s.queue, s.queue[j - off].0));
        } else if j == at {
            assert(queued(s.queue, s.queue[i - off].0));
        } else {
            assert(s.queue[i - off].0 != s.queue[j - off].0);
        }
    }
}

/// The front of the queue on the wire.
proof fn lemma_sent(s: StoreState, t: StoreState, now_ns: u64)
    requires
        s.ok(),
        s.queue.len() > 0,
        s.pending.len() < MAX_IN_FLIGHT,
        t == (StoreState {
            queue: s.queue.skip(1),
            pending: s.pending.push(
                Flight { key: s.queue[0].0, attempt: s.queue[0].1, sent_ns: now_ns },
            ),
            outbox: s.outbox.push(s.queue[0]),
            ..s
        }),
    ensures
        t.ok(),
        forall|k: ZoneKey| #[trigger] t.settled(k) <==> s.settled(k),
        forall|k: ZoneKey| #[trigger] flying(s.pending, k) ==> flying(t.pending, k),
        forall|k: ZoneKey|
            (#[trigger] flying(t.pending, k) || queued(t.queue, k)) <==> (flying(s.pending, k)
                || queued(s.queue, k)),
{
    let key = s.queue[0].0;
    assert(queued(s.queue, key));
    assert forall|k: ZoneKey| #[trigger] flying(t.pending, k) <==> flying(s.pending, k) || k
        == key by {
        if flying(s.pending, k) {
            let i = choose|i: int| 0 <= i < s.pending.len() && (#[trigger] s.pending[i]).key == k;
            assert(t.pending[i].key == k);
        }
        assert(t.pending[s.pending.len() as int].key == key);
        if flying(t.pending, k) && k != key {
            let i = choose|i: int| 0 <= i < t.pending.len() && (#[trigger] t.pending[i]).key == k;
            assert(s.pending[i].key == k);
        }
    }
    assert forall|k: ZoneKey| #[trigger] queued(t.queue, k) <==> queued(s.queue, k) && k != key by {
        if queued(s.queue, k) && k != key {
            let i = choose|i: int| 0 <= i < s.queue.len() && (#[trigger] s.queue[i]).0 == k;
            assert(t.queue[i - 1].0 == k);
        }
        if queued(t.queue, k) {
            let i = choose|i: int| 0 <= i < t.queue.len() && (#[trigger] t.queue[i]).0 == k;
            assert(s.queue[i + 1].0 == k);
            assert(s.queue[0].0 != s.queue[i + 1].0);
        }
    }
    assert forall|i: int, j: int| 0 <= i < j < t.pending.len() implies (#[trigger] t.pending[i]).key
        != (#[trigger] t.pending[j]).key by {
        assert(flying(s.pending, s.pending[i].key));
        if j < s.pending.len() {
            assert(s.pending[i].key != s.pending[j].key);
        }
    }
    assert forall|i: int, j: int| 0 <= i < j < t.queue.len() implies (#[trigger] t.queue[i]).0 != (
    #[trigger] t.queue[j]).0 by {
        assert(s.queue[i + 1].0 != s.queue[j + 1].0);
    }
    assert forall|k: ZoneKey| #[trigger] flying(t.pending, k) implies !queued(t.queue, k)
        && !given_up(t.failed, k) && !t.loaded.contains(k.code_of()) by {
        if k != key {
            assert(flying(s.pending, k));
        }
    }
    assert forall|k: ZoneKey| #[trigger] queued(t.queue, k) implies !given_up(t.failed, k)
        && !t.loaded.contains(k.code_of()) by {
        assert(queued(s.queue, k));
    }
}

/// Sending keeps the store in good order, and every zone as settled as it was.
proof fn lemma_dispatched(s: StoreState, now_ns: u64)
    requires
        s.ok(),
    ensures
        s.dispatched(now_ns).ok(),
        s.dispatched(now_ns).loaded == s.loaded,
        s.dispatched(now_ns).failed == s.failed,
        forall|k: ZoneKey| #[trigger] s.dispatched(now_ns).settled(k) <==> s.settled(k),
        forall|k: ZoneKey| #[trigger]
            flying(s.pending, k) ==> flying(s.dispatched(now_ns).pending, k),
    decreases s.queue.len(),
{
    if s.pending.len() < MAX_IN_FLIGHT && s.queue.len() > 0 {
        let (key, attempt) = s.queue[0];
        let next = StoreState {
            queue: s.queue.skip(1),
            pending: s.pending.push(Flight { key, attempt, sent_ns: now_ns }),
            outbox: s.outbox.push((key, attempt)),
            ..s
        };
        lemma_sent(s, next, now_ns);
        lemma_dispatched(next, now_ns);
        assert(s.dispatched(now_ns) == next.dispatched(now_ns));
        assert forall|k: ZoneKey| #[trigger] s.dispatched(now_ns).settled(k) <==> s.settled(k) by {
            assert(next.dispatched(now_ns).settled(k) <==> next.settled(k));
            assert(next.settled(k) <==> s.settled(k));
        }
    }
}

/// Asking for a zone settles it, and no other.
proof fn lemma_spawned(s: StoreState, key: ZoneKey, attempt: usize, now_ns: u64)
    requires
        s.ok(),
        !s.settled(key),
    ensures
        s.spawned(key, attempt, now_ns).ok(),
        s.spawned(key, attempt, now_ns).failed == s.failed,
        s.spawned(key, attempt, now_ns).loaded == s.loaded,
        forall|k: ZoneKey| #[trigger]
            s.spawned(key, attempt, now_ns).settled(k) <==> s.settled(k) || k == key,
        forall|k: ZoneKey| #[trigger]
            flying(s.pending, k) ==> flying(s.spawned(key, attempt, now_ns).pending, k),
{
    let t = StoreState {
        queue: if key.level == 0 {
            seq![(key, attempt)] + s.queue
        } else {
            s.queue.push((key, attempt))
        },
        ..s
    };
    lemma_queued(s, t, key, attempt);
    lemma_dispatched(t, now_ns);
    assert(s.spawned(key, attempt, now_ns) == t.dispatched(now_ns));
    assert forall|k: ZoneKey| #[trigger] s.spawned(key, attempt, now_ns).settled(k) <==> s.settled(
        k,
    ) || k == key by {
        assert(t.dispatched(now_ns).settled(k) <==> t.settled(k));
        assert(queued(t.queue, k) <==> queued(s.queue, k) || k == key);
    }
}

proof fn lemma_landed(pending: Seq<Flight>, key: ZoneKey)
    ensures
        landed(pending, key).len() <= pending.len(),
        forall|k: ZoneKey| #[trigger]
            flying(landed(pending, key), k) <==> flying(pending, k) && k != key,
        (forall|i: int, j: int|
            0 <= i < j < pending.len() ==> (#[trigger] pending[i]).key != (
            #[trigger] pending[j]).key) ==> (forall|i: int, j: int|
            0 <= i < j < landed(pending, key).len() ==> (#[trigger] landed(pending, key)[i]).key
                != (#[trigger] landed(pending, key)[j]).key),
    decreases pending.len(),
{
    if pending.len() > 0 {
        let less = pending.drop_last();
        let last = pending.last();
        lemma_landed(less, key);
        let a = landed(less, key);
        let b = landed(pending, key);
        assert forall|k: ZoneKey| flying(pending, k) <==> flying(less, k) || k == last.key by {
            if flying(less, k) {
                let i = choose|i: int| 0 <= i < less.len() && (#[trigger] less[i]).key == k;
                assert(pending[i].key == k);
            }
            assert(pending[pending.len() - 1].key == last.key);
            if flying(pending, k) && k != last.key {
                let i = choose|i: int| 0 <= i < pending.len() && (#[trigger] pending[i]).key == k;
                assert(less[i].key == k);
            }
        }
        assert forall|k: ZoneKey| #[trigger] flying(b, k) <==> flying(pending, k) && k != key by {
            if last.key != key {
                if flying(a, k) {
                    let i = choose|i: int| 0 <= i < a.len() && (#[trigger] a[i]).key == k;
                    assert(b[i].key == k);
                }
                assert(b[a.len() as int].key == last.key);
                if flying(b, k) && k != last.key {
                    let i = choose|i: int| 0 <= i < b.len() && (#[trigger] b[i]).key == k;
                    assert(a[i].key == k);
                }
            }
        }
        if forall|i: int, j: int|
            0 <= i < j < pending.len() ==> (#[trigger] pending[i]).key != (
            #[trigger] pending[j]).key {
            assert forall|i: int, j: int| 0 <= i < j < less.len() implies (#[trigger] less[i]).key
                != (#[trigger] less[j]).key by {
                assert(pending[i].key != pending[j].key);
            }
            assert forall|i: int, j: int| 0 <= i < j < b.len() implies (#[trigger] b[i]).key != (
            #[trigger] b[j]).key by {
                if j < a.len() {
                    assert(a[i].key != a[j].key);
                } else {
                    assert(flying(a, a[i].key));
                    assert(flying(less, a[i].key));
                    let m = choose|m: int|
                        0 <= m < less.len() && (#[trigger] less[m]).key == a[i].key;
                    assert(pending[m].key != pending[pending.len() - 1].key);
                }
            }
        }
    } else {
        assert(!flying(pending, key));
    }
}

proof fn lemma_pardoned(failed: Seq<(ZoneKey, Seq<char>)>, key: ZoneKey)
    ensures
        forall|k: ZoneKey| #[trigger]
            given_up(pardoned(failed, key), k) <==> given_up(failed, k) && k != key,
        (forall|i: int, j: int|
            0 <= i < j < failed.len() ==> (#[trigger] failed[i]).0 != (#[trigger] failed[j]).0) ==> (
        forall|i: int, j: int|
            0 <= i < j < pardoned(failed, key).len() ==> (#[trigger] pardoned(failed, key)[i]).0
                != (#[trigger] pardoned(failed, key)[j]).0),
    decreases failed.len(),
{
    if failed.len() > 0 {
        let less = failed.drop_last();
        let last = failed.last();
        lemma_pardoned(less, key);
        let a = pardoned(less, key);
        let b = pardoned(failed, key);
        assert forall|k: ZoneKey| given_up(failed, k) <==> given_up(less, k) || k == last.0 by {
            if given_up(less, k) {
                let i = choose|i: int| 0 <= i < less.len() && (#[trigger] less[i]).0 == k;
                assert(failed[i].0 == k);
            }
            assert(failed[failed.len() - 1].0 == last.0);
            if given_up(failed, k) && k != last.0 {
                let i = choose|i: int| 0 <= i < failed.len() && (#[trigger] failed[i]).0 == k;
                assert(less[i].0 == k);
            }
        }
        assert forall|k: ZoneKey| #[trigger] given_up(b, k) <==> given_up(failed, k) && k != key by {
            if last.0 != key {
                if given_up(a, k) {
                    let i = choose|i: int| 0 <= i < a.len() && (#[trigger] a[i]).0 == k;
                    assert(b[i].0 == k);
                }
                assert(b[a.len() as int].0 == last.0);
                if given_up(b, k) && k != last.0 {
                    let i = choose|i: int| 0 <= i < b.len() && (#[trigger] b[i]).0 == k;
                    assert(a[i].0 == k);
                }
            }
        }
        if forall|i: int, j: int|
            0 <= i < j < failed.len() ==> (#[trigger] failed[i]).0 != (#[trigger] failed[j]).0 {
            assert forall|i: int, j: int| 0 <= i < j < less.len() implies (#[trigger] less[i]).0
                != (#[trigger] less[j]).0 by {
                assert(failed[i].0 != failed[j].0);
            }
            assert forall|i: int, j: int| 0 <= i < j < b.len() implies (#[trigger] b[i]).0 != (
            #[trigger] b[j]).0 by {
                if j < a.len() {
                    assert(a[i].0 != a[j].0);
                } else {
                    assert(given_up(a, a[i].0));
                    assert(given_up(less, a[i].0));
                    let m = choose|m: int|
                        0 <= m < less.len() && (#[trigger] less[m]).0 == a[i].0;
                    assert(failed[m].0 != failed[failed.len() - 1].0);
                }
            }
        }
    } else {
        assert(!given_up(failed, key));
    }
}

/// A zone more in memory.
proof fn lemma_loaded(s: StoreState, t: StoreState, key: ZoneKey)
    requires
        s.ok(),
        !flying(s.pending, key),
        !queued(s.queue, key),
        !given_up(s.failed, key),
        t == (StoreState { loaded: s.loaded.insert(key.code_of()), ..s }),
    ensures
        t.ok(),
{
    assert forall|k: ZoneKey| k != key implies #[trigger] k.code_of() != key.code_of() by {
        super::zone::law_codes_differ(k, key);
    }
}

/// A zone more given up.
proof fn lemma_given_up(s: StoreState, t: StoreState, key: ZoneKey, why: Seq<char>)
    requires
        s.ok(),
        !s.settled(key),
        t.failed == s.failed.push((key, why)),
        t.loaded == s.loaded,
        t.queue == s.queue,
        t.pending == s.pending,
    ensures
        t.ok(),
{
    assert forall|k: ZoneKey| #[trigger] given_up(t.failed, k) <==> given_up(s.failed, k) || k
        == key by {
        if given_up(s.failed, k) {
            let i = choose|i: int| 0 <= i < s.failed.len() && (#[trigger] s.failed[i]).0 == k;
            assert(t.failed[i].0 == k);
        }
        assert(t.failed[s.failed.len() as int].0 == key);
        if given_up(t.failed, k) && k != key {
            let i = choose|i: int| 0 <= i < t.failed.len() && (#[trigger] t.failed[i]).0 == k;
            assert(s.failed[i].0 == k);
        }
    }
    assert forall|i: int, j: int| 0 <= i < j < t.failed.len() implies (#[trigger] t.failed[i]).0
        != (#[trigger] t.failed[j]).0 by {
        assert(given_up(s.failed, s.failed[i].0));
        if j < s.failed.len() {
            assert(s.failed[i].0 != s.failed[j].0);
        }
    }
}

proof fn lemma_stale(pending: Seq<Flight>, now_ns: u64)
    ensures
        forall|k: int|
            0 <= k < stale(pending, now_ns).len() ==> flying(
                pending,
                (#[trigger] stale(pending, now_ns)[k]).0,
            ),
        (forall|i: int, j: int|
            0 <= i < j < pending.len() ==> (#[trigger] pending[i]).key != (
            #[trigger] pending[j]).key) ==> (forall|i: int, j: int|
            0 <= i < j < stale(pending, now_ns).len() ==> (#[trigger] stale(pending, now_ns)[i]).0
                != (#[trigger] stale(pending, now_ns)[j]).0),
    decreases pending.len(),
{
    if pending.len() > 0 {
        let less = pending.drop_last();
        let last = pending.last();
        lemma_stale(less, now_ns);
        let a = stale(less, now_ns);
        let b = stale(pending, now_ns);
        assert forall|k: ZoneKey| flying(less, k) implies flying(pending, k) by {
            let i = choose|i: int| 0 <= i < less.len() && (#[trigger] less[i]).key == k;
            assert(pending[i].key == k);
        }
        assert forall|k: int| 0 <= k < b.len() implies flying(pending, (#[trigger] b[k]).0) by {
            if k < a.len() {
                assert(flying(less, a[k].0));
            } else {
                assert(pending[pending.len() - 1].key == b[k].0);
            }
        }
        if forall|i: int, j: int|
            0 <= i < j < pending.len() ==> (#[trigger] pending[i]).key != (
            #[trigger] pending[j]).key {
            assert forall|i: int, j: int| 0 <= i < j < less.len() implies (#[trigger] less[i]).key
                != (#[trigger] less[j]).key by {
                assert(pending[i].key != pending[j].key);
            }
            assert forall|i: int, j: int| 0 <= i < j < b.len() implies (#[trigger] b[i]).0 != (
            #[trigger] b[j]).0 by {
                if j < a.len() {
                    assert(a[i].0 != a[j].0);
                } else {
                    assert(flying(less, a[i].0));
                    let m = choose|m: int|
                        0 <= m < less.len() && (#[trigger] less[m]).key == a[i].0;
                    assert(pending[m].key != pending[pending.len() - 1].key);
                }
            }
        }
    }
}

/// Another request stays on the wire when an attempt comes to nothing.
proof fn lemma_still_flying(
    s: StoreState,
    key: ZoneKey,
    attempt: usize,
    why: Seq<char>,
    now_ns: u64,
    other: ZoneKey,
)
    requires
        s.ok(),
        flying(s.pending, key),
        flying(s.pending, other),
        other != key,
    ensures
        flying(s.attempt_failed(key, attempt, why, now_ns).pending, other),
{
    let t = StoreState { pending: landed(s.pending, key), ..s };
    lemma_landed(s.pending, key);
    assert(t.ok());
    assert(!t.settled(key));
    assert(flying(t.pending, other));
    if attempt + 1 < s.endpoints {
        lemma_spawned(t, key, (attempt + 1) as usize, now_ns);
    }
}

/// The zones that were gone through are those up to enough.
proof fn lemma_until_enough(s: StoreState, keys: Seq<ZoneKey>, i: int, max_new: nat, now_ns: u64)
    requires
        0 <= i <= keys.len(),
        i == keys.len() || s.asked_of(keys.take(i), now_ns) >= max_new,
        i > 0 ==> s.asked_of(keys.take(i - 1), now_ns) < max_new,
    ensures
        s.until_enough(keys, max_new, now_ns) == keys.take(i),
    decreases keys.len() - i,
{
    if i == keys.len() {
        assert(keys.take(i) =~= keys);
        if i > 0 {
            assert(keys.take(i - 1) =~= keys.drop_last());
        }
    } else {
        let less = keys.drop_last();
        assert(less.take(i) =~= keys.take(i));
        if i > 0 {
            assert(less.take(i - 1) =~= keys.take(i - 1));
        }
        lemma_asked_grows(s, less, i, now_ns);
        lemma_until_enough(s, less, i, max_new, now_ns);
    }
}

proof fn lemma_asked_grows(s: StoreState, keys: Seq<ZoneKey>, i: int, now_ns: u64)
    requires
        0 <= i <= keys.len(),
    ensures
        s.asked_of(keys.take(i), now_ns) <= s.asked_of(keys, now_ns),
    decreases keys.len() - i,
{
    if i < keys.len() {
        let less = keys.drop_last();
        assert(less.take(i) =~= keys.take(i));
        lemma_asked_grows(s, less, i, now_ns);
    } else {
        assert(keys.take(i) =~= keys);
    }
}

/// As many zones go out as two slots allow, from the front of the queue and in its
/// order, each with the time it was sent; the others wait on, and nothing else
/// changes.
pub proof fn law_the_queue_goes_out_in_order(s: StoreState, now_ns: u64)
    requires
        s.pending.len() <= 2,
    ensures
        ({
            let after = s.dispatched(now_ns);
            let n = vstd::math::min(2 - s.pending.len(), s.queue.len() as int);
            &&& after.queue == s.queue.skip(n)
            &&& after.outbox == s.outbox + s.queue.take(n)
            &&& after.pending.len() == s.pending.len() + n
            &&& after.pending.take(s.pending.len() as int) == s.pending
            &&& forall|i: int|
                0 <= i < n ==> after.pending[s.pending.len() + i] == (Flight {
                    key: (#[trigger] s.queue[i]).0,
                    attempt: s.queue[i].1,
                    sent_ns: now_ns,
                })
            &&& after.loaded == s.loaded
            &&& after.failed == s.failed
            &&& after.last_error == s.last_error
        }),
    decreases s.queue.len(),
{
    let n = vstd::math::min(2 - s.pending.len(), s.queue.len() as int);
    let after = s.dispatched(now_ns);
    if s.pending.len() < MAX_IN_FLIGHT && s.queue.len() > 0 {
        let (key, attempt) = s.queue[0];
        let next = StoreState {
            queue: s.queue.skip(1),
            pending: s.pending.push(Flight { key, attempt, sent_ns: now_ns }),
            outbox: s.outbox.push((key, attempt)),
            ..s
        };
        law_the_queue_goes_out_in_order(next, now_ns);
        assert(after == next.dispatched(now_ns));
        assert(s.queue.skip(1).skip(n - 1) =~= s.queue.skip(n));
        assert(s.outbox.push((key, attempt)) + s.queue.skip(1).take(n - 1) =~= s.outbox
            + s.queue.take(n));
        assert(after.pending.take(s.pending.len() as int) =~= s.pending) by {
            assert forall|i: int| 0 <= i < s.pending.len() implies after.pending[i]
                == s.pending[i] by {
                assert(after.pending.take(next.pending.len() as int)[i] == next.pending[i]);
            }
        }
        assert forall|i: int| 0 <= i < n implies after.pending[s.pending.len() + i] == (Flight {
            key: (#[trigger] s.queue[i]).0,
            attempt: s.queue[i].1,
            sent_ns: now_ns,
        }) by {
            if i == 0 {
                assert(after.pending.take(next.pending.len() as int)[s.pending.len() as int]
                    == next.pending[s.pending.len() as int]);
            } else {
                assert(next.queue[i - 1] == s.queue[i]);
            }
        }
    } else {
        assert(n == 0);
        assert(s.queue.skip(0) =~= s.queue);
        assert(s.outbox + s.queue.take(0) =~= s.outbox);
        assert(s.pending.take(s.pending.len() as int) =~= s.pending);
    }
}

/// A large zone goes behind all that wait, so that it never holds up one that a
/// person waits for.
pub proof fn law_basins_go_behind(s: StoreState, key: ZoneKey, attempt: usize, now_ns: u64)
    requires
        key.level != 0,
        s.pending.len() == 2,
    ensures
        s.spawned(key, attempt, now_ns).queue == s.queue.push((key, attempt)),
        s.spawned(key, attempt, now_ns).outbox == s.outbox,
{
    let t = StoreState { queue: s.queue.push((key, attempt)), ..s };
    law_the_queue_goes_out_in_order(t, now_ns);
    assert(t.queue.skip(0) =~= t.queue);
    assert(t.outbox + t.queue.take(0) =~= t.outbox);
}

/// A request is abandoned just where it was sent more than twelve seconds ago.
pub proof fn law_requests_are_given_twelve_seconds(pending: Seq<Flight>, now_ns: u64, i: int)
    requires
        0 <= i < pending.len(),
        forall|a: int, b: int|
            0 <= a < b < pending.len() ==> (#[trigger] pending[a]).key != (
            #[trigger] pending[b]).key,
    ensures
        stale(pending, now_ns).contains((pending[i].key, pending[i].attempt)) <==> now_ns
            - pending[i].sent_ns > 12_000_000_000,
    decreases pending.len(),
{
    let less = pending.drop_last();
    let end = pending.len() - 1;
    let old = stale(pending, now_ns);
    let rest = stale(less, now_ns);
    let x = (pending[i].key, pending[i].attempt);
    lemma_stale(less, now_ns);
    assert forall|a: int, b: int| 0 <= a < b < less.len() implies (#[trigger] less[a]).key != (
    #[trigger] less[b]).key by {
        assert(pending[a].key != pending[b].key);
    }
    if i < end {
        law_requests_are_given_twelve_seconds(less, now_ns, i);
        assert(pending[i].key != pending[end].key);
        if rest.contains(x) {
            let k = rest.index_of(x);
            assert(old[k] == x);
        }
        if old.contains(x) {
            let k = old.index_of(x);
            assert(rest[k] == x);
        }
    } else {
        if old.len() > rest.len() {
            assert(old[rest.len() as int] == x);
        } else if old.contains(x) {
            let k = old.index_of(x);
            assert(flying(less, rest[k].0));
            let a = choose|a: int| 0 <= a < less.len() && (#[trigger] less[a]).key == rest[k].0;
            assert(pending[a].key != pending[end].key);
        }
    }
}

/// What comes off the wire is the zone that was meant, and the others stay there in
/// their order.
pub proof fn law_only_that_zone_leaves_the_wire(
    pending: Seq<Flight>,
    more: Seq<Flight>,
    key: ZoneKey,
    f: Flight,
)
    ensures
        landed(pending + more, key) == landed(pending, key) + landed(more, key),
        f.key == key ==> landed(seq![f], key) == Seq::<Flight>::empty(),
        f.key != key ==> landed(seq![f], key) == seq![f],
    decreases more.len(),
{
    reveal_with_fuel(landed, 2);
    assert(seq![f].drop_last() =~= Seq::<Flight>::empty());
    if f.key != key {
        assert(landed(seq![f], key) =~= seq![f]);
    }
    let all = pending + more;
    if more.len() == 0 {
        assert(all =~= pending);
        assert(landed(pending, key) + landed(more, key) =~= landed(pending, key));
    } else {
        assert(all.drop_last() =~= pending + more.drop_last());
        law_only_that_zone_leaves_the_wire(pending, more.drop_last(), key, f);
        assert(landed(all, key) =~= landed(pending, key) + landed(more, key));
    }
}

/// A pardon is for one zone: of those given up it alone is no longer, and the
/// others stay in their order.
pub proof fn law_a_pardon_is_for_one_zone(
    failed: Seq<(ZoneKey, Seq<char>)>,
    more: Seq<(ZoneKey, Seq<char>)>,
    key: ZoneKey,
    one: (ZoneKey, Seq<char>),
)
    ensures
        pardoned(failed + more, key) == pardoned(failed, key) + pardoned(more, key),
        one.0 == key ==> pardoned(seq![one], key) == Seq::<(ZoneKey, Seq<char>)>::empty(),
        one.0 != key ==> pardoned(seq![one], key) == seq![one],
    decreases more.len(),
{
    reveal_with_fuel(pardoned, 2);
    assert(seq![one].drop_last() =~= Seq::<(ZoneKey, Seq<char>)>::empty());
    if one.0 != key {
        assert(pardoned(seq![one], key) =~= seq![one]);
    }
    let all = failed + more;
    if more.len() == 0 {
        assert(all =~= failed);
        assert(pardoned(failed, key) + pardoned(more, key) =~= pardoned(failed, key));
    } else {
        assert(all.drop_last() =~= failed + more.drop_last());
        law_a_pardon_is_for_one_zone(failed, more.drop_last(), key, one);
        assert(pardoned(all, key) =~= pardoned(failed, key) + pardoned(more, key));
    }
}

/// An attempt that came to nothing leads to the next one in number, at once where
/// that is the zone's turn; after the last one the zone is given up, and why is
/// remembered.
pub proof fn law_the_next_attempt_follows(
    s: StoreState,
    key: ZoneKey,
    attempt: usize,
    why: Seq<char>,
    now_ns: u64,
)
    requires
        s.ok(),
        flying(s.pending, key),
        key.level == 0,
    ensures
        ({
            let after = s.attempt_failed(key, attempt, why, now_ns);
            if attempt + 1 < s.endpoints {
                &&& after.waited_for(key, (attempt + 1) as usize)
                &&& after.failed == s.failed
                &&& after.last_error == s.last_error
            } else {
                &&& !flying(after.pending, key)
                &&& after.failed == s.failed.push((key, why))
                &&& after.last_error == Some(why)
                &&& after.outbox == s.outbox
            }
        }),
{
    let t = StoreState { pending: landed(s.pending, key), ..s };
    lemma_landed(s.pending, key);
    lemma_landed_is_shorter(s.pending, key);
    let next = (attempt + 1) as usize;
    if attempt + 1 < s.endpoints {
        let front = StoreState { queue: seq![(key, next)] + t.queue, ..t };
        law_the_queue_goes_out_in_order(front, now_ns);
        assert(front.queue[0] == (key, next));
        let after = front.dispatched(now_ns);
        assert(after.pending[front.pending.len() as int].key == key);
    }
}

proof fn lemma_landed_is_shorter(pending: Seq<Flight>, key: ZoneKey)
    requires
        flying(pending, key),
    ensures
        landed(pending, key).len() < pending.len(),
    decreases pending.len(),
{
    let less = pending.drop_last();
    lemma_landed(less, key);
    if pending.last().key != key {
        let i = choose|i: int| 0 <= i < pending.len() && (#[trigger] pending[i]).key == key;
        assert(less[i].key == key);
        lemma_landed_is_shorter(less, key);
    }
}

/// A reply that is waited for and brings ways makes its zone one in memory, frees
/// its slot, and changes nothing of other zones.
pub proof fn law_a_reply_loads_its_zone(
    s: StoreState,
    key: ZoneKey,
    attempt: usize,
    ways: Seq<WayModel>,
    now_ns: u64,
    other: ZoneKey,
)
    requires
        s.ok(),
        s.waited_for(key, attempt),
        other != key,
    ensures
        ({
            let after = s.replied(key, attempt, Ok(ways), now_ns);
            &&& after.loaded.contains(key.code_of())
            &&& !flying(after.pending, key)
            &&& after.pending.len() < s.pending.len()
            &&& after.loaded.contains(other.code_of()) == s.loaded.contains(other.code_of())
            &&& flying(after.pending, other) == flying(s.pending, other)
            &&& after.queue == s.queue
            &&& after.failed == s.failed
            &&& after.outbox == s.outbox
        }),
{
    lemma_landed(s.pending, key);
    assert(flying(s.pending, key));
    lemma_landed_is_shorter(s.pending, key);
    super::zone::law_codes_differ(key, other);
}

/// Whatever zones are asked for one after the other, each is seen to: in memory, on
/// its way, waiting or given up.
pub proof fn law_every_zone_is_seen_to(s: StoreState, keys: Seq<ZoneKey>, now_ns: u64, i: int)
    requires
        s.ok(),
        0 <= i < keys.len(),
    ensures
        s.all_ensured(keys, now_ns).ok(),
        s.all_ensured(keys, now_ns).settled(keys[i]),
    decreases keys.len(),
{
    let less = keys.drop_last();
    let t = s.all_ensured(less, now_ns);
    lemma_all_ensured_ok(s, less, now_ns);
    if i < less.len() {
        law_every_zone_is_seen_to(s, less, now_ns, i);
    }
    if !t.settled(keys.last()) {
        lemma_spawned(t, keys.last(), 0, now_ns);
        assert(t.spawned(keys.last(), 0, now_ns).settled(keys[i]) <==> t.settled(keys[i]) || keys[i]
            == keys.last());
    }
}

proof fn lemma_all_ensured_ok(s: StoreState, keys: Seq<ZoneKey>, now_ns: u64)
    requires
        s.ok(),
    ensures
        s.all_ensured(keys, now_ns).ok(),
    decreases keys.len(),
{
    if keys.len() > 0 {
        let less = keys.drop_last();
        lemma_all_ensured_ok(s, less, now_ns);
        let t = s.all_ensured(less, now_ns);
        if !t.settled(keys.last()) {
            lemma_spawned(t, keys.last(), 0, now_ns);
        }
    }
}

/// No more new zones are asked for than allowed: the list is cut where there are as
/// many, and nowhere else.
pub proof fn law_new_zones_are_capped(s: StoreState, keys: Seq<ZoneKey>, max_new: nat, now_ns: u64)
    ensures
        ({
            let taken = s.until_enough(keys, max_new, now_ns);
            &&& taken.len() <= keys.len()
            &&& taken == keys.take(taken.len() as int)
            &&& s.asked_of(taken, now_ns) <= max_new
            &&& taken.len() < keys.len() ==> s.asked_of(taken, now_ns) == max_new
        }),
    decreases keys.len(),
{
    let taken = s.until_enough(keys, max_new, now_ns);
    if keys.len() > 0 {
        let less = keys.drop_last();
        law_new_zones_are_capped(s, less, max_new, now_ns);
        if s.asked_of(less, now_ns) >= max_new {
            let short = s.until_enough(less, max_new, now_ns);
            assert(less.take(short.len() as int) =~= keys.take(short.len() as int));
            if short.len() == less.len() {
                assert(less.take(less.len() as int) =~= less);
            }
        } else {
            assert(keys.take(keys.len() as int) =~= keys);
        }
    } else {
        assert(keys.take(0) =~= keys);
    }
}

/// Of some zones as many are counted as are in memory: none more, and none less.
pub proof fn law_loaded_zones_are_counted(loaded: Set<u128>, keys: Seq<ZoneKey>)
    ensures
        loaded_among(loaded, keys) <= keys.len(),
        loaded_among(loaded, keys) == keys.len() <==> forall|i: int|
            0 <= i < keys.len() ==> loaded.contains((#[trigger] keys[i]).code_of()),
        loaded_among(loaded, keys) == 0 <==> forall|i: int|
            0 <= i < keys.len() ==> !loaded.contains((#[trigger] keys[i]).code_of()),
    decreases keys.len(),
{
    if keys.len() > 0 {
        let less = keys.drop_last();
        law_loaded_zones_are_counted(loaded, less);
        let end = keys.len() - 1;
        assert(forall|i: int| 0 <= i < less.len() ==> #[trigger] less[i] == keys[i]);
        if loaded_among(loaded, keys) == keys.len() {
            assert forall|i: int| 0 <= i < keys.len() implies loaded.contains(
                (#[trigger] keys[i]).code_of(),
            ) by {
                if i < end {
                    assert(loaded.contains(less[i].code_of()));
                }
            }
        }
        if forall|i: int| 0 <= i < keys.len() ==> loaded.contains((#[trigger] keys[i]).code_of()) {
            assert(loaded.contains(keys[end].code_of()));
            assert forall|i: int| 0 <= i < less.len() implies loaded.contains(
                (#[trigger] less[i]).code_of(),
            ) by {
                assert(loaded.contains(keys[i].code_of()));
            }
        }
        if loaded_among(loaded, keys) == 0 {
            assert forall|i: int| 0 <= i < keys.len() implies !loaded.contains(
                (#[trigger] keys[i]).code_of(),
            ) by {
                if i < end {
                    assert(!loaded.contains(less[i].code_of()));
                }
            }
        }
        if forall|i: int| 0 <= i < keys.len() ==> !loaded.contains((#[trigger] keys[i]).code_of()) {
            assert(!loaded.contains(keys[end].code_of()));
            assert forall|i: int| 0 <= i < less.len() implies !loaded.contains(
                (#[trigger] less[i]).code_of(),
            ) by {
                assert(!loaded.contains(keys[i].code_of()));
            }
        }
    }
}

/// A retry gives up on none: every zone that was given up is asked for anew, from
/// the first instance on, and what was settled stays so.
pub proof fn law_a_retry_asks_for_all_that_was_given_up(s: StoreState, now_ns: u64, i: int)
    requires
        s.ok(),
        0 <= i < s.failed.len(),
    ensures
        ({
            let after = (StoreState { failed: seq![], last_error: None, ..s }).all_spawned(
                failed_keys(s.failed),
                now_ns,
            );
            &&& after.failed.len() == 0
            &&& after.loaded == s.loaded
            &&& flying(after.pending, s.failed[i].0) || queued(after.queue, s.failed[i].0)
        }),
{
    let cleared = StoreState { failed: seq![], last_error: None, ..s };
    let keys = failed_keys(s.failed);
    assert(cleared.ok());
    assert forall|j: int| 0 <= j < keys.len() implies !cleared.settled(#[trigger] keys[j]) by {
        assert(s.failed[j].0 == keys[j]);
        assert(given_up(s.failed, keys[j]));
    }
    assert forall|a: int, b: int| 0 <= a < b < keys.len() implies keys[a] != keys[b] by {
        assert(s.failed[a].0 != s.failed[b].0);
    }
    lemma_all_spawned(cleared, keys, now_ns);
    let after = cleared.all_spawned(keys, now_ns);
    assert(keys[i] == s.failed[i].0);
    assert(keys.contains(keys[i]));
    assert(after.settled(keys[i]));
    assert(!after.loaded.contains(keys[i].code_of())) by {
        assert(given_up(s.failed, keys[i]));
    }
}

proof fn lemma_all_spawned(s: StoreState, keys: Seq<ZoneKey>, now_ns: u64)
    requires
        s.ok(),
        forall|j: int| 0 <= j < keys.len() ==> !s.settled(#[trigger] keys[j]),
        forall|a: int, b: int| 0 <= a < b < keys.len() ==> keys[a] != keys[b],
    ensures
        s.all_spawned(keys, now_ns).ok(),
        s.all_spawned(keys, now_ns).failed == s.failed,
        s.all_spawned(keys, now_ns).loaded == s.loaded,
        forall|k: ZoneKey| #[trigger]
            s.all_spawned(keys, now_ns).settled(k) <==> s.settled(k) || keys.contains(k),
    decreases keys.len(),
{
    if keys.len() > 0 {
        let less = keys.drop_last();
        let last = keys.last();
        assert forall|j: int| 0 <= j < less.len() implies !s.settled(#[trigger] less[j]) by {
            assert(less[j] == keys[j]);
        }
        assert forall|a: int, b: int| 0 <= a < b < less.len() implies less[a] != less[b] by {
            assert(keys[a] != keys[b]);
        }
        lemma_all_spawned(s, less, now_ns);
        let t = s.all_spawned(less, now_ns);
        assert(!less.contains(last)) by {
            if less.contains(last) {
                let j = less.index_of(last);
                assert(keys[j] == last && keys[keys.len() - 1] == last);
            }
        }
        assert(!s.settled(last)) by {
            assert(keys[keys.len() - 1] == last);
        }
        assert(!t.settled(last));
        lemma_spawned(t, last, 0, now_ns);
        assert forall|k: ZoneKey| #[trigger] s.all_spawned(keys, now_ns).settled(k) <==> s.settled(
            k,
        ) || keys.contains(k) by {
            assert(t.spawned(last, 0, now_ns).settled(k) <==> t.settled(k) || k == last);
            if less.contains(k) {
                let j = less.index_of(k);
                assert(keys[j] == k);
            }
            if keys.contains(k) && k != last {
                let j = keys.index_of(k);
                assert(less[j] == k);
            }
            if k == last {
                assert(keys[keys.len() - 1] == k);
            }
        }
    }
}

/// Zones that are pardoned are no longer given up, and all others are as before.
pub proof fn law_pardoned_zones_are_no_longer_given_up(s: StoreState, keys: Seq<ZoneKey>, k: ZoneKey)
    ensures
        given_up(s.all_pardoned(keys).failed, k) <==> given_up(s.failed, k) && !keys.contains(k),
        s.all_pardoned(keys) == (StoreState { failed: s.all_pardoned(keys).failed, ..s }),
    decreases keys.len(),
{
    if keys.len() > 0 {
        let less = keys.drop_last();
        law_pardoned_zones_are_no_longer_given_up(s, less, k);
        lemma_pardoned(s.all_pardoned(less).failed, keys.last());
        if less.contains(k) {
            let j = less.index_of(k);
            assert(keys[j] == k);
        }
        if keys.contains(k) && k != keys.last() {
            let j = keys.index_of(k);
            assert(less[j] == k);
        }
        if k == keys.last() {
            assert(keys[keys.len() - 1] == k);
        }
    }
}

/// A request that was given too long is an attempt that came to nothing, and that is
/// said of it; requests are abandoned one after the other.
pub proof fn law_an_abandoned_request_is_a_failed_attempt(
    s: StoreState,
    old_ones: Seq<(ZoneKey, usize)>,
    key: ZoneKey,
    attempt: usize,
    now_ns: u64,
)
    ensures
        s.all_expired(Seq::empty(), now_ns) == s,
        s.all_expired(old_ones.push((key, attempt)), now_ns) == s.all_expired(
            old_ones,
            now_ns,
        ).attempt_failed(key, attempt, "no answer within 12 s"@, now_ns),
{
    assert(old_ones.push((key, attempt)).drop_last() =~= old_ones);
}

/// A reply adds ways to the network where it was waited for and could be read: those
/// that it holds, in their order. Any other leaves the network as it is.
pub proof fn law_only_replies_that_are_waited_for_add_ways<F: Fn(LatLon) -> Cell>(
    s: StoreState,
    n: NetView,
    reply: ZoneReply,
    s2: StoreState,
    n2: NetView,
    cell: F,
    now_ns: u64,
)
    requires
        stepped(s, n, reply, s2, n2, cell, now_ns),
    ensures
        !s.waited_for(reply.0, reply.1) ==> n2 == n && s2 == s,
        reply.2 is Err ==> n2 == n,
        s.waited_for(reply.0, reply.1) ==> (reply.2 matches Ok(body) ==> match overpass::answer_of(
            json::parsed(body@),
        ) {
            Ok(ways) => s2.loaded.contains(reply.0.code_of()) && exists|
                added: Seq<(Way, Seq<Cell>)>,
            | #[trigger]
                all_read(added, ways, cell) && n2 == network::all_admitted(n, added),
            Err(_) => n2 == n,
        }),
{
}

/// Ways are read one by one, each with the cells of its points.
pub proof fn law_ways_come_with_the_cells_of_their_points<F: Fn(LatLon) -> Cell>(
    added: Seq<(Way, Seq<Cell>)>,
    ways: Seq<WayModel>,
    cell: F,
    i: int,
    k: int,
)
    requires
        all_read(added, ways, cell),
        0 <= i < ways.len(),
        0 <= k < ways[i].points.len(),
    ensures
        added.len() == ways.len(),
        added[i].0.id == ways[i].id,
        added[i].0.points@ == ways[i].points,
        added[i].0.nodes@ == ways[i].nodes,
        added[i].1.len() == ways[i].points.len(),
        call_ensures(cell, (ways[i].points[k],), added[i].1[k]),
{
    assert(overpass::model(added[i].0) == ways[i] && cells_by(
        added[i].0.points@,
        added[i].1,
        cell,
    ));
    assert(call_ensures(cell, (added[i].0.points@[k],), added[i].1[k]));
}

/// A zone is counted as asked for where it was not seen to before.
pub proof fn law_new_zones_are_counted(
    s: StoreState,
    keys: Seq<ZoneKey>,
    key: ZoneKey,
    now_ns: u64,
)
    ensures
        s.asked_of(Seq::empty(), now_ns) == 0,
        s.asked_of(keys.push(key), now_ns) == s.asked_of(keys, now_ns) + if s.all_ensured(
            keys,
            now_ns,
        ).settled(key) {
            0nat
        } else {
            1nat
        },
        s.all_ensured(keys.push(key), now_ns) == s.all_ensured(keys, now_ns).ensured(key, now_ns),
{
    assert(keys.push(key).drop_last() =~= keys);
}

/// A new zone is asked of the preferred instance first: with a slot free it is on the
/// wire at once, at the attempt before any other.
pub proof fn law_a_new_zone_starts_with_the_first_attempt(
    s: StoreState,
    key: ZoneKey,
    now_ns: u64,
)
    requires
        s.pending.len() < 2,
        s.queue.len() == 0 || key.level == 0,
        !s.settled(key),
    ensures
        s.ensured(key, now_ns).waited_for(key, 0),
        s.ensured(key, now_ns).outbox.len() > s.outbox.len(),
        s.ensured(key, now_ns).outbox[s.outbox.len() as int] == (key, 0usize),
{
    let t = StoreState {
        queue: if key.level == 0 {
            seq![(key, 0usize)] + s.queue
        } else {
            s.queue.push((key, 0usize))
        },
        ..s
    };
    law_the_queue_goes_out_in_order(t, now_ns);
    assert(t.queue[0] == (key, 0usize));
    let after = t.dispatched(now_ns);
    assert(after.pending[s.pending.len() as int].key == key);
    assert(t.queue.take(vstd::math::min(2 - s.pending.len(), t.queue.len() as int))[0] == (
        key,
        0usize,
    ));
}

/// The zones of an area are asked for anew, as long as they are no more than allowed:
/// each is then in memory, on its way or waiting, also where it had been given up.
pub proof fn law_an_area_is_asked_for_anew(
    s: StoreState,
    keys: Seq<ZoneKey>,
    max_zones: nat,
    now_ns: u64,
    i: int,
)
    requires
        s.ok(),
        keys.len() <= max_zones,
        0 <= i < keys.len(),
    ensures
        ({
            let p = s.all_pardoned(keys);
            let after = p.all_ensured(p.until_enough(keys, max_zones, now_ns), now_ns);
            &&& after.settled(keys[i])
            &&& !given_up(after.failed, keys[i])
            &&& after.loaded == s.loaded
        }),
{
    let p = s.all_pardoned(keys);
    lemma_all_pardoned_ok(s, keys);
    lemma_asked_at_most(p, keys.drop_last(), now_ns);
    assert(p.until_enough(keys, max_zones, now_ns) == keys);
    law_every_zone_is_seen_to(p, keys, now_ns, i);
    law_pardoned_zones_are_no_longer_given_up(s, keys, keys[i]);
    lemma_ensuring_keeps(p, keys, now_ns);
    assert(keys.contains(keys[i]));
}

proof fn lemma_all_pardoned_ok(s: StoreState, keys: Seq<ZoneKey>)
    requires
        s.ok(),
    ensures
        s.all_pardoned(keys).ok(),
        s.all_pardoned(keys).loaded == s.loaded,
    decreases keys.len(),
{
    if keys.len() > 0 {
        lemma_all_pardoned_ok(s, keys.drop_last());
        let t = s.all_pardoned(keys.drop_last());
        lemma_pardoned(t.failed, keys.last());
        let after = s.all_pardoned(keys);
        assert forall|k: ZoneKey| #[trigger] given_up(after.failed, k) implies given_up(
            t.failed,
            k,
        ) by {}
    }
}

proof fn lemma_asked_at_most(s: StoreState, keys: Seq<ZoneKey>, now_ns: u64)
    ensures
        s.asked_of(keys, now_ns) <= keys.len(),
    decreases keys.len(),
{
    if keys.len() > 0 {
        lemma_asked_at_most(s, keys.drop_last(), now_ns);
    }
}

proof fn lemma_ensuring_keeps(s: StoreState, keys: Seq<ZoneKey>, now_ns: u64)
    requires
        s.ok(),
    ensures
        s.all_ensured(keys, now_ns).failed == s.failed,
        s.all_ensured(keys, now_ns).loaded == s.loaded,
    decreases keys.len(),
{
    if keys.len() > 0 {
        let less = keys.drop_last();
        lemma_ensuring_keeps(s, less, now_ns);
        lemma_all_ensured_ok(s, less, now_ns);
        let t = s.all_ensured(less, now_ns);
        if !t.settled(keys.last()) {
            lemma_spawned(t, keys.last(), 0, now_ns);
        }
    }
}

} // verus!
