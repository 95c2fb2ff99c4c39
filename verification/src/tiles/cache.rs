//! A cache of tiles that arrive one by one: it says what to ask for, decodes what
//! has arrived, and drops what was not used for longest.
use std::collections::{HashMap, HashSet, VecDeque};
use std::hash::Hash;
use vstd::prelude::*;
use vstd::std_specs::hash::*;

use super::source::TileDesc;

verus! {

broadcast use vstd::std_specs::hash::group_hash_axioms;

/// The bytes of a tile, or why there are none.
pub type TileBytes = Result<Vec<u8>, String>;

/// What a cache stands for.
#[verifier::ext_equal]
#[verifier::reject_recursive_types(K)]
pub struct CacheState<K, V> {
    /// Tiles decoded and at hand.
    pub ready: Map<K, V>,
    /// Tiles asked for whose reply is not here.
    pub on_wire: Set<K>,
    /// Replies that wait to be decoded, in the order they came.
    pub landed: Seq<(K, TileBytes)>,
    /// Tiles that will not come, and why.
    pub failed: Map<K, String>,
    /// When each tile at hand was last used.
    pub last_used: Map<K, u64>,
    /// Tiles asked for in this frame.
    pub asked: Set<K>,
    /// Requests to be sent.
    pub outbox: Seq<(K, TileDesc)>,
    pub clock: u64,
    pub capacity: nat,
    pub max_in_flight: nat,
}

/// A reply of this tile is among some.
pub open spec fn among<K>(landed: Seq<(K, TileBytes)>, k: K) -> bool {
    exists|i: int| 0 <= i < landed.len() && (#[trigger] landed[i]).0 == k
}

impl<K, V> CacheState<K, V> {
    /// Asked for and not usable: on the wire, or waiting to be decoded.
    pub open spec fn pending(self, k: K) -> bool {
        self.on_wire.contains(k) || among(self.landed, k)
    }

    /// No tile is in two places at once, and no more requests are on the wire
    /// than allowed.
    pub open spec fn ok(self) -> bool {
        &&& self.on_wire.finite()
        &&& self.on_wire.len() <= self.max_in_flight
        &&& self.max_in_flight >= 1
        &&& forall|i: int, j: int|
            0 <= i < j < self.landed.len() ==> (#[trigger] self.landed[i]).0 != (
            #[trigger] self.landed[j]).0
        &&& forall|i: int|
            0 <= i < self.landed.len() ==> !self.on_wire.contains((#[trigger] self.landed[i]).0)
        &&& forall|k: K| #[trigger] self.ready.contains_key(k) ==> !self.pending(k)
        &&& forall|k: K| #[trigger] self.failed.contains_key(k) ==> !self.pending(k)
        &&& forall|k: K| #[trigger]
            self.ready.contains_key(k) ==> !self.failed.contains_key(k)
        &&& self.last_used.dom() == self.ready.dom()
    }

    /// The tile was used now.
    pub open spec fn touched(self, k: K) -> Self {
        if self.ready.contains_key(k) {
            CacheState { last_used: self.last_used.insert(k, self.clock), ..self }
        } else {
            self
        }
    }

    /// The tile is wanted in this frame: a request goes out where it is neither
    /// here nor coming nor given up, was not asked for before in this frame, and
    /// a slot is free.
    pub open spec fn wanted(self, k: K, desc: TileDesc) -> Self {
        if self.ready.contains_key(k) {
            self.touched(k)
        } else if self.pending(k) || self.failed.contains_key(k) || self.asked.contains(k) {
            self
        } else if self.on_wire.len() < self.max_in_flight {
            CacheState {
                asked: self.asked.insert(k),
                on_wire: self.on_wire.insert(k),
                outbox: self.outbox.push((k, desc)),
                ..self
            }
        } else {
            CacheState { asked: self.asked.insert(k), ..self }
        }
    }

    /// A reply has come. One that nobody waits for changes nothing.
    pub open spec fn received(self, k: K, bytes: TileBytes) -> Self {
        if self.on_wire.contains(k) {
            CacheState {
                on_wire: self.on_wire.remove(k),
                landed: self.landed.push((k, bytes)),
                ..self
            }
        } else {
            self
        }
    }
}

/// A cache without tiles.
pub open spec fn empty_cache<K, V>(capacity: nat, max_in_flight: nat) -> CacheState<K, V> {
    CacheState {
        ready: Map::empty(),
        on_wire: Set::empty(),
        landed: Seq::empty(),
        failed: Map::empty(),
        last_used: Map::empty(),
        asked: Set::empty(),
        outbox: Seq::empty(),
        clock: 0,
        capacity,
        max_in_flight: if max_in_flight >= 1 {
            max_in_flight
        } else {
            1
        },
    }
}

/// What became of a reply: a tile at hand, used now, or a failure.
pub open spec fn outcome<K, V>(
    after: CacheState<K, V>,
    k: K,
    result: Result<V, String>,
) -> bool {
    match result {
        Ok(v) => {
            &&& after.ready.contains_key(k)
            &&& after.ready[k] == v
            &&& after.last_used[k] == after.clock
            &&& !after.failed.contains_key(k)
        },
        Err(e) => {
            &&& after.failed.contains_key(k)
            &&& after.failed[k] == e
            &&& !after.ready.contains_key(k)
        },
    }
}

/// A reply was decoded with a function, and what became of it.
pub open spec fn decoded<K, V, F: Fn(&K, &[u8]) -> Result<V, String>>(
    after: CacheState<K, V>,
    reply: (K, TileBytes),
    decode: F,
) -> bool {
    match reply.1 {
        Ok(bytes) => exists|s: &[u8], r: Result<V, String>|
            s@ == bytes@ && #[trigger] call_ensures(decode, (&reply.0, s), r) && outcome(
                after,
                reply.0,
                r,
            ),
        Err(e) => outcome(after, reply.0, Err(e)),
    }
}

/// The first `n` replies were decoded, and nothing else has changed.
pub open spec fn pumped<K, V, F: Fn(&K, &[u8]) -> Result<V, String>>(
    before: CacheState<K, V>,
    after: CacheState<K, V>,
    n: nat,
    decode: F,
) -> bool {
    &&& after.landed == before.landed.skip(n as int)
    &&& after.on_wire == before.on_wire
    &&& after.asked == before.asked
    &&& after.outbox == before.outbox
    &&& after.clock == before.clock
    &&& after.capacity == before.capacity
    &&& after.max_in_flight == before.max_in_flight
    &&& forall|i: int| 0 <= i < n ==> decoded(after, #[trigger] before.landed[i], decode)
    &&& forall|k: K|
        (forall|i: int| 0 <= i < n ==> (#[trigger] before.landed[i]).0 != k)
            ==> #[trigger] same_of(before, after, k)
}

/// Nothing has changed of a tile.
pub open spec fn same_of<K, V>(a: CacheState<K, V>, b: CacheState<K, V>, k: K) -> bool {
    &&& a.ready.contains_key(k) == b.ready.contains_key(k)
    &&& a.ready.contains_key(k) ==> a.ready[k] == b.ready[k] && a.last_used[k] == b.last_used[k]
    &&& a.failed.contains_key(k) == b.failed.contains_key(k)
    &&& a.failed.contains_key(k) ==> a.failed[k] == b.failed[k]
}

/// As many tiles are left as there is room for, or all of them, each as it was,
/// and none that was dropped was used later than one that was kept.
pub open spec fn evicted<K, V>(before: CacheState<K, V>, after: CacheState<K, V>) -> bool {
    &&& after.ready.dom().subset_of(before.ready.dom())
    &&& after.ready == before.ready.restrict(after.ready.dom())
    &&& after.last_used == before.last_used.restrict(after.ready.dom())
    &&& after.ready.dom().len() == if before.ready.dom().len() <= before.capacity {
        before.ready.dom().len()
    } else {
        before.capacity
    }
    &&& forall|gone: K, kept: K|
        before.ready.contains_key(gone) && !#[trigger] after.ready.contains_key(gone)
            && #[trigger] after.ready.contains_key(kept) ==> before.last_used[gone]
            <= before.last_used[kept]
    &&& after == (CacheState { ready: after.ready, last_used: after.last_used, ..before })
}

/// While the tiles fit, making room changes nothing.
pub proof fn law_tiles_that_fit_stay<K, V>(before: CacheState<K, V>, after: CacheState<K, V>)
    requires
        before.ok(),
        before.ready.dom().finite(),
        evicted(before, after),
        before.ready.dom().len() <= before.capacity,
    ensures
        after == before,
{
    vstd::set_lib::lemma_subset_equality(after.ready.dom(), before.ready.dom());
    assert(after.ready =~= before.ready);
    assert(after.last_used =~= before.last_used);
}

/// A cache of tiles.
#[verifier::reject_recursive_types(K)]
pub struct TileCache<K: Copy + Eq + Hash, V> {
    ready: HashMap<K, V>,
    /// Tiles asked for and not usable: whether their reply has landed.
    pending: HashMap<K, bool>,
    landed: VecDeque<(K, TileBytes)>,
    failed: HashMap<K, String>,
    last_used: HashMap<K, u64>,
    clock: u64,
    capacity: usize,
    /// Requests on the wire. A reply that has landed but is not decoded yet no
    /// longer occupies the network.
    in_flight: usize,
    max_in_flight: usize,
    asked_this_frame: HashSet<K>,
    outbox: Vec<(K, TileDesc)>,
    wire: Ghost<Set<K>>,
}

impl<K: Copy + Eq + Hash, V> View for TileCache<K, V> {
    type V = CacheState<K, V>;

    closed spec fn view(&self) -> CacheState<K, V> {
        CacheState {
            ready: self.ready@,
            on_wire: self.wire@,
            landed: self.landed@,
            failed: self.failed@,
            last_used: self.last_used@,
            asked: self.asked_this_frame@,
            outbox: self.outbox@,
            clock: self.clock,
            capacity: self.capacity as nat,
            max_in_flight: self.max_in_flight as nat,
        }
    }
}

impl<K: Copy + Eq + Hash, V> TileCache<K, V> {
    /// The cache is in good order, and its keys can be looked up.
    pub closed spec fn wf(&self) -> bool {
        &&& obeys_key_model::<K>()
        &&& self@.ok()
        &&& self.in_flight == self.wire@.len()
        &&& forall|k: K| #[trigger] self.pending@.contains_key(k) <==> self@.pending(k)
        &&& forall|k: K| #[trigger]
            self.pending@.contains_key(k) ==> self.pending@[k] == !self.wire@.contains(k)
    }

    /// What is known of a cache in good order.
    pub proof fn lemma_wf(&self)
        requires
            self.wf(),
        ensures
            self@.ok(),
            self@.ready.dom().finite(),
            obeys_key_model::<K>(),
    {
    }

    /// An empty cache with room for `capacity` tiles, which has at most
    /// `max_in_flight` requests on the wire, but always one.
    ///
    /// The bound keeps panning responsive: requests cannot be taken back, so
    /// without it tiles for ground already left keep those under the eyes
    /// waiting.
    pub fn new(capacity: usize, max_in_flight: usize) -> (c: Self)
        requires
            obeys_key_model::<K>(),
        ensures
            c.wf(),
            c@ == empty_cache::<K, V>(capacity as nat, max_in_flight as nat),
    {
        TileCache {
            ready: HashMap::new(),
            pending: HashMap::new(),
            landed: VecDeque::new(),
            failed: HashMap::new(),
            last_used: HashMap::new(),
            clock: 0,
            capacity,
            in_flight: 0,
            max_in_flight: if max_in_flight >= 1 {
                max_in_flight
            } else {
                1
            },
            asked_this_frame: HashSet::new(),
            outbox: Vec::new(),
            wire: Ghost(Set::empty()),
        }
    }

    /// A new frame. Wants do not carry over: what is still visible asks again,
    /// and what scrolled off never does.
    pub fn tick(&mut self)
        requires
            old(self).wf(),
            old(self)@.clock < u64::MAX,
        ensures
            final(self).wf(),
            final(self)@ == (CacheState {
                clock: (old(self)@.clock + 1) as u64,
                asked: Set::<K>::empty(),
                ..old(self)@
            }),
    {
        self.clock = self.clock + 1;
        self.asked_this_frame.clear();
        assert(forall|k: K| #[trigger] self@.pending(k) <==> old(self)@.pending(k));
    }

    /// Takes a reply in. The slot it held is free, decoded or not, and the tile
    /// stays pending, so that nothing asks for it again.
    pub fn receive(&mut self, key: K, bytes: TileBytes)
        requires
            old(self).wf(),
        ensures
            final(self).wf(),
            final(self)@ == old(self)@.received(key, bytes),
    {
        let waiting: bool = match self.pending.get(&key) {
            Some(has_landed) => !*has_landed,
            None => false,
        };
        if !waiting {
            return ;
        }
        let ghost was = *self;
        assert(self.pending@.contains_key(key));
        assert(self.wire@.contains(key));
        self.pending.insert(key, true);
        self.in_flight = self.in_flight - 1;
        self.wire = Ghost(self.wire@.remove(key));
        self.landed.push_back((key, bytes));
        proof {
            assert(self@.landed[was@.landed.len() as int].0 == key);
            assert forall|k: K| among(self@.landed, k) <==> among(was@.landed, k) || k == key by {
                if among(was@.landed, k) {
                    let i = choose|i: int|
                        0 <= i < was@.landed.len() && (#[trigger] was@.landed[i]).0 == k;
                    assert(self@.landed[i].0 == k);
                }
            }
            assert forall|k: K| self@.pending(k) <==> was@.pending(k) by {}
            assert forall|i: int, j: int| 0 <= i < j < self@.landed.len() implies (
            #[trigger] self@.landed[i]).0 != (#[trigger] self@.landed[j]).0 by {
                assert(self@.landed[i] == was@.landed[i]);
                if j < was@.landed.len() {
                    assert(self@.landed[j] == was@.landed[j]);
                }
            }
            assert forall|i: int| 0 <= i < self@.landed.len() implies !self@.on_wire.contains(
                (#[trigger] self@.landed[i]).0,
            ) by {
                if i < was@.landed.len() {
                    assert(self@.landed[i] == was@.landed[i]);
                }
            }
        }
    }

    /// Decodes replies in the order they came, at most `budget` of them, and
    /// tells whether any are left.
    ///
    /// The budget keeps zooming smooth: a zoom change lands dozens of tiles at
    /// once, and decoding them all would hold up the frame. Those deferred keep
    /// their place in front of what lands later.
    pub fn pump<F: Fn(&K, &[u8]) -> Result<V, String>>(&mut self, budget: usize, decode: F) -> (
        more: bool)
        requires
            old(self).wf(),
            forall|k: &K, b: &[u8]| call_requires(decode, (k, b)),
        ensures
            final(self).wf(),
            pumped(
                old(self)@,
                final(self)@,
                vstd::math::min(budget as int, old(self)@.landed.len() as int) as nat,
                decode,
            ),
            more == (old(self)@.landed.len() > budget),
    {
        let ghost before = self@;
        let ghost all = self.landed@;
        let n: usize = if budget < self.landed.len() {
            budget
        } else {
            self.landed.len()
        };
        let mut i: usize = 0;
        assert(all.skip(0) =~= all);
        while i < n
            invariant
                i <= n <= all.len(),
                all == before.landed,
                before.ok(),
                self.wf(),
                forall|k: &K, b: &[u8]| call_requires(decode, (k, b)),
                pumped(before, self@, i as nat, decode),
            decreases n - i,
        {
            let ghost was = *self;
            let reply = match self.landed.pop_front() {
                Some(r) => r,
                None => {
                    return false;
                },
            };
            let (key, bytes) = reply;
            assert(all.skip(i as int)[0] == all[i as int]);
            assert((key, bytes) == all[i as int]);
            assert(self.landed@ =~= all.skip(i + 1));
            self.pending.remove(&key);
            let ghost mut result: Result<V, String> = arbitrary();
            match bytes {
                Ok(b) => {
                    let slice = b.as_slice();
                    let r = decode(&key, slice);
                    proof {
                        result = r;
                        assert(call_ensures(decode, (&key, slice), r));
                    }
                    match r {
                        Ok(value) => {
                            self.ready.insert(key, value);
                            self.last_used.insert(key, self.clock);
                        },
                        Err(e) => {
                            self.failed.insert(key, e);
                        },
                    }
                },
                Err(e) => {
                    proof {
                        result = Err(e);
                    }
                    self.failed.insert(key, e);
                },
            }
            proof {
                assert(was@.landed[0].0 == key);
                assert(was@.pending(key));
                assert(!was@.ready.contains_key(key));
                assert(!was@.failed.contains_key(key));
                assert(outcome(self@, key, result));
                lemma_first_settled(was, *self, key);
                assert(decoded(self@, all[i as int], decode));
                assert forall|j: int| 0 <= j < i + 1 implies decoded(
                    self@,
                    #[trigger] before.landed[j],
                    decode,
                ) by {
                    if j < i {
                        assert(decoded(was@, before.landed[j], decode));
                        assert(before.landed[j].0 != key);
                        lemma_decoded_kept(was@, self@, before.landed[j], decode);
                    }
                }
                assert forall|k: K|
                    (forall|j: int| 0 <= j < i + 1 ==> (#[trigger] before.landed[j]).0
                        != k) implies #[trigger] same_of(before, self@, k) by {
                    assert(before.landed[i as int].0 != k);
                    assert(same_of(before, was@, k));
                }
            }
            i = i + 1;
        }
        self.landed.len() > 0
    }

    /// Whether the tile is at hand. Where it is not known, asks for it, if a slot
    /// is free.
    ///
    /// A tile refused a slot is not asked for in this frame. The visible grid is
    /// walked again in every frame, so it asks again as soon as a slot frees, and
    /// if the view has moved on, it never will.
    pub fn ensure(&mut self, key: &K, desc: TileDesc) -> (at_hand: bool)
        requires
            old(self).wf(),
        ensures
            final(self).wf(),
            final(self)@ == old(self)@.wanted(*key, desc),
            at_hand == old(self)@.ready.contains_key(*key),
    {
        let ghost was = *self;
        if self.ready.contains_key(key) {
            self.last_used.insert(*key, self.clock);
            assert(self@.last_used.dom() =~= was@.last_used.dom());
            assert(forall|k: K| #[trigger] self@.pending(k) <==> was@.pending(k));
            return true;
        }
        if self.pending.contains_key(key) || self.failed.contains_key(key) {
            return false;
        }
        if self.asked_this_frame.contains(key) {
            return false;
        }
        self.asked_this_frame.insert(*key);
        proof {
            assert(self@.landed == was@.landed);
            assert(self@.ready == was@.ready);
            assert(self@.failed == was@.failed);
            assert forall|k: K| #[trigger] self@.pending(k) <==> was@.pending(k) by {}
            assert forall|k: K| #[trigger] self.pending@.contains_key(k) <==> self@.pending(k) by {
                assert(was.pending@.contains_key(k) <==> was@.pending(k));
            }
            assert(self@.ok());
        }
        if self.in_flight < self.max_in_flight {
            self.spawn(*key, desc);
        }
        false
    }

    /// Puts a request out.
    fn spawn(&mut self, key: K, desc: TileDesc)
        requires
            old(self).wf(),
            !old(self)@.ready.contains_key(key),
            !old(self)@.failed.contains_key(key),
            !old(self)@.pending(key),
            old(self)@.on_wire.len() < old(self)@.max_in_flight,
        ensures
            final(self).wf(),
            final(self)@ == (CacheState {
                on_wire: old(self)@.on_wire.insert(key),
                outbox: old(self)@.outbox.push((key, desc)),
                ..old(self)@
            }),
    {
        let ghost was = *self;
        self.pending.insert(key, false);
        self.in_flight = self.in_flight + 1;
        self.wire = Ghost(self.wire@.insert(key));
        self.outbox.push((key, desc));
        proof {
            assert forall|k: K| among(self@.landed, k) <==> among(was@.landed, k) by {}
            assert forall|k: K| self@.pending(k) <==> was@.pending(k) || k == key by {}
            assert forall|i: int| 0 <= i < self@.landed.len() implies !self@.on_wire.contains(
                (#[trigger] self@.landed[i]).0,
            ) by {
                assert(among(was@.landed, was@.landed[i].0));
            }
        }
    }

    /// Hands out the requests to be sent, each once.
    pub fn take_requests(&mut self) -> (v: Vec<(K, TileDesc)>)
        requires
            old(self).wf(),
        ensures
            final(self).wf(),
            v@ == old(self)@.outbox,
            final(self)@ == (CacheState {
                outbox: Seq::<(K, TileDesc)>::empty(),
                ..old(self)@
            }),
    {
        let ghost was = *self;
        let mut out: Vec<(K, TileDesc)> = Vec::new();
        out.append(&mut self.outbox);
        assert(out@ =~= was.outbox@);
        assert(forall|k: K| #[trigger] self@.pending(k) <==> was@.pending(k));
        out
    }

    /// Looks a tile up without asking for it.
    pub fn peek(&mut self, key: &K) -> (r: Option<&V>)
        requires
            old(self).wf(),
        ensures
            final(self).wf(),
            final(self)@ == old(self)@.touched(*key),
            r is Some <==> old(self)@.ready.contains_key(*key),
            r matches Some(v) ==> *v == old(self)@.ready[*key],
    {
        let ghost was = *self;
        if self.ready.contains_key(key) {
            self.last_used.insert(*key, self.clock);
            assert(self@.last_used.dom() =~= was@.last_used.dom());
        }
        assert(forall|k: K| #[trigger] self@.pending(k) <==> was@.pending(k));
        self.ready.get(key)
    }

    /// Whether the tile is at hand. This is no use of it.
    pub fn is_ready(&self, key: &K) -> (b: bool)
        requires
            self.wf(),
        ensures
            b == self@.ready.contains_key(*key),
    {
        self.ready.contains_key(key)
    }

    /// Drops the tiles that were not used for longest, until the rest fits.
    pub fn evict(&mut self)
        requires
            old(self).wf(),
        ensures
            final(self).wf(),
            evicted(old(self)@, final(self)@),
            old(self)@.ready.dom().len() <= old(self)@.capacity ==> final(self)@ == old(self)@,
    {
        let ghost before = self@;
        if self.ready.len() <= self.capacity {
            assert(before.ready.restrict(before.ready.dom()) =~= before.ready);
            assert(before.last_used.restrict(before.ready.dom()) =~= before.last_used);
            return ;
        }
        let mut keys: Vec<K> = Vec::new();
        for k in it: self.ready.keys()
            invariant
                obeys_key_model::<K>(),
                keys@.len() == it.index(),
                forall|j: int| 0 <= j < keys@.len() ==> keys@[j] == *it.seq()[j],
        {
            keys.push(*k);
        }
        proof {
            let listed = vstd::std_specs::iter::IteratorSpec::remaining(&spec_keys_iter(&self.ready));
            assert(keys@ =~= listed.unref());
            assert(keys@.to_set() == before.ready.dom());
            assert forall|i: int, j: int| 0 <= i < j < keys@.len() implies keys@[i] != keys@[j] by {
                assert(listed[i] != listed[j]);
            }
            assert forall|k: K| before.ready.contains_key(k) <==> keys@.contains(k) by {
                assert(keys@.to_set().contains(k) <==> keys@.contains(k));
            }
            assert(before.ready.restrict(before.ready.dom()) =~= before.ready);
            assert(before.last_used.restrict(before.ready.dom()) =~= before.last_used);
        }
        while self.ready.len() > self.capacity
            invariant
                self.wf(),
                before.ok(),
                self.ready@.dom().subset_of(before.ready.dom()),
                self.ready@ == before.ready.restrict(self.ready@.dom()),
                self.last_used@ == before.last_used.restrict(self.ready@.dom()),
                self@ == (CacheState {
                    ready: self@.ready,
                    last_used: self@.last_used,
                    ..before
                }),
                before.ready.dom().len() > before.capacity,
                self.ready@.dom().len() >= before.capacity,
                keys@.no_duplicates(),
                forall|k: K| self.ready@.contains_key(k) <==> #[trigger] keys@.contains(k),
                forall|gone: K, kept: K|
                    before.ready.contains_key(gone) && !#[trigger] self.ready@.contains_key(gone)
                        && #[trigger] self.ready@.contains_key(kept) ==> before.last_used[gone]
                        <= before.last_used[kept],
            decreases self.ready@.dom().len(),
        {
            let ghost was = *self;
            proof {
                lemma_keys_left(keys@, self.ready@.dom());
            }
            let at: usize = self.oldest(&keys);
            let key: K = keys[at];
            let ghost listed = keys@;
            keys.swap_remove(at);
            self.ready.remove(&key);
            self.last_used.remove(&key);
            proof {
                lemma_swap_removed(listed, at as int);
                assert(listed.contains(key));
                assert(self.ready@.dom() =~= was.ready@.dom().remove(key));
                assert(self.ready@ =~= before.ready.restrict(self.ready@.dom()));
                assert(self.last_used@ =~= before.last_used.restrict(self.ready@.dom()));
                assert(forall|k: K| #[trigger] self@.pending(k) <==> was@.pending(k));
                assert forall|gone: K, kept: K|
                    before.ready.contains_key(gone) && !#[trigger] self.ready@.contains_key(gone)
                        && #[trigger] self.ready@.contains_key(kept) implies before.last_used[gone]
                    <= before.last_used[kept] by {
                    assert(was.ready@.contains_key(kept));
                    if gone == key {
                        assert(listed.contains(kept));
                        let j = listed.index_of(kept);
                        assert(was.last_used@[listed[at as int]] <= was.last_used@[listed[j]]);
                    } else {
                        assert(!was.ready@.contains_key(gone));
                    }
                }
            }
        }
    }

    /// The place of a tile that was not used for longest.
    fn oldest(&self, keys: &Vec<K>) -> (at: usize)
        requires
            obeys_key_model::<K>(),
            keys@.len() > 0,
            forall|i: int| 0 <= i < keys@.len() ==> self.last_used@.contains_key(#[trigger] keys@[i]),
        ensures
            at < keys@.len(),
            forall|j: int|
                0 <= j < keys@.len() ==> self.last_used@[keys@[at as int]]
                    <= self.last_used@[#[trigger] keys@[j]],
    {
        let mut at: usize = 0;
        assert(self.last_used@.contains_key(keys@[0]));
        let mut age: u64 = match self.last_used.get(&keys[0]) {
            Some(a) => *a,
            None => 0,
        };
        let mut j: usize = 1;
        while j < keys.len()
            invariant
                obeys_key_model::<K>(),
                forall|i: int|
                    0 <= i < keys@.len() ==> self.last_used@.contains_key(#[trigger] keys@[i]),
                1 <= j <= keys@.len(),
                at < j,
                age == self.last_used@[keys@[at as int]],
                forall|i: int| 0 <= i < j ==> age <= self.last_used@[#[trigger] keys@[i]],
            decreases keys@.len() - j,
        {
            assert(self.last_used@.contains_key(keys@[j as int]));
            let a: u64 = match self.last_used.get(&keys[j]) {
                Some(a) => *a,
                None => 0,
            };
            if a < age {
                age = a;
                at = j;
            }
            j = j + 1;
        }
        at
    }

    /// How many tiles are at hand, pending, and given up.
    pub fn stats(&self) -> (r: (usize, usize, usize))
        requires
            self.wf(),
        ensures
            r.0 == self@.ready.dom().len(),
            r.1 == self@.on_wire.len() + self@.landed.len(),
            r.2 == self@.failed.dom().len(),
    {
        proof {
            let keys = Seq::new(self.landed@.len(), |i: int| self.landed@[i].0);
            assert forall|i: int, j: int| 0 <= i < j < keys.len() implies keys[i] != keys[j] by {
                assert(self@.landed[i].0 != self@.landed[j].0);
            }
            keys.unique_seq_to_set();
            assert forall|k: K| keys.to_set().contains(k) implies !self.wire@.contains(k) by {
                let i = keys.index_of(k);
                assert(!self@.on_wire.contains(self@.landed[i].0));
            }
            vstd::set_lib::lemma_set_disjoint_lens(self.wire@, keys.to_set());
            assert forall|k: K| self.pending@.dom().contains(k) <==> (self.wire@
                + keys.to_set()).contains(k) by {
                assert(self.pending@.contains_key(k) <==> self@.pending(k));
                if among(self@.landed, k) {
                    let i = choose|i: int|
                        0 <= i < self@.landed.len() && (#[trigger] self@.landed[i]).0 == k;
                    assert(keys[i] == k);
                }
                if keys.contains(k) {
                    let i = keys.index_of(k);
                    assert(self@.landed[i].0 == k);
                }
            }
            assert(self.pending@.dom() =~= self.wire@ + keys.to_set());
        }
        (self.ready.len(), self.pending.len(), self.failed.len())
    }

    /// Requests on the wire.
    pub fn in_flight(&self) -> (n: usize)
        requires
            self.wf(),
        ensures
            n == self@.on_wire.len(),
            n <= self@.max_in_flight,
    {
        self.in_flight
    }
}

/// A tile that was asked for is not asked for again while it is pending, nor
/// once it is at hand or given up, however many frames go by.
pub proof fn law_no_tile_is_asked_for_twice<K, V>(s: CacheState<K, V>, k: K, desc: TileDesc)
    requires
        s.ok(),
        s.pending(k) || s.ready.contains_key(k) || s.failed.contains_key(k),
    ensures
        s.wanted(k, desc).outbox == s.outbox,
        s.wanted(k, desc).on_wire == s.on_wire,
{
}

/// A tile wanted twice in a frame is asked for once.
pub proof fn law_one_request_per_frame<K, V>(
    s: CacheState<K, V>,
    k: K,
    desc: TileDesc,
    again: TileDesc,
)
    requires
        s.ok(),
    ensures
        s.wanted(k, desc).wanted(k, again).outbox == s.wanted(k, desc).outbox,
        s.wanted(k, desc).outbox.len() <= s.outbox.len() + 1,
{
}

/// Never more requests are on the wire than allowed, whatever is wanted.
pub proof fn law_requests_are_capped<K, V>(s: CacheState<K, V>, k: K, desc: TileDesc)
    requires
        s.ok(),
    ensures
        s.wanted(k, desc).on_wire.len() <= s.max_in_flight,
{
}

/// A reply frees its slot: a tile that was refused one can then be asked for.
pub proof fn law_freed_slots_let_the_rest_through<K, V>(
    s: CacheState<K, V>,
    k: K,
    bytes: TileBytes,
    next: K,
    desc: TileDesc,
)
    requires
        s.ok(),
        s.on_wire.contains(k),
        !s.pending(next),
        !s.ready.contains_key(next),
        !s.failed.contains_key(next),
        !s.asked.contains(next),
    ensures
        s.received(k, bytes).on_wire.len() == s.on_wire.len() - 1,
        s.received(k, bytes).wanted(next, desc).outbox == s.outbox.push((next, desc)),
{
    let r = s.received(k, bytes);
    assert(!among(r.landed, next)) by {
        if among(r.landed, next) {
            let i = choose|i: int| 0 <= i < r.landed.len() && (#[trigger] r.landed[i]).0 == next;
            if i < s.landed.len() {
                assert(s.landed[i].0 == next);
            }
        }
    }
}

/// What the budget defers is not lost: it is still pending, in its order, and in
/// front of what lands later.
pub proof fn law_deferred_replies_keep_their_place<K, V, F: Fn(&K, &[u8]) -> Result<V, String>>(
    before: CacheState<K, V>,
    after: CacheState<K, V>,
    budget: nat,
    decode: F,
    later: K,
    bytes: TileBytes,
)
    requires
        before.ok(),
        budget <= before.landed.len(),
        pumped(before, after, budget, decode),
        after.on_wire.contains(later),
    ensures
        after.landed.len() == before.landed.len() - budget,
        forall|i: int|
            budget <= i < before.landed.len() ==> after.pending((#[trigger] before.landed[i]).0),
        after.received(later, bytes).landed == before.landed.skip(budget as int).push(
            (later, bytes),
        ),
{
    assert forall|i: int| budget <= i < before.landed.len() implies after.pending(
        (#[trigger] before.landed[i]).0,
    ) by {
        assert(after.landed[i - budget] == before.landed[i]);
    }
}

/// A reply that was settled leaves the cache in good order.
proof fn lemma_first_settled<K: Copy + Eq + Hash, V>(
    was: TileCache<K, V>,
    now: TileCache<K, V>,
    key: K,
)
    requires
        was.wf(),
        was@.landed.len() > 0,
        was@.landed[0].0 == key,
        now@.landed == was@.landed.skip(1),
        now.pending@ == was.pending@.remove(key),
        now.wire == was.wire,
        now.in_flight == was.in_flight,
        now@.clock == was@.clock,
        now@.capacity == was@.capacity,
        now@.max_in_flight == was@.max_in_flight,
        (now@.failed == was@.failed && now@.ready.dom() == was@.ready.dom().insert(key)
            && now@.last_used.dom() == was@.last_used.dom().insert(key)) || (now@.ready
            == was@.ready && now@.last_used == was@.last_used && now@.failed.dom()
            == was@.failed.dom().insert(key)),
    ensures
        now.wf(),
{
    assert forall|k: K| among(now@.landed, k) <==> among(was@.landed, k) && k != key by {
        if among(now@.landed, k) {
            let i = choose|i: int| 0 <= i < now@.landed.len() && (#[trigger] now@.landed[i]).0 == k;
            assert(was@.landed[i + 1] == now@.landed[i]);
            assert(was@.landed[0].0 != was@.landed[i + 1].0);
        }
        if among(was@.landed, k) && k != key {
            let i = choose|i: int| 0 <= i < was@.landed.len() && (#[trigger] was@.landed[i]).0 == k;
            assert(now@.landed[i - 1] == was@.landed[i]);
        }
    }
    assert(was@.pending(key));
    assert forall|k: K| #[trigger] now.pending@.contains_key(k) <==> now@.pending(k) by {
        assert(was.pending@.contains_key(k) <==> was@.pending(k));
    }
    assert forall|i: int, j: int| 0 <= i < j < now@.landed.len() implies (
    #[trigger] now@.landed[i]).0 != (#[trigger] now@.landed[j]).0 by {
        assert(now@.landed[i] == was@.landed[i + 1]);
        assert(now@.landed[j] == was@.landed[j + 1]);
    }
    assert forall|i: int| 0 <= i < now@.landed.len() implies !now@.on_wire.contains(
        (#[trigger] now@.landed[i]).0,
    ) by {
        assert(now@.landed[i] == was@.landed[i + 1]);
    }
    assert forall|k: K| #[trigger] now@.ready.contains_key(k) implies !now@.pending(k)
        && !now@.failed.contains_key(k) by {
        if k != key {
            assert(was@.ready.contains_key(k));
        }
    }
    assert forall|k: K| #[trigger] now@.failed.contains_key(k) implies !now@.pending(k) by {
        if k != key {
            assert(was@.failed.contains_key(k));
        }
    }
}

/// What became of a reply is not changed by another one.
proof fn lemma_decoded_kept<K, V, F: Fn(&K, &[u8]) -> Result<V, String>>(
    was: CacheState<K, V>,
    now: CacheState<K, V>,
    reply: (K, TileBytes),
    decode: F,
)
    requires
        decoded(was, reply, decode),
        same_of(was, now, reply.0),
        now.clock == was.clock,
    ensures
        decoded(now, reply, decode),
{
    match reply.1 {
        Ok(bytes) => {
            let (s, r) = choose|s: &[u8], r: Result<V, String>|
                s@ == bytes@ && #[trigger] call_ensures(decode, (&reply.0, s), r) && outcome(
                    was,
                    reply.0,
                    r,
                );
            assert(outcome(now, reply.0, r));
        },
        Err(e) => {},
    }
}

/// A set that holds something has a key left.
proof fn lemma_keys_left<K>(keys: Seq<K>, dom: Set<K>)
    requires
        dom.finite(),
        dom.len() > 0,
        forall|k: K| dom.contains(k) <==> #[trigger] keys.contains(k),
    ensures
        keys.len() > 0,
        forall|i: int| 0 <= i < keys.len() ==> dom.contains(#[trigger] keys[i]),
{
    let k = dom.choose();
    assert(dom.contains(k));
    assert(keys.contains(k));
    assert forall|i: int| 0 <= i < keys.len() implies dom.contains(#[trigger] keys[i]) by {
        assert(keys.contains(keys[i]));
    }
}

/// Taking a key out leaves the others.
proof fn lemma_swap_removed<K>(keys: Seq<K>, at: int)
    requires
        0 <= at < keys.len(),
        keys.no_duplicates(),
    ensures
        ({
            let rest = keys.update(at, keys.last()).drop_last();
            &&& rest.no_duplicates()
            &&& forall|k: K| #[trigger] rest.contains(k) <==> keys.contains(k) && k != keys[at]
        }),
{
    let rest = keys.update(at, keys.last()).drop_last();
    let last = keys.len() - 1;
    assert forall|k: K| #[trigger] rest.contains(k) <==> keys.contains(k) && k != keys[at] by {
        if rest.contains(k) {
            let i = rest.index_of(k);
            if i == at {
                assert(keys[last] == k);
            } else {
                assert(keys[i] == k);
            }
        }
        if keys.contains(k) && k != keys[at] {
            let i = keys.index_of(k);
            if i == last {
                assert(rest[at] == k);
            } else {
                assert(rest[i] == k);
            }
        }
    }
}

/// A tile that is new is asked for as it is described, as long as a slot is free,
/// and then waited for; nothing at hand changes by that.
pub proof fn law_a_new_tile_is_asked_for<K, V>(s: CacheState<K, V>, k: K, desc: TileDesc)
    requires
        s.ok(),
        !s.pending(k),
        !s.ready.contains_key(k),
        !s.failed.contains_key(k),
        !s.asked.contains(k),
    ensures
        s.on_wire.len() < s.max_in_flight ==> s.wanted(k, desc).outbox == s.outbox.push((k, desc)),
        s.on_wire.len() < s.max_in_flight ==> s.wanted(k, desc).on_wire == s.on_wire.insert(k),
        s.on_wire.len() == s.max_in_flight ==> s.wanted(k, desc).outbox == s.outbox,
        s.on_wire.len() == s.max_in_flight ==> s.wanted(k, desc).on_wire == s.on_wire,
        s.wanted(k, desc).ready == s.ready,
        s.wanted(k, desc).last_used == s.last_used,
        s.wanted(k, desc).failed == s.failed,
        s.wanted(k, desc).landed == s.landed,
{
}

/// A tile that was refused a slot is asked for in a later frame, once one is free.
pub proof fn law_a_refused_tile_asks_again<K, V>(
    s: CacheState<K, V>,
    k: K,
    desc: TileDesc,
    next: CacheState<K, V>,
)
    requires
        s.ok(),
        !s.pending(k),
        !s.ready.contains_key(k),
        !s.failed.contains_key(k),
        s.on_wire.len() == s.max_in_flight,
        next == (CacheState {
            asked: Set::<K>::empty(),
            clock: next.clock,
            on_wire: next.on_wire,
            ..s.wanted(k, desc)
        }),
        next.on_wire.subset_of(s.on_wire),
        next.on_wire.len() < s.max_in_flight,
    ensures
        next.wanted(k, desc).outbox == s.outbox.push((k, desc)),
        next.wanted(k, desc).on_wire.contains(k),
{
    assert(next.landed == s.landed);
    assert(!next.pending(k));
}

/// Using a tile remembers when, and of that tile alone; it takes no tile away.
pub proof fn law_a_use_is_remembered<K, V>(s: CacheState<K, V>, k: K, desc: TileDesc, other: K)
    requires
        s.ok(),
        s.ready.contains_key(k),
        other != k,
    ensures
        s.touched(k).last_used[k] == s.clock,
        s.touched(k).ready == s.ready,
        s.touched(k).last_used.dom() == s.last_used.dom(),
        s.ready.contains_key(other) ==> s.touched(k).last_used[other] == s.last_used[other],
        s.wanted(k, desc) == s.touched(k),
{
    assert(s.touched(k).last_used.dom() =~= s.last_used.dom());
}

/// Room is made by dropping the tiles that were used longest ago: one that was used
/// in this frame is dropped only where all that are left were.
pub proof fn law_the_oldest_tiles_make_room<K, V>(
    before: CacheState<K, V>,
    after: CacheState<K, V>,
    gone: K,
    kept: K,
)
    requires
        before.ok(),
        evicted(before, after),
        before.ready.contains_key(gone),
        !after.ready.contains_key(gone),
        after.ready.contains_key(kept),
        before.last_used[kept] <= before.clock,
    ensures
        after.ready.dom().len() <= before.capacity,
        before.ready.dom().len() > before.capacity || after.ready.dom().len()
            == before.ready.dom().len(),
        before.last_used[gone] == before.clock ==> before.last_used[kept] == before.clock,
        before.last_used[kept] < before.clock ==> before.last_used[gone] < before.clock,
        before.ready.contains_key(kept) && after.ready[kept] == before.ready[kept],
        after.last_used[kept] == before.last_used[kept],
{
    if before.ready.dom().len() <= before.capacity && before.ready.dom().finite() {
        vstd::set_lib::lemma_subset_equality(after.ready.dom(), before.ready.dom());
        assert(after.ready.contains_key(gone));
    }
    assert(after.ready.dom().contains(kept));
}

/// A reply that brings no bytes makes its tile a failure, for the reason it gives,
/// and one that does makes it what they decode to; a reply that the budget left out
/// changes nothing of its tile.
pub proof fn law_what_becomes_of_a_reply<K, V, F: Fn(&K, &[u8]) -> Result<V, String>>(
    before: CacheState<K, V>,
    after: CacheState<K, V>,
    n: nat,
    decode: F,
    i: int,
)
    requires
        before.ok(),
        n <= before.landed.len(),
        pumped(before, after, n, decode),
        0 <= i < before.landed.len(),
    ensures
        ({
            let k = before.landed[i].0;
            if i < n {
                match before.landed[i].1 {
                    Err(e) => after.failed.contains_key(k) && after.failed[k] == e
                        && !after.ready.contains_key(k),
                    Ok(bytes) => {
                        &&& after.ready.contains_key(k) != after.failed.contains_key(k)
                        &&& after.ready.contains_key(k) ==> exists|s: &[u8]|
                            s@ == bytes@ && #[trigger] call_ensures(
                                decode,
                                (&k, s),
                                Ok(after.ready[k]),
                            )
                        &&& after.failed.contains_key(k) ==> exists|s: &[u8]|
                            s@ == bytes@ && #[trigger] call_ensures(
                                decode,
                                (&k, s),
                                Err(after.failed[k]),
                            )
                    },
                }
            } else {
                !after.ready.contains_key(k) && !after.failed.contains_key(k) && after.pending(k)
            }
        }),
{
    let k = before.landed[i].0;
    if i < n {
        assert(decoded(after, before.landed[i], decode));
    } else {
        assert(before.pending(k)) by {
            assert(among(before.landed, k));
        }
        assert(same_of(before, after, k));
        assert(after.landed[i - n] == before.landed[i]);
    }
}

/// A reply that nobody waits for is dropped, and one that is waited for is kept
/// until it is decoded, behind those that came before it.
pub proof fn law_replies_queue_up<K, V>(s: CacheState<K, V>, k: K, bytes: TileBytes)
    requires
        s.ok(),
    ensures
        !s.on_wire.contains(k) ==> s.received(k, bytes) == s,
        s.on_wire.contains(k) ==> {
            &&& s.received(k, bytes).landed == s.landed.push((k, bytes))
            &&& !s.received(k, bytes).on_wire.contains(k)
            &&& s.received(k, bytes).pending(k)
            &&& s.received(k, bytes).ready == s.ready
            &&& s.received(k, bytes).failed == s.failed
        },
{
    if s.on_wire.contains(k) {
        let r = s.received(k, bytes);
        assert(r.landed[r.landed.len() - 1].0 == k);
    }
}

} // verus!
