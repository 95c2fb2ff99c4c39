//! Collecting ways and the nodes they run through, and sorting them into tiles.
use vstd::prelude::*;
use vstd::std_specs::hash::*;
use std::collections::{HashMap, HashSet};

use crate::geo::{Bounds, LatLon};
use crate::text::same_text;
use crate::trailfmt::index::TileId;
use crate::trailfmt::tile::{ArchiveWay, WayView};
use crate::trailfmt::{kind_from_highway, sac_from_tag};
use crate::trailfmt::{tile, vocabulary};

verus! {

broadcast use vstd::std_specs::hash::group_hash_axioms;

// ---------------------------------------------------------------------------
// Collecting
// ---------------------------------------------------------------------------

/// A walkable way, by the nodes it runs through.
#[derive(Clone, Debug)]
pub struct Candidate {
    pub id: i64,
    pub kind: u8,
    pub sac: u8,
    pub name: Option<String>,
    pub refs: Vec<i64>,
}

/// What a candidate stands for.
#[verifier::ext_equal]
pub struct CandidateView {
    pub id: i64,
    pub kind: u8,
    pub sac: u8,
    pub name: Option<Seq<char>>,
    pub refs: Seq<i64>,
}

impl View for Candidate {
    type V = CandidateView;

    open spec fn view(&self) -> CandidateView {
        CandidateView {
            id: self.id,
            kind: self.kind,
            sac: self.sac,
            name: match self.name {
                Some(s) => Some(s@),
                None => None,
            },
            refs: self.refs@,
        }
    }
}

/// Where a node is: its position, the same in quanta, and its tile.
#[derive(Clone, Copy, Debug)]
pub struct Place {
    pub at: LatLon,
    pub quanta: (i64, i64),
    pub tile: TileId,
}

/// Tags as plain text.
pub open spec fn tag_texts(tags: Seq<(String, String)>) -> Seq<(Seq<char>, Seq<char>)> {
    Seq::new(tags.len(), |i: int| (tags[i].0@, tags[i].1@))
}

/// The class that the last `highway` tag gives.
pub open spec fn tagged_kind(tags: Seq<(Seq<char>, Seq<char>)>) -> Option<u8>
    decreases tags.len(),
{
    if tags.len() == 0 {
        None
    } else if tags.last().0 == "highway"@ {
        vocabulary::kind_of(tags.last().1)
    } else {
        tagged_kind(tags.drop_last())
    }
}

/// The difficulty that the last `sac_scale` tag gives, and 0 without one.
pub open spec fn tagged_sac(tags: Seq<(Seq<char>, Seq<char>)>) -> u8
    decreases tags.len(),
{
    if tags.len() == 0 {
        0
    } else if tags.last().0 == "sac_scale"@ {
        vocabulary::sac_of(tags.last().1)
    } else {
        tagged_sac(tags.drop_last())
    }
}

/// The last name given.
pub open spec fn tagged_name(tags: Seq<(Seq<char>, Seq<char>)>) -> Option<Seq<char>>
    decreases tags.len(),
{
    if tags.len() == 0 {
        None
    } else if tags.last().0 == "name"@ {
        Some(tags.last().1)
    } else {
        tagged_name(tags.drop_last())
    }
}

/// Some way has an id.
pub open spec fn has_id(ways: Seq<CandidateView>, id: i64) -> bool {
    exists|i: int| 0 <= i < ways.len() && (#[trigger] ways[i]).id == id
}

/// A way is kept: it is walkable, has a length, and was not seen before.
/// Extracts overlap at their borders, and a way must be kept once.
pub open spec fn takes(
    ways: Seq<CandidateView>,
    id: i64,
    tags: Seq<(Seq<char>, Seq<char>)>,
    refs: Seq<i64>,
) -> bool {
    !has_id(ways, id) && tagged_kind(tags) is Some && refs.len() >= 2
}

/// The ways with one more, if it is kept.
pub open spec fn taken(
    ways: Seq<CandidateView>,
    id: i64,
    tags: Seq<(Seq<char>, Seq<char>)>,
    refs: Seq<i64>,
) -> Seq<CandidateView> {
    if takes(ways, id, tags, refs) {
        ways.push(
            CandidateView {
                id,
                kind: tagged_kind(tags)->0,
                sac: tagged_sac(tags),
                name: tagged_name(tags),
                refs,
            },
        )
    } else {
        ways
    }
}

/// How often a node occurs.
pub open spec fn occurrences(refs: Seq<i64>, r: i64) -> nat
    decreases refs.len(),
{
    if refs.len() == 0 {
        0
    } else {
        occurrences(refs.drop_last(), r) + if refs.last() == r {
            1nat
        } else {
            0nat
        }
    }
}

/// How often ways run through a node.
pub open spec fn passes(ways: Seq<CandidateView>, r: i64) -> nat
    decreases ways.len(),
{
    if ways.len() == 0 {
        0
    } else {
        passes(ways.drop_last(), r) + occurrences(ways.last().refs, r)
    }
}

/// A count that stops at the most a byte holds.
pub open spec fn in_a_byte(n: nat) -> u8 {
    if n > 255 {
        255
    } else {
        n as u8
    }
}

/// What was collected: the ways in the order they came, and where their nodes
/// are.
#[verifier::ext_equal]
pub struct Collected {
    pub ways: Seq<CandidateView>,
    pub places: Map<i64, Place>,
}

/// Ways first, then the nodes they run through.
///
/// A way carries node references and no coordinates, so nothing can be built
/// until the nodes have been read, and nodes are of no use until it is known
/// which of them a walkable way runs through.
pub struct Collector {
    ways: Vec<Candidate>,
    seen: HashSet<i64>,
    /// How often each node is passed, up to what a byte holds: two already mean
    /// a junction.
    refs: HashMap<i64, u8>,
    places: HashMap<i64, Place>,
}

/// The views of some candidates.
pub open spec fn candidate_views(ways: Seq<Candidate>) -> Seq<CandidateView> {
    Seq::new(ways.len(), |i: int| ways[i]@)
}

impl View for Collector {
    type V = Collected;

    closed spec fn view(&self) -> Collected {
        Collected { ways: candidate_views(self.ways@), places: self.places@ }
    }
}

/// A table counts, for each node, how often it is passed.
spec fn counts(table: Map<i64, u8>, ways: Seq<CandidateView>) -> bool {
    forall|r: i64|
        #![trigger table.contains_key(r)]
        #![trigger passes(ways, r)]
        (table.contains_key(r) <==> passes(ways, r) > 0) && (table.contains_key(r) ==> table[r]
            == in_a_byte(passes(ways, r)))
}

/// A table counts how often each node is passed by ways and then by some of the
/// nodes of one more.
spec fn counts_so_far(table: Map<i64, u8>, ways: Seq<CandidateView>, refs: Seq<i64>) -> bool {
    forall|r: i64|
        #![trigger table.contains_key(r)]
        #![trigger occurrences(refs, r)]
        (table.contains_key(r) <==> passes(ways, r) + occurrences(refs, r) > 0) && (
        table.contains_key(r) ==> table[r] == in_a_byte(passes(ways, r) + occurrences(refs, r)))
}

impl Collector {
    pub closed spec fn wf(&self) -> bool {
        &&& forall|id: i64| #[trigger] self.seen@.contains(id) <==> has_id(self@.ways, id)
        &&& counts(self.refs@, self@.ways)
    }

    pub fn new() -> (c: Self)
        ensures
            c.wf(),
            c@.ways == Seq::<CandidateView>::empty(),
            c@.places == Map::<i64, Place>::empty(),
    {
        Collector {
            ways: Vec::new(),
            seen: HashSet::new(),
            refs: HashMap::new(),
            places: HashMap::new(),
        }
    }

    /// How many ways were kept.
    pub fn way_count(&self) -> (n: usize)
        ensures
            n == self@.ways.len(),
    {
        self.ways.len()
    }

    /// How many nodes they run through.
    pub fn node_count(&self) -> (n: usize)
        requires
            self.wf(),
        ensures
            n == Set::new(|r: i64| passes(self@.ways, r) > 0).len(),
    {
        assert(self.refs@.dom() =~= Set::new(|r: i64| passes(self@.ways, r) > 0));
        self.refs.len()
    }

    /// How many nodes have a place.
    pub fn place_count(&self) -> (n: usize)
        ensures
            n == self@.places.dom().len(),
    {
        self.places.len()
    }

    /// Takes a way, unless it is not walkable, has no length or was seen before.
    /// Tells whether it was kept.
    pub fn add_way(&mut self, id: i64, tags: &Vec<(String, String)>, refs: Vec<i64>) -> (kept: bool)
        requires
            old(self).wf(),
        ensures
            final(self).wf(),
            final(self)@.ways == taken(old(self)@.ways, id, tag_texts(tags@), refs@),
            final(self)@.places == old(self)@.places,
            kept == takes(old(self)@.ways, id, tag_texts(tags@), refs@),
    {
        let ghost was = self@.ways;
        if self.seen.contains(&id) {
            return false;
        }
        let (kind, sac, name) = read_tags(tags);
        let kind: u8 = match kind {
            Some(k) => k,
            None => {
                return false;
            },
        };
        if refs.len() < 2 {
            return false;
        }
        let mut i: usize = 0;
        assert(refs@.take(0) =~= seq![]);
        assert(counts_so_far(self.refs@, was, refs@.take(0)));
        while i < refs.len()
            invariant
                i <= refs@.len(),
                self.ways == old(self).ways,
                self.seen == old(self).seen,
                self.places == old(self).places,
                counts_so_far(self.refs@, was, refs@.take(i as int)),
            decreases refs@.len() - i,
        {
            let r: i64 = refs[i];
            let ghost table = self.refs@;
            let c: u8 = match self.refs.get(&r) {
                Some(c) => *c,
                None => 0,
            };
            let n: u8 = if c == 255 {
                255
            } else {
                c + 1
            };
            assert(refs@.take(i + 1).drop_last() =~= refs@.take(i as int));
            assert(table.contains_key(r) || occurrences(refs@.take(i as int), r) == 0);
            self.refs.insert(r, n);
            assert forall|q: i64|
                #![trigger self.refs@.contains_key(q)]
                #![trigger occurrences(refs@.take(i + 1), q)]
                (self.refs@.contains_key(q) <==> passes(was, q) + occurrences(
                    refs@.take(i + 1),
                    q,
                ) > 0) && (self.refs@.contains_key(q) ==> self.refs@[q] == in_a_byte(
                    passes(was, q) + occurrences(refs@.take(i + 1), q),
                )) by {
                assert(occurrences(refs@.take(i + 1), q) == occurrences(refs@.take(i as int), q)
                    + if r == q {
                    1nat
                } else {
                    0nat
                });
                assert(table.contains_key(q) <==> passes(was, q) + occurrences(
                    refs@.take(i as int),
                    q,
                ) > 0);
            }
            i = i + 1;
        }
        assert(refs@.take(i as int) =~= refs@);
        self.seen.insert(id);
        self.ways.push(Candidate { id, kind, sac, name, refs });
        proof {
            let now = self@.ways;
            assert(now =~= taken(was, id, tag_texts(tags@), refs@));
            assert(now.drop_last() =~= was);
            assert forall|q: i64| #[trigger] self.seen@.contains(q) <==> has_id(now, q) by {
                if has_id(was, q) {
                    let k = choose|k: int| 0 <= k < was.len() && (#[trigger] was[k]).id == q;
                    assert(now[k].id == q);
                }
                if has_id(now, q) && q != id {
                    let k = choose|k: int| 0 <= k < now.len() && (#[trigger] now[k]).id == q;
                    assert(was[k].id == q);
                }
                assert(now[was.len() as int].id == id);
            }
            assert forall|r: i64|
                #![trigger self.refs@.contains_key(r)]
                #![trigger passes(now, r)]
                (self.refs@.contains_key(r) <==> passes(now, r) > 0) && (self.refs@.contains_key(r)
                    ==> self.refs@[r] == in_a_byte(passes(now, r))) by {
                assert(passes(now, r) == passes(was, r) + occurrences(refs@, r));
            }
        }
        true
    }

    /// Takes the place of a node, if any way runs through it. One that comes
    /// again replaces what was known.
    pub fn add_node(&mut self, id: i64, place: Place) -> (wanted: bool)
        requires
            old(self).wf(),
        ensures
            final(self).wf(),
            final(self)@.ways == old(self)@.ways,
            wanted == (passes(old(self)@.ways, id) > 0),
            final(self)@.places == if wanted {
                old(self)@.places.insert(id, place)
            } else {
                old(self)@.places
            },
    {
        if self.refs.contains_key(&id) {
            self.places.insert(id, place);
            true
        } else {
            false
        }
    }
}

/// What the tags of a way say: its class, difficulty and name.
fn read_tags(tags: &Vec<(String, String)>) -> (r: (Option<u8>, u8, Option<String>))
    ensures
        r.0 == tagged_kind(tag_texts(tags@)),
        r.1 == tagged_sac(tag_texts(tags@)),
        match r.2 {
            Some(s) => tagged_name(tag_texts(tags@)) == Some(s@),
            None => tagged_name(tag_texts(tags@)) is None,
        },
{
    let ghost all = tag_texts(tags@);
    let mut kind: Option<u8> = None;
    let mut sac: u8 = 0;
    let mut name: Option<String> = None;
    let mut i: usize = 0;
    proof {
        reveal_strlit("highway");
        reveal_strlit("sac_scale");
        reveal_strlit("name");
        assert("highway"@.len() == 7 && "sac_scale"@.len() == 9 && "name"@.len() == 4);
    }
    while i < tags.len()
        invariant
            i <= tags@.len(),
            all == tag_texts(tags@),
            kind == tagged_kind(all.take(i as int)),
            sac == tagged_sac(all.take(i as int)),
            match name {
                Some(s) => tagged_name(all.take(i as int)) == Some(s@),
                None => tagged_name(all.take(i as int)) is None,
            },
            "highway"@.len() == 7,
            "sac_scale"@.len() == 9,
            "name"@.len() == 4,
        decreases tags@.len() - i,
    {
        let key: &str = tags[i].0.as_str();
        let value: &str = tags[i].1.as_str();
        assert(all.take(i + 1).drop_last() =~= all.take(i as int));
        assert(all.take(i + 1).last() == (key@, value@));
        if same_text(key, "highway") {
            kind = kind_from_highway(value);
        } else if same_text(key, "sac_scale") {
            sac = sac_from_tag(value);
        } else if same_text(key, "name") {
            name = Some(value.to_owned());
        }
        i = i + 1;
    }
    assert(all.take(i as int) =~= all);
    (kind, sac, name)
}

// ---------------------------------------------------------------------------
// Assembling
// ---------------------------------------------------------------------------

/// What becomes of a way.
pub enum Fate {
    /// It goes into a tile.
    Kept(TileId, WayView),
    /// No part of it lies inside.
    Outside,
    /// One of its nodes has no place: it runs off the edge of the data, and
    /// would be bent through a hole.
    Incomplete,
}

/// Every node of a way has a place.
pub open spec fn placed(places: Map<i64, Place>, c: CandidateView) -> bool {
    forall|i: int| 0 <= i < c.refs.len() ==> places.contains_key(#[trigger] c.refs[i])
}

/// Some node of a way lies inside. A way is never cut at the border: that would
/// sever the network where routing needs it whole.
pub open spec fn reaches_in(places: Map<i64, Place>, bounds: Bounds, c: CandidateView) -> bool {
    exists|i: int| 0 <= i < c.refs.len() && bounds.holds(places[#[trigger] c.refs[i]].at)
}

/// A way as it travels. A node that is passed twice or more is a junction and
/// keeps its id, which is the same in every archive.
pub open spec fn archived(
    ways: Seq<CandidateView>,
    places: Map<i64, Place>,
    c: CandidateView,
) -> WayView {
    WayView {
        id: c.id,
        kind: c.kind,
        sac: c.sac,
        name: c.name,
        points: Seq::new(c.refs.len(), |i: int| places[c.refs[i]].quanta),
        shared: Seq::new(
            c.refs.len(),
            |i: int|
                if passes(ways, c.refs[i]) >= 2 {
                    Some(c.refs[i])
                } else {
                    None
                },
        ),
    }
}

/// What becomes of a way. It goes into the tile of its first point.
pub open spec fn fate(
    ways: Seq<CandidateView>,
    places: Map<i64, Place>,
    bounds: Bounds,
    c: CandidateView,
) -> Fate {
    if !placed(places, c) || c.refs.len() < 2 {
        Fate::Incomplete
    } else if !reaches_in(places, bounds, c) {
        Fate::Outside
    } else {
        Fate::Kept(places[c.refs[0]].tile, archived(ways, places, c))
    }
}

/// The first `n` ways that are kept, each with its tile, in their order.
pub open spec fn kept_ways(s: Collected, bounds: Bounds, n: nat) -> Seq<(TileId, WayView)>
    decreases n,
{
    if n == 0 {
        seq![]
    } else {
        let before = kept_ways(s, bounds, (n - 1) as nat);
        match fate(s.ways, s.places, bounds, s.ways[n - 1]) {
            Fate::Kept(t, w) => before.push((t, w)),
            _ => before,
        }
    }
}

/// How many of the first `n` ways lie outside.
pub open spec fn outside_count(s: Collected, bounds: Bounds, n: nat) -> nat
    decreases n,
{
    if n == 0 {
        0
    } else {
        outside_count(s, bounds, (n - 1) as nat) + if fate(
            s.ways,
            s.places,
            bounds,
            s.ways[n - 1],
        ) is Outside {
            1nat
        } else {
            0nat
        }
    }
}

/// How many of the first `n` ways are incomplete.
pub open spec fn incomplete_count(s: Collected, bounds: Bounds, n: nat) -> nat
    decreases n,
{
    if n == 0 {
        0
    } else {
        incomplete_count(s, bounds, (n - 1) as nat) + if fate(
            s.ways,
            s.places,
            bounds,
            s.ways[n - 1],
        ) is Incomplete {
            1nat
        } else {
            0nat
        }
    }
}

/// How many points some ways have.
pub open spec fn points_in(kept: Seq<(TileId, WayView)>) -> nat
    decreases kept.len(),
{
    if kept.len() == 0 {
        0
    } else {
        points_in(kept.drop_last()) + kept.last().1.points.len()
    }
}

/// The ways of a tile, in their order.
pub open spec fn ways_in(kept: Seq<(TileId, WayView)>, t: TileId) -> Seq<WayView>
    decreases kept.len(),
{
    if kept.len() == 0 {
        seq![]
    } else if kept.last().0 == t {
        ways_in(kept.drop_last(), t).push(kept.last().1)
    } else {
        ways_in(kept.drop_last(), t)
    }
}

/// A tile and its ways.
#[derive(Clone, Debug)]
pub struct TileWays {
    pub tile: TileId,
    pub ways: Vec<ArchiveWay>,
}

/// Tiles and their ways, as plain values.
pub open spec fn tile_views(tiles: Seq<TileWays>) -> Seq<(TileId, Seq<WayView>)> {
    Seq::new(tiles.len(), |i: int| (tiles[i].tile, tile::views(tiles[i].ways@)))
}

/// Each way stands in its tile, in order; tiles ascend, and none is empty: a
/// file for an empty tile would be pure overhead.
pub open spec fn grouped(
    tiles: Seq<(TileId, Seq<WayView>)>,
    kept: Seq<(TileId, WayView)>,
) -> bool {
    &&& forall|i: int, j: int|
        0 <= i < j < tiles.len() ==> (#[trigger] tiles[i]).0.before((#[trigger] tiles[j]).0)
    &&& forall|i: int|
        0 <= i < tiles.len() ==> (#[trigger] tiles[i]).1 == ways_in(kept, tiles[i].0)
            && tiles[i].1.len() > 0
    &&& forall|j: int| 0 <= j < kept.len() ==> has_tile(tiles, (#[trigger] kept[j]).0)
}

/// A tile occurs.
pub open spec fn has_tile(tiles: Seq<(TileId, Seq<WayView>)>, t: TileId) -> bool {
    exists|i: int| 0 <= i < tiles.len() && (#[trigger] tiles[i]).0 == t
}

/// What is published, and what is not.
#[derive(Clone, Debug)]
pub struct Assembly {
    pub tiles: Vec<TileWays>,
    pub kept: usize,
    pub outside: usize,
    pub incomplete: usize,
    pub points: u128,
}

/// Adds a way to its tile.
fn add_to_tile(
    tiles: &mut Vec<TileWays>,
    t: TileId,
    w: ArchiveWay,
    Ghost(kept): Ghost<Seq<(TileId, WayView)>>,
)
    requires
        grouped(tile_views(old(tiles)@), kept),
    ensures
        grouped(tile_views(final(tiles)@), kept.push((t, w@))),
{
    let ghost was = tiles@;
    let ghost before = tile_views(was);
    let ghost now = kept.push((t, w@));
    let mut lo: usize = 0;
    let mut hi: usize = tiles.len();
    assert(now.drop_last() =~= kept);
    assert forall|u: TileId| #[trigger] ways_in(now, u) == if u == t {
        ways_in(kept, u).push(w@)
    } else {
        ways_in(kept, u)
    } by {}
    while lo < hi
        invariant
            tiles@ == was,
            before == tile_views(was),
            grouped(before, kept),
            now == kept.push((t, w@)),
            now.drop_last() == kept,
            lo <= hi <= was.len(),
            forall|i: int| 0 <= i < lo ==> (#[trigger] before[i]).0.before(t),
            forall|i: int| hi <= i < was.len() ==> t.before((#[trigger] before[i]).0),
        decreases hi - lo,
    {
        let mid: usize = lo + (hi - lo) / 2;
        let here: TileId = tiles[mid].tile;
        assert(before[mid as int].0 == here);
        if here.comes_before(t) {
            lo = mid + 1;
        } else if t.comes_before(here) {
            hi = mid;
        } else {
            let mut entry: TileWays = tiles.remove(mid);
            let ghost had = entry.ways@;
            entry.ways.push(w);
            assert(tile::views(entry.ways@) =~= tile::views(had).push(w@));
            tiles.insert(mid, entry);
            proof {
                let after = tile_views(tiles@);
                assert(after =~= before.update(mid as int, (t, ways_in(now, t))));
                lemma_regrouped(before, after, kept, now, t, mid as int);
            }
            return ;
        }
    }
    let mut ways: Vec<ArchiveWay> = Vec::new();
    ways.push(w);
    tiles.insert(lo, TileWays { tile: t, ways });
    proof {
        let after = tile_views(tiles@);
        if has_tile(before, t) {
            let i = choose|i: int| 0 <= i < before.len() && (#[trigger] before[i]).0 == t;
            assert(i < lo || i >= hi);
        }
        lemma_absent_is_empty(before, kept, t);
        assert(tile::views(ways@) =~= ways_in(kept, t).push(w@));
        assert(ways_in(now, t) == ways_in(kept, t).push(w@));
        assert(after =~= before.insert(lo as int, (t, ways_in(now, t))));
        assert forall|j: int| 0 <= j < now.len() implies has_tile(after, (#[trigger] now[j]).0) by {
            if j < kept.len() {
                assert(now[j] == kept[j]);
                assert(has_tile(before, kept[j].0));
                let i = choose|i: int| 0 <= i < before.len() && (#[trigger] before[i]).0 == kept[j].0;
                assert(after[if i < lo {
                    i
                } else {
                    i + 1
                }].0 == kept[j].0);
            } else {
                assert(after[lo as int].0 == t);
            }
        }
        assert forall|i: int| 0 <= i < after.len() implies (#[trigger] after[i]).1 == ways_in(
            now,
            after[i].0,
        ) && after[i].1.len() > 0 by {
            if i < lo {
                assert(after[i] == before[i]);
            } else if i > lo {
                assert(after[i] == before[i - 1]);
            }
        }
        assert forall|i: int, j: int| 0 <= i < j < after.len() implies (#[trigger] after[i]).0.before(
            (#[trigger] after[j]).0,
        ) by {
            let bi = if i < lo {
                i
            } else {
                i - 1
            };
            let bj = if j < lo {
                j
            } else {
                j - 1
            };
            if i != lo {
                assert(after[i] == before[bi]);
            }
            if j != lo {
                assert(after[j] == before[bj]);
            }
        }
    }
}

/// A tile that does not occur has no ways.
proof fn lemma_absent_is_empty(
    tiles: Seq<(TileId, Seq<WayView>)>,
    kept: Seq<(TileId, WayView)>,
    t: TileId,
)
    requires
        forall|j: int| 0 <= j < kept.len() ==> has_tile(tiles, (#[trigger] kept[j]).0),
        !has_tile(tiles, t),
    ensures
        ways_in(kept, t) == Seq::<WayView>::empty(),
    decreases kept.len(),
{
    if kept.len() > 0 {
        assert(has_tile(tiles, kept[kept.len() - 1].0));
        assert forall|j: int| 0 <= j < kept.drop_last().len() implies has_tile(
            tiles,
            (#[trigger] kept.drop_last()[j]).0,
        ) by {
            assert(kept.drop_last()[j] == kept[j]);
        }
        lemma_absent_is_empty(tiles, kept.drop_last(), t);
    }
}

/// One tile has one more way.
proof fn lemma_regrouped(
    before: Seq<(TileId, Seq<WayView>)>,
    after: Seq<(TileId, Seq<WayView>)>,
    kept: Seq<(TileId, WayView)>,
    now: Seq<(TileId, WayView)>,
    t: TileId,
    mid: int,
)
    requires
        grouped(before, kept),
        now.len() > 0,
        now.drop_last() == kept,
        now.last().0 == t,
        0 <= mid < before.len(),
        before[mid].0 == t,
        after == before.update(mid, (t, ways_in(now, t))),
    ensures
        grouped(after, now),
{
    assert forall|i: int, j: int| 0 <= i < j < after.len() implies (#[trigger] after[i]).0.before(
        (#[trigger] after[j]).0,
    ) by {
        assert(after[i].0 == before[i].0);
        assert(after[j].0 == before[j].0);
    }
    assert forall|i: int| 0 <= i < after.len() implies (#[trigger] after[i]).1 == ways_in(
        now,
        after[i].0,
    ) && after[i].1.len() > 0 by {
        if i != mid {
            assert(after[i] == before[i]);
            assert(before[i].0 != t);
        }
    }
    assert forall|j: int| 0 <= j < now.len() implies has_tile(after, (#[trigger] now[j]).0) by {
        if j < kept.len() {
            assert(now[j] == kept[j]);
            assert(has_tile(before, kept[j].0));
            let i = choose|i: int| 0 <= i < before.len() && (#[trigger] before[i]).0 == kept[j].0;
            assert(after[i].0 == kept[j].0);
        } else {
            assert(after[mid].0 == t);
        }
    }
}

impl Collector {
    /// A way with its points, if every node of it has a place.
    fn build_way(&self, k: usize, bounds: &Bounds) -> (r: Result<(TileId, ArchiveWay), bool>)
        requires
            self.wf(),
            k < self@.ways.len(),
        ensures
            match r {
                Ok((t, w)) => fate(self@.ways, self@.places, *bounds, self@.ways[k as int])
                    == Fate::Kept(t, w@),
                Err(outside) => fate(self@.ways, self@.places, *bounds, self@.ways[k as int])
                    == if outside {
                    Fate::Outside
                } else {
                    Fate::Incomplete
                },
            },
    {
        let c: &Candidate = &self.ways[k];
        let ghost cv = self@.ways[k as int];
        let ghost places = self@.places;
        if c.refs.len() < 2 {
            return Err(false);
        }
        let mut points: Vec<(i64, i64)> = Vec::new();
        let mut shared: Vec<Option<i64>> = Vec::new();
        let mut inside: bool = false;
        let mut tile: TileId = TileId { x: 0, y: 0 };
        let mut i: usize = 0;
        while i < c.refs.len()
            invariant
                self.wf(),
                k < self@.ways.len(),
                cv == self@.ways[k as int],
                places == self@.places,
                c@ == cv,
                i <= c.refs@.len(),
                points@.len() == i,
                shared@.len() == i,
                forall|j: int| 0 <= j < i ==> places.contains_key(#[trigger] cv.refs[j]),
                forall|j: int| 0 <= j < i ==> #[trigger] points@[j] == places[cv.refs[j]].quanta,
                forall|j: int|
                    0 <= j < i ==> #[trigger] shared@[j] == if passes(self@.ways, cv.refs[j])
                        >= 2 {
                        Some(cv.refs[j])
                    } else {
                        None
                    },
                inside <==> exists|j: int|
                    0 <= j < i && bounds.holds(places[#[trigger] cv.refs[j]].at),
                i > 0 ==> tile == places[cv.refs[0]].tile,
            decreases c.refs@.len() - i,
        {
            let r: i64 = c.refs[i];
            assert(cv.refs[i as int] == r);
            match self.places.get(&r) {
                Some(p) => {
                    if i == 0 {
                        tile = p.tile;
                    }
                    if bounds.contains(p.at) {
                        inside = true;
                    }
                    points.push(p.quanta);
                },
                None => {
                    return Err(false);
                },
            }
            let n: u8 = match self.refs.get(&r) {
                Some(n) => *n,
                None => 0,
            };
            assert(self.refs@.contains_key(r) || passes(self@.ways, r) == 0);
            if n >= 2 {
                shared.push(Some(r));
            } else {
                shared.push(None);
            }
            i = i + 1;
        }
        if !inside {
            return Err(true);
        }
        let name: Option<String> = match &c.name {
            Some(s) => Some(s.clone()),
            None => None,
        };
        let w = ArchiveWay { id: c.id, kind: c.kind, sac: c.sac, name, points, shared };
        assert(w@ =~= archived(self@.ways, places, cv));
        Ok((tile, w))
    }

    /// Assembles the ways that are whole and reach inside, and sorts them into
    /// tiles.
    pub fn assemble(&self, bounds: &Bounds) -> (a: Assembly)
        requires
            self.wf(),
        ensures
            grouped(tile_views(a.tiles@), kept_ways(self@, *bounds, self@.ways.len())),
            a.kept == kept_ways(self@, *bounds, self@.ways.len()).len(),
            a.outside == outside_count(self@, *bounds, self@.ways.len()),
            a.incomplete == incomplete_count(self@, *bounds, self@.ways.len()),
            a.points == points_in(kept_ways(self@, *bounds, self@.ways.len())),
    {
        let mut tiles: Vec<TileWays> = Vec::new();
        let mut kept: usize = 0;
        let mut outside: usize = 0;
        let mut incomplete: usize = 0;
        let mut points: u128 = 0;
        let mut k: usize = 0;
        while k < self.ways.len()
            invariant
                self.wf(),
                k <= self.ways@.len(),
                self@.ways.len() == self.ways@.len(),
                grouped(tile_views(tiles@), kept_ways(self@, *bounds, k as nat)),
                kept == kept_ways(self@, *bounds, k as nat).len(),
                outside == outside_count(self@, *bounds, k as nat),
                incomplete == incomplete_count(self@, *bounds, k as nat),
                points == points_in(kept_ways(self@, *bounds, k as nat)),
                kept <= k,
                outside <= k,
                incomplete <= k,
                points <= k * usize::MAX,
            decreases self.ways@.len() - k,
        {
            let ghost so_far = kept_ways(self@, *bounds, k as nat);
            proof {
                assert(k * usize::MAX + usize::MAX == (k + 1) * usize::MAX) by (nonlinear_arith);
                assert((k + 1) * usize::MAX <= u64::MAX * u64::MAX) by (nonlinear_arith)
                    requires
                        k + 1 <= u64::MAX,
                        usize::MAX <= u64::MAX,
                ;
            }
            match self.build_way(k, bounds) {
                Ok((t, w)) => {
                    let n: usize = w.points.len();
                    let ghost wv = w@;
                    add_to_tile(&mut tiles, t, w, Ghost(so_far));
                    assert(so_far.push((t, wv)).drop_last() =~= so_far);
                    kept = kept + 1;
                    points = points + n as u128;
                },
                Err(out) => {
                    if out {
                        outside = outside + 1;
                    } else {
                        incomplete = incomplete + 1;
                    }
                },
            }
            k = k + 1;
        }
        Assembly { tiles, kept, outside, incomplete, points }
    }
}

/// No two ways have one id.
pub open spec fn told_apart(ways: Seq<CandidateView>) -> bool {
    forall|i: int, j: int|
        0 <= i < j < ways.len() ==> (#[trigger] ways[i]).id != (#[trigger] ways[j]).id
}

/// A way that comes again, as it does where extracts overlap, is not kept twice.
pub proof fn law_a_way_is_kept_once(
    ways: Seq<CandidateView>,
    id: i64,
    tags: Seq<(Seq<char>, Seq<char>)>,
    refs: Seq<i64>,
)
    requires
        told_apart(ways),
    ensures
        told_apart(taken(ways, id, tags, refs)),
        taken(taken(ways, id, tags, refs), id, tags, refs) == taken(ways, id, tags, refs),
{
    let now = taken(ways, id, tags, refs);
    if takes(ways, id, tags, refs) {
        assert(now[ways.len() as int].id == id);
    }
}

/// Every way that is kept has its points and junctions lined up, so that the
/// archive carries it.
pub proof fn law_kept_ways_are_valid(s: Collected, bounds: Bounds, n: nat)
    requires
        n <= s.ways.len(),
    ensures
        forall|j: int|
            0 <= j < kept_ways(s, bounds, n).len() ==> (#[trigger] kept_ways(
                s,
                bounds,
                n,
            )[j]).1.valid(),
    decreases n,
{
    if n > 0 {
        law_kept_ways_are_valid(s, bounds, (n - 1) as nat);
        let before = kept_ways(s, bounds, (n - 1) as nat);
        assert forall|j: int| 0 <= j < kept_ways(s, bounds, n).len() implies (
        #[trigger] kept_ways(s, bounds, n)[j]).1.valid() by {
            if j < before.len() {
                assert(kept_ways(s, bounds, n)[j] == before[j]);
            }
        }
    }
}

/// Every way is kept, outside or incomplete.
pub proof fn law_every_way_is_accounted_for(s: Collected, bounds: Bounds, n: nat)
    requires
        n <= s.ways.len(),
    ensures
        kept_ways(s, bounds, n).len() + outside_count(s, bounds, n) + incomplete_count(
            s,
            bounds,
            n,
        ) == n,
    decreases n,
{
    if n > 0 {
        law_every_way_is_accounted_for(s, bounds, (n - 1) as nat);
    }
}

// ---------------------------------------------------------------------------
// What an archive is made of
// ---------------------------------------------------------------------------

/// A node of a way is also passed somewhere else: by another way, or by the same
/// one at another place.
pub open spec fn passed_elsewhere(ways: Seq<CandidateView>, k: int, m: int) -> bool {
    exists|j: int, q: int|
        #![trigger ways[j].refs[q]]
        0 <= j < ways.len() && 0 <= q < ways[j].refs.len() && (j, q) != (k, m) && ways[j].refs[q]
            == ways[k].refs[m]
}

/// Ways stay joined where they meet: a way that is kept carries the id of a node
/// just where the node is passed somewhere else too, however often.
pub proof fn law_ways_stay_joined_where_they_meet(
    ways: Seq<CandidateView>,
    places: Map<i64, Place>,
    bounds: Bounds,
    k: int,
    m: int,
)
    requires
        0 <= k < ways.len(),
        0 <= m < ways[k].refs.len(),
    ensures
        fate(ways, places, bounds, ways[k]) matches Fate::Kept(t, w) ==> w.shared.len()
            == ways[k].refs.len() && w.shared[m] == if passed_elsewhere(ways, k, m) {
            Some(ways[k].refs[m])
        } else {
            None
        },
{
    let r = ways[k].refs[m];
    if passed_elsewhere(ways, k, m) {
        let (j, q) = choose|j: int, q: int|
            #![trigger ways[j].refs[q]]
            0 <= j < ways.len() && 0 <= q < ways[j].refs.len() && (j, q) != (k, m)
                && ways[j].refs[q] == r;
        lemma_two_passes(ways, r, (k, m), (j, q));
    } else if passes(ways, r) >= 2 {
        let (a, b) = lemma_passed_twice(ways, r);
        let other = if a == (k, m) {
            b
        } else {
            a
        };
        assert(ways[other.0].refs[other.1] == r);
    }
}

/// A way more never parts ways that met: a way that is kept stays kept, in its tile
/// and with its points, and keeps the id of every node that had one.
pub proof fn law_another_way_parts_no_junction(
    ways: Seq<CandidateView>,
    more: CandidateView,
    places: Map<i64, Place>,
    bounds: Bounds,
    c: CandidateView,
)
    ensures
        fate(ways, places, bounds, c) matches Fate::Kept(t, w) ==> (fate(
            ways.push(more),
            places,
            bounds,
            c,
        ) matches Fate::Kept(t2, w2) && t2 == t && w2 == (WayView { shared: w2.shared, ..w })
            && w2.shared.len() == w.shared.len() && forall|m: int|
            0 <= m < w.shared.len() && (#[trigger] w.shared[m]) is Some ==> w2.shared[m]
                == w.shared[m]),
{
    let now = ways.push(more);
    assert(now.drop_last() =~= ways);
    assert forall|r: i64| #[trigger] passes(now, r) >= passes(ways, r) by {}
    let a = archived(ways, places, c);
    let b = archived(now, places, c);
    assert(a.points =~= b.points);
    assert forall|m: int| 0 <= m < a.shared.len() && (#[trigger] a.shared[m]) is Some implies b.shared[m]
        == a.shared[m] by {
        assert(passes(now, c.refs[m]) >= passes(ways, c.refs[m]));
    }
}

/// A way is kept just where it has a length, every node of it has a place, and one
/// of them lies inside. It then goes into the tile of its first node, with its id,
/// class, difficulty and name and with the place of each node in order. It is
/// incomplete where a node has no place, and outside where no node lies inside.
pub proof fn law_what_becomes_of_a_way(
    ways: Seq<CandidateView>,
    places: Map<i64, Place>,
    bounds: Bounds,
    c: CandidateView,
)
    requires
        c.refs.len() >= 2,
    ensures
        ({
            let whole = forall|i: int|
                0 <= i < c.refs.len() ==> #[trigger] places.contains_key(c.refs[i]);
            let inside = exists|i: int|
                0 <= i < c.refs.len() && bounds.holds((#[trigger] places[c.refs[i]]).at);
            match fate(ways, places, bounds, c) {
                Fate::Incomplete => !whole,
                Fate::Outside => whole && !inside,
                Fate::Kept(t, w) => {
                    &&& whole
                    &&& inside
                    &&& t == places[c.refs[0]].tile
                    &&& w.id == c.id
                    &&& w.kind == c.kind
                    &&& w.sac == c.sac
                    &&& w.name == c.name
                    &&& w.points.len() == c.refs.len()
                    &&& forall|i: int|
                        0 <= i < c.refs.len() ==> (#[trigger] w.points[i]) == places[c.refs[i]].quanta
                },
            }
        }),
{
    if placed(places, c) {
        assert forall|i: int| 0 <= i < c.refs.len() implies #[trigger] places.contains_key(
            c.refs[i],
        ) by {
            assert(places.contains_key(c.refs[i]));
        }
    } else {
        let i = choose|i: int|
            0 <= i < c.refs.len() && !places.contains_key(#[trigger] c.refs[i]);
        assert(!places.contains_key(c.refs[i]));
    }
    if reaches_in(places, bounds, c) {
        let i = choose|i: int|
            0 <= i < c.refs.len() && bounds.holds(places[#[trigger] c.refs[i]].at);
        assert(bounds.holds(places[c.refs[i]].at));
    }
}

/// One way more is counted once: among those kept, at the end, or among those that
/// lie outside, or among those that are incomplete.
pub proof fn law_each_way_is_counted_as_what_it_became(s: Collected, bounds: Bounds, n: nat)
    ensures
        match fate(s.ways, s.places, bounds, s.ways[n as int]) {
            Fate::Kept(t, w) => {
                &&& kept_ways(s, bounds, n + 1) == kept_ways(s, bounds, n).push((t, w))
                &&& outside_count(s, bounds, n + 1) == outside_count(s, bounds, n)
                &&& incomplete_count(s, bounds, n + 1) == incomplete_count(s, bounds, n)
            },
            Fate::Outside => {
                &&& kept_ways(s, bounds, n + 1) == kept_ways(s, bounds, n)
                &&& outside_count(s, bounds, n + 1) == outside_count(s, bounds, n) + 1
                &&& incomplete_count(s, bounds, n + 1) == incomplete_count(s, bounds, n)
            },
            Fate::Incomplete => {
                &&& kept_ways(s, bounds, n + 1) == kept_ways(s, bounds, n)
                &&& outside_count(s, bounds, n + 1) == outside_count(s, bounds, n)
                &&& incomplete_count(s, bounds, n + 1) == incomplete_count(s, bounds, n) + 1
            },
        },
        kept_ways(s, bounds, 0).len() + outside_count(s, bounds, 0) + incomplete_count(
            s,
            bounds,
            0,
        ) == 0,
{
}

/// Every way that is kept stands in its own tile and in no other, as often as it
/// was kept.
pub proof fn law_a_way_stands_in_its_tile(
    tiles: Seq<(TileId, Seq<WayView>)>,
    kept: Seq<(TileId, WayView)>,
    t: TileId,
    w: WayView,
)
    requires
        grouped(tiles, kept),
    ensures
        kept.contains((t, w)) <==> exists|i: int|
            0 <= i < tiles.len() && (#[trigger] tiles[i]).0 == t && tiles[i].1.contains(w),
{
    lemma_ways_in(kept, t, w);
    if kept.contains((t, w)) {
        let j = kept.index_of((t, w));
        assert(has_tile(tiles, kept[j].0));
        let i = choose|i: int| 0 <= i < tiles.len() && (#[trigger] tiles[i]).0 == kept[j].0;
        assert(tiles[i].1 == ways_in(kept, t));
    }
    if exists|i: int|
        0 <= i < tiles.len() && (#[trigger] tiles[i]).0 == t && tiles[i].1.contains(w) {
        let i = choose|i: int|
            0 <= i < tiles.len() && (#[trigger] tiles[i]).0 == t && tiles[i].1.contains(w);
        assert(tiles[i].1 == ways_in(kept, t));
    }
}

proof fn lemma_ways_in(kept: Seq<(TileId, WayView)>, t: TileId, w: WayView)
    ensures
        ways_in(kept, t).contains(w) <==> kept.contains((t, w)),
    decreases kept.len(),
{
    if kept.len() > 0 {
        let less = kept.drop_last();
        lemma_ways_in(less, t, w);
        let rest = ways_in(less, t);
        if less.contains((t, w)) {
            assert(kept[less.index_of((t, w))] == (t, w));
        }
        if kept.contains((t, w)) && kept.last() != (t, w) {
            assert(less[kept.index_of((t, w))] == (t, w));
        }
        if kept.last().0 == t {
            let all = rest.push(kept.last().1);
            if rest.contains(w) {
                assert(all[rest.index_of(w)] == w);
            }
            assert(all[rest.len() as int] == kept.last().1);
            if all.contains(w) && kept.last().1 != w {
                assert(rest[all.index_of(w)] == w);
            }
        }
        assert(kept[kept.len() - 1] == kept.last());
    }
}

/// The last tag of a key counts: what stands before it does not matter, and other
/// keys behind it do not either. A way without a class is not taken, and neither is
/// one of fewer than two nodes.
pub proof fn law_the_last_tag_counts(
    tags: Seq<(Seq<char>, Seq<char>)>,
    value: Seq<char>,
    behind: Seq<(Seq<char>, Seq<char>)>,
    ways: Seq<CandidateView>,
    id: i64,
    refs: Seq<i64>,
)
    ensures
        (forall|i: int| 0 <= i < behind.len() ==> (#[trigger] behind[i]).0 != "highway"@)
            ==> tagged_kind(tags.push(("highway"@, value)) + behind) == vocabulary::kind_of(value),
        (forall|i: int| 0 <= i < behind.len() ==> (#[trigger] behind[i]).0 != "sac_scale"@)
            ==> tagged_sac(tags.push(("sac_scale"@, value)) + behind) == vocabulary::sac_of(value),
        (forall|i: int| 0 <= i < behind.len() ==> (#[trigger] behind[i]).0 != "name"@)
            ==> tagged_name(tags.push(("name"@, value)) + behind) == Some(value),
        (forall|i: int| 0 <= i < behind.len() ==> (#[trigger] behind[i]).0 != "highway"@)
            ==> tagged_kind(behind) is None && taken(ways, id, behind, refs) == ways,
        (forall|i: int| 0 <= i < behind.len() ==> (#[trigger] behind[i]).0 != "sac_scale"@)
            ==> tagged_sac(behind) == 0,
        (forall|i: int| 0 <= i < behind.len() ==> (#[trigger] behind[i]).0 != "name"@)
            ==> tagged_name(behind) is None,
        refs.len() < 2 ==> taken(ways, id, tags, refs) == ways,
    decreases behind.len(),
{
    let k = tags.push(("highway"@, value));
    let s = tags.push(("sac_scale"@, value));
    let n = tags.push(("name"@, value));
    if behind.len() == 0 {
        assert(k + behind =~= k);
        assert(s + behind =~= s);
        assert(n + behind =~= n);
        assert(k.last() == ("highway"@, value));
        assert(s.last() == ("sac_scale"@, value));
        assert(n.last() == ("name"@, value));
    } else {
        let less = behind.drop_last();
        law_the_last_tag_counts(tags, value, less, ways, id, refs);
        assert((k + behind).drop_last() =~= k + less);
        assert((s + behind).drop_last() =~= s + less);
        assert((n + behind).drop_last() =~= n + less);
        assert(behind[behind.len() - 1] == behind.last());
        assert forall|i: int| 0 <= i < less.len() implies #[trigger] less[i] == behind[i] by {}
        if forall|i: int| 0 <= i < behind.len() ==> (#[trigger] behind[i]).0 != "highway"@ {
            assert forall|i: int| 0 <= i < less.len() implies (#[trigger] less[i]).0
                != "highway"@ by {
                assert(less[i] == behind[i]);
            }
        }
        if forall|i: int| 0 <= i < behind.len() ==> (#[trigger] behind[i]).0 != "sac_scale"@ {
            assert forall|i: int| 0 <= i < less.len() implies (#[trigger] less[i]).0
                != "sac_scale"@ by {
                assert(less[i] == behind[i]);
            }
        }
        if forall|i: int| 0 <= i < behind.len() ==> (#[trigger] behind[i]).0 != "name"@ {
            assert forall|i: int| 0 <= i < less.len() implies (#[trigger] less[i]).0 != "name"@ by {
                assert(less[i] == behind[i]);
            }
        }
    }
}

/// A walkable way of two nodes or more that was not seen before goes behind the
/// others, with what its tags say and the nodes it was given with.
pub proof fn law_a_walkable_way_is_taken(
    ways: Seq<CandidateView>,
    id: i64,
    tags: Seq<(Seq<char>, Seq<char>)>,
    refs: Seq<i64>,
)
    requires
        refs.len() >= 2,
        forall|i: int| 0 <= i < ways.len() ==> (#[trigger] ways[i]).id != id,
        tagged_kind(tags) is Some,
    ensures
        taken(ways, id, tags, refs).len() == ways.len() + 1,
        taken(ways, id, tags, refs).drop_last() == ways,
        taken(ways, id, tags, refs).last().id == id,
        taken(ways, id, tags, refs).last().refs == refs,
        taken(ways, id, tags, refs).last().kind == tagged_kind(tags)->0,
        taken(ways, id, tags, refs).last().sac == tagged_sac(tags),
        taken(ways, id, tags, refs).last().name == tagged_name(tags),
{
    assert(taken(ways, id, tags, refs).drop_last() =~= ways);
}

proof fn lemma_occurs(refs: Seq<i64>, r: i64, m: int)
    requires
        0 <= m < refs.len(),
        refs[m] == r,
    ensures
        occurrences(refs, r) >= 1,
    decreases refs.len(),
{
    if m < refs.len() - 1 {
        lemma_occurs(refs.drop_last(), r, m);
    }
}

proof fn lemma_occurs_twice(refs: Seq<i64>, r: i64, m: int, q: int)
    requires
        0 <= m < q < refs.len(),
        refs[m] == r,
        refs[q] == r,
    ensures
        occurrences(refs, r) >= 2,
    decreases refs.len(),
{
    if q < refs.len() - 1 {
        lemma_occurs_twice(refs.drop_last(), r, m, q);
    } else {
        lemma_occurs(refs.drop_last(), r, m);
    }
}

proof fn lemma_one_pass(ways: Seq<CandidateView>, r: i64, a: (int, int))
    requires
        0 <= a.0 < ways.len(),
        0 <= a.1 < ways[a.0].refs.len(),
        ways[a.0].refs[a.1] == r,
    ensures
        passes(ways, r) >= 1,
    decreases ways.len(),
{
    if a.0 < ways.len() - 1 {
        lemma_one_pass(ways.drop_last(), r, a);
    } else {
        lemma_occurs(ways.last().refs, r, a.1);
    }
}

proof fn lemma_two_passes(ways: Seq<CandidateView>, r: i64, a: (int, int), b: (int, int))
    requires
        0 <= a.0 < ways.len(),
        0 <= a.1 < ways[a.0].refs.len(),
        0 <= b.0 < ways.len(),
        0 <= b.1 < ways[b.0].refs.len(),
        a != b,
        ways[a.0].refs[a.1] == r,
        ways[b.0].refs[b.1] == r,
    ensures
        passes(ways, r) >= 2,
    decreases ways.len(),
{
    let n = ways.len() - 1;
    let less = ways.drop_last();
    if a.0 < n && b.0 < n {
        lemma_two_passes(less, r, a, b);
    } else if a.0 == n && b.0 == n {
        if a.1 < b.1 {
            lemma_occurs_twice(ways.last().refs, r, a.1, b.1);
        } else {
            lemma_occurs_twice(ways.last().refs, r, b.1, a.1);
        }
    } else {
        let (early, late) = if a.0 < n {
            (a, b)
        } else {
            (b, a)
        };
        lemma_one_pass(less, r, early);
        lemma_occurs(ways.last().refs, r, late.1);
    }
}

proof fn lemma_occurred(refs: Seq<i64>, r: i64) -> (m: int)
    requires
        occurrences(refs, r) >= 1,
    ensures
        0 <= m < refs.len(),
        refs[m] == r,
    decreases refs.len(),
{
    if refs.len() > 0 && refs.last() != r {
        lemma_occurred(refs.drop_last(), r)
    } else {
        refs.len() - 1
    }
}

proof fn lemma_passed(ways: Seq<CandidateView>, r: i64) -> (a: (int, int))
    requires
        passes(ways, r) >= 1,
    ensures
        0 <= a.0 < ways.len(),
        0 <= a.1 < ways[a.0].refs.len(),
        ways[a.0].refs[a.1] == r,
    decreases ways.len(),
{
    if ways.len() == 0 {
        (0, 0)
    } else if occurrences(ways.last().refs, r) >= 1 {
        (ways.len() - 1, lemma_occurred(ways.last().refs, r))
    } else {
        lemma_passed(ways.drop_last(), r)
    }
}

proof fn lemma_occurred_twice(refs: Seq<i64>, r: i64) -> (m: (int, int))
    requires
        occurrences(refs, r) >= 2,
    ensures
        0 <= m.0 < m.1 < refs.len(),
        refs[m.0] == r,
        refs[m.1] == r,
    decreases refs.len(),
{
    if refs.len() > 0 && refs.last() != r {
        lemma_occurred_twice(refs.drop_last(), r)
    } else {
        (lemma_occurred(refs.drop_last(), r), refs.len() - 1)
    }
}

proof fn lemma_passed_twice(ways: Seq<CandidateView>, r: i64) -> (p: ((int, int), (int, int)))
    requires
        passes(ways, r) >= 2,
    ensures
        p.0 != p.1,
        0 <= p.0.0 < ways.len(),
        0 <= p.0.1 < ways[p.0.0].refs.len(),
        ways[p.0.0].refs[p.0.1] == r,
        0 <= p.1.0 < ways.len(),
        0 <= p.1.1 < ways[p.1.0].refs.len(),
        ways[p.1.0].refs[p.1.1] == r,
    decreases ways.len(),
{
    let n = ways.len() - 1;
    let less = ways.drop_last();
    let here = occurrences(ways.last().refs, r);
    if here >= 2 {
        let m = lemma_occurred_twice(ways.last().refs, r);
        ((n, m.0), (n, m.1))
    } else if here == 1 {
        (lemma_passed(less, r), (n, lemma_occurred(ways.last().refs, r)))
    } else {
        lemma_passed_twice(less, r)
    }
}

/// A node is wanted just where some way runs through it, and the nodes are counted
/// once each.
pub proof fn law_a_node_is_wanted_where_a_way_runs(ways: Seq<CandidateView>, r: i64)
    ensures
        passes(ways, r) > 0 <==> exists|j: int, q: int|
            #![trigger ways[j].refs[q]]
            0 <= j < ways.len() && 0 <= q < ways[j].refs.len() && ways[j].refs[q] == r,
{
    if passes(ways, r) > 0 {
        let a = lemma_passed(ways, r);
        assert(ways[a.0].refs[a.1] == r);
    }
    if exists|j: int, q: int|
        #![trigger ways[j].refs[q]]
        0 <= j < ways.len() && 0 <= q < ways[j].refs.len() && ways[j].refs[q] == r {
        let (j, q) = choose|j: int, q: int|
            #![trigger ways[j].refs[q]]
            0 <= j < ways.len() && 0 <= q < ways[j].refs.len() && ways[j].refs[q] == r;
        lemma_one_pass(ways, r, (j, q));
    }
}

/// Points are counted over all ways that are kept.
pub proof fn law_points_are_counted_over_all_ways(
    kept: Seq<(TileId, WayView)>,
    more: Seq<(TileId, WayView)>,
    one: (TileId, WayView),
)
    ensures
        points_in(kept + more) == points_in(kept) + points_in(more),
        points_in(seq![one]) == one.1.points.len(),
    decreases more.len(),
{
    reveal_with_fuel(points_in, 2);
    assert(seq![one].drop_last() =~= Seq::<(TileId, WayView)>::empty());
    let all = kept + more;
    if more.len() == 0 {
        assert(all =~= kept);
    } else {
        assert(all.drop_last() =~= kept + more.drop_last());
        law_points_are_counted_over_all_ways(kept, more.drop_last(), one);
    }
}

/// The ways of a tile stand in the order they were kept in: one more of the tile goes
/// behind the others, and one of another tile changes nothing.
pub proof fn law_ways_stand_in_their_order(
    kept: Seq<(TileId, WayView)>,
    t: TileId,
    w: WayView,
    other: TileId,
)
    requires
        other != t,
    ensures
        ways_in(kept.push((t, w)), t) == ways_in(kept, t).push(w),
        ways_in(kept.push((t, w)), other) == ways_in(kept, other),
        ways_in(Seq::<(TileId, WayView)>::empty(), t).len() == 0,
{
    assert(kept.push((t, w)).drop_last() =~= kept);
}

} // verus!
