//! The ways in memory, and the index that finds them by place.
use std::collections::HashMap;
use vstd::prelude::*;

use super::way::{Snap, Way};
use crate::geo::LatLon;
use crate::number::Real;

verus! {

broadcast use vstd::std_specs::hash::group_hash_axioms;

/// A cell of the spatial index: row and column.
pub type Cell = (i32, i32);

/// A cell as one number.
pub open spec fn key_of(c: Cell) -> u64 {
    ((c.0 + 0x8000_0000) * 0x1_0000_0000 + (c.1 + 0x8000_0000)) as u64
}

fn cell_key(c: Cell) -> (k: u64)
    ensures
        k == key_of(c),
{
    ((c.0 as i64 + 0x8000_0000) as u64) * 0x1_0000_0000 + ((c.1 as i64 + 0x8000_0000) as u64)
}

/// The lesser of two numbers.
pub open spec fn least(a: i32, b: i32) -> i32 {
    if a <= b {
        a
    } else {
        b
    }
}

/// The greater of two numbers.
pub open spec fn most(a: i32, b: i32) -> i32 {
    if a <= b {
        b
    } else {
        a
    }
}

/// Whether a cell lies in the rectangle between the cells of two points.
pub open spec fn between(a: Cell, b: Cell, c: Cell) -> bool {
    &&& least(a.0, b.0) <= c.0 <= most(a.0, b.0)
    &&& least(a.1, b.1) <= c.1 <= most(a.1, b.1)
}

/// The first `upto` segments of a way that pass a cell, given the cells of its
/// points.
pub open spec fn passing(cells: Seq<Cell>, way: nat, upto: nat, c: Cell) -> Seq<(usize, usize)>
    decreases upto,
{
    if upto == 0 {
        seq![]
    } else {
        passing(cells, way, (upto - 1) as nat, c) + if between(cells[upto - 1], cells[upto as int], c) {
            seq![(way as usize, (upto - 1) as usize)]
        } else {
            seq![]
        }
    }
}

/// All segments that pass a cell, by way and then along the way.
pub open spec fn bucket(cells: Seq<Seq<Cell>>, c: Cell) -> Seq<(usize, usize)>
    decreases cells.len(),
{
    if cells.len() == 0 {
        seq![]
    } else {
        let last = cells.last();
        bucket(cells.drop_last(), c) + passing(
            last,
            (cells.len() - 1) as nat,
            (last.len() - 1) as nat,
            c,
        )
    }
}

/// The segments of the cells in one row, from column `cx` on.
pub open spec fn row_from(cells: Seq<Seq<Cell>>, cy: int, cx: int, count: nat) -> Seq<(usize, usize)>
    decreases count,
{
    if count == 0 {
        seq![]
    } else {
        row_from(cells, cy, cx, (count - 1) as nat) + bucket_at(cells, cy, cx + count - 1)
    }
}

/// How many cells lie in a row with `reach` of them on either side of the middle.
pub open spec fn side_of(reach: i32) -> nat {
    if reach < 0 {
        0
    } else {
        (2 * reach + 1) as nat
    }
}

/// The segments of every cell at most `reach` rows and columns away from one, row
/// by row.
pub open spec fn segments_around(cells: Seq<Seq<Cell>>, cell: Cell, reach: i32) -> Seq<
    (usize, usize),
> {
    rows_from(cells, cell.0 - reach, cell.1 - reach, side_of(reach), side_of(reach))
}

/// The segments of the rows from `cy` on.
pub open spec fn rows_from(
    cells: Seq<Seq<Cell>>,
    cy: int,
    cx: int,
    rows: nat,
    count: nat,
) -> Seq<(usize, usize)>
    decreases rows,
{
    if rows == 0 {
        seq![]
    } else {
        rows_from(cells, cy, cx, (rows - 1) as nat, count) + row_from(
            cells,
            cy + rows - 1,
            cx,
            count,
        )
    }
}

/// The segments of a cell, none where there is no such cell.
pub open spec fn bucket_at(cells: Seq<Seq<Cell>>, cy: int, cx: int) -> Seq<(usize, usize)> {
    if i32::MIN <= cy <= i32::MAX && i32::MIN <= cx <= i32::MAX {
        bucket(cells, (cy as i32, cx as i32))
    } else {
        seq![]
    }
}

/// The place of the way with an id among some, the first where there are more.
pub open spec fn place_of(ways: Seq<Way>, id: i64) -> Option<int>
    decreases ways.len(),
{
    if ways.len() == 0 {
        None
    } else {
        match place_of(ways.drop_last(), id) {
            Some(i) => Some(i),
            None => if ways.last().id == id {
                Some(ways.len() - 1)
            } else {
                None
            },
        }
    }
}

/// The ways in memory.
pub struct TrailNetwork {
    ways: Vec<Way>,
    by_id: HashMap<i64, usize>,
    /// Cell to the segments that pass it.
    index: HashMap<u64, Vec<(usize, usize)>>,
    /// The cells of the points of each way.
    cells: Ghost<Seq<Seq<Cell>>>,
}

impl Default for TrailNetwork {
    fn default() -> (net: Self)
        ensures
            net.wf(),
            net.list() == Seq::<Way>::empty(),
            net.cells() == Seq::<Seq<Cell>>::empty(),
    {
        TrailNetwork {
            ways: Vec::new(),
            by_id: HashMap::new(),
            index: HashMap::new(),
            cells: Ghost(Seq::empty()),
        }
    }
}

impl TrailNetwork {
    /// The ways, in the order they were added.
    pub closed spec fn list(&self) -> Seq<Way> {
        self.ways@
    }

    /// The cells of the points of each way, as they were given.
    pub closed spec fn cells(&self) -> Seq<Seq<Cell>> {
        self.cells@
    }

    /// What the index holds for a cell.
    closed spec fn held(&self, c: Cell) -> Seq<(usize, usize)> {
        if self.index@.contains_key(key_of(c)) {
            self.index@[key_of(c)]@
        } else {
            seq![]
        }
    }

    /// Ways are told apart by their ids, each has a length, and both indexes
    /// agree with them.
    pub closed spec fn wf(&self) -> bool {
        &&& self.cells@.len() == self.list().len()
        &&& forall|i: int|
            0 <= i < self.list().len() ==> (#[trigger] self.list()[i]).points@.len() >= 2
                && self.cells@[i].len() == self.list()[i].points@.len()
        &&& forall|i: int, j: int|
            0 <= i < j < self.list().len() ==> (#[trigger] self.list()[i]).id != (
            #[trigger] self.list()[j]).id
        &&& forall|id: i64| #[trigger]
            self.by_id@.contains_key(id) ==> self.by_id@[id] < self.list().len()
                && self.list()[self.by_id@[id] as int].id == id
        &&& forall|i: int|
            0 <= i < self.list().len() ==> self.by_id@.contains_key((#[trigger] self.list()[i]).id)
        &&& forall|c: Cell| #[trigger] self.held(c) == bucket(self.cells@, c)
    }

    /// What is known of the ways of a network in good order.
    pub proof fn lemma_wf(&self)
        requires
            self.wf(),
        ensures
            self.cells().len() == self.list().len(),
            forall|i: int|
                0 <= i < self.list().len() ==> 2 <= (#[trigger] self.list()[i]).points@.len()
                    && self.cells()[i].len() == self.list()[i].points@.len(),
            forall|i: int, j: int|
                0 <= i < j < self.list().len() ==> (#[trigger] self.list()[i]).id != (
                #[trigger] self.list()[j]).id,
            forall|i: int|
                0 <= i < self.list().len() ==> place_of(
                    self.list(),
                    (#[trigger] self.list()[i]).id,
                ) == Some(i),
    {
        assert forall|i: int| 0 <= i < self.list().len() implies place_of(
            self.list(),
            (#[trigger] self.list()[i]).id,
        ) == Some(i) by {
            lemma_place(self.list(), i);
        }
    }

    /// The ways, in the order they were added.
    pub fn ways(&self) -> (w: &Vec<Way>)
        ensures
            w@ == self.list(),
    {
        &self.ways
    }

    /// How many ways there are.
    pub fn len(&self) -> (n: usize)
        ensures
            n == self.list().len(),
    {
        self.ways.len()
    }

    /// The way with an id.
    pub fn way_by_id(&self, id: i64) -> (r: Option<&Way>)
        requires
            self.wf(),
        ensures
            r is Some <==> place_of(self.list(), id) is Some,
            r matches Some(w) ==> *w == self.list()[place_of(self.list(), id)->0] && w.id == id,
    {
        match self.by_id.get(&id) {
            Some(i) => {
                proof {
                    lemma_place(self.list(), *i as int);
                }
                Some(&self.ways[*i])
            },
            None => {
                proof {
                    lemma_no_place(self.list(), id);
                }
                None
            },
        }
    }

    /// Adds a segment to the cells of its rectangle.
    fn index_segment(&mut self, a: Cell, b: Cell, entry: (usize, usize))
        ensures
            final(self).ways == old(self).ways,
            final(self).by_id == old(self).by_id,
            final(self).cells == old(self).cells,
            forall|c: Cell| #[trigger]
                final(self).held(c) == if between(a, b, c) {
                    old(self).held(c).push(entry)
                } else {
                    old(self).held(c)
                },
    {
        let south: i32 = if a.0 <= b.0 {
            a.0
        } else {
            b.0
        };
        let north: i32 = if a.0 <= b.0 {
            b.0
        } else {
            a.0
        };
        let west: i32 = if a.1 <= b.1 {
            a.1
        } else {
            b.1
        };
        let east: i32 = if a.1 <= b.1 {
            b.1
        } else {
            a.1
        };
        let mut cy: i64 = south as i64;
        while cy <= north as i64
            invariant
                south == least(a.0, b.0),
                north == most(a.0, b.0),
                west == least(a.1, b.1),
                east == most(a.1, b.1),
                south <= cy <= north + 1,
                self.ways == old(self).ways,
                self.by_id == old(self).by_id,
                self.cells == old(self).cells,
                forall|c: Cell| #[trigger]
                    self.held(c) == if between(a, b, c) && c.0 < cy {
                        old(self).held(c).push(entry)
                    } else {
                        old(self).held(c)
                    },
            decreases north + 1 - cy,
        {
            let mut cx: i64 = west as i64;
            while cx <= east as i64
                invariant
                    south == least(a.0, b.0),
                    north == most(a.0, b.0),
                    west == least(a.1, b.1),
                    east == most(a.1, b.1),
                    south <= cy <= north,
                    west <= cx <= east + 1,
                    self.ways == old(self).ways,
                    self.by_id == old(self).by_id,
                    self.cells == old(self).cells,
                    forall|c: Cell| #[trigger]
                        self.held(c) == if between(a, b, c) && (c.0 < cy || (c.0 == cy && c.1
                            < cx)) {
                            old(self).held(c).push(entry)
                        } else {
                            old(self).held(c)
                        },
                decreases east + 1 - cx,
            {
                let cell: Cell = (cy as i32, cx as i32);
                let key: u64 = cell_key(cell);
                let ghost was = *self;
                let mut list: Vec<(usize, usize)> = match self.index.remove(&key) {
                    Some(v) => v,
                    None => Vec::new(),
                };
                assert(list@ == was.held(cell));
                list.push(entry);
                self.index.insert(key, list);
                assert forall|c: Cell| #[trigger] self.held(c) == if c == cell {
                    was.held(c).push(entry)
                } else {
                    was.held(c)
                } by {
                    assert(key_of(c) == key_of(cell) ==> c == cell);
                }
                cx = cx + 1;
            }
            cy = cy + 1;
        }
    }

    /// Adds a way, with the cells of its points. A way that is there already, or
    /// has no length, changes nothing: neighbouring zones report the same ways
    /// on their border.
    pub fn insert(&mut self, way: Way, cells: &Vec<Cell>)
        requires
            old(self).wf(),
            cells@.len() == way.points@.len(),
        ensures
            final(self).wf(),
            net_view(final(self)) == admitted(net_view(old(self)), way, cells@),
    {
        let known: bool = self.by_id.contains_key(&way.id);
        proof {
            if known {
                lemma_place(self.list(), self.by_id@[way.id] as int);
            } else {
                lemma_no_place(self.list(), way.id);
            }
        }
        if known || way.points.len() < 2 {
            return ;
        }
        let ghost was = *self;
        let idx: usize = self.ways.len();
        let mut seg: usize = 0;
        while seg < way.points.len() - 1
            invariant
                was.wf(),
                was == *old(self),
                self.ways == was.ways,
                self.by_id == was.by_id,
                self.cells == was.cells,
                idx == was.list().len(),
                cells@.len() == way.points@.len(),
                2 <= way.points@.len(),
                seg <= way.points@.len() - 1,
                forall|c: Cell| #[trigger]
                    self.held(c) == bucket(was.cells@, c) + passing(
                        cells@,
                        idx as nat,
                        seg as nat,
                        c,
                    ),
            decreases way.points@.len() - 1 - seg,
        {
            let ghost before = *self;
            self.index_segment(cells[seg], cells[seg + 1], (idx, seg));
            assert forall|c: Cell| #[trigger] self.held(c) == bucket(was.cells@, c) + passing(
                cells@,
                idx as nat,
                (seg + 1) as nat,
                c,
            ) by {
                assert(before.held(c) == bucket(was.cells@, c) + passing(
                    cells@,
                    idx as nat,
                    seg as nat,
                    c,
                ));
                assert(self.held(c) =~= bucket(was.cells@, c) + passing(
                    cells@,
                    idx as nat,
                    (seg + 1) as nat,
                    c,
                ));
            }
            seg = seg + 1;
        }
        let ghost laid = *self;
        let id: i64 = way.id;
        let n: usize = self.ways.len();
        self.by_id.insert(id, n);
        self.ways.push(way);
        self.cells = Ghost(self.cells@.push(cells@));
        assert forall|c: Cell| #[trigger] self.held(c) == bucket(self.cells@, c) by {
            assert(self.cells@.drop_last() =~= was.cells@);
            assert(self.held(c) == laid.held(c));
        }
        assert forall|i: int| 0 <= i < self.list().len() implies self.by_id@.contains_key(
            (#[trigger] self.list()[i]).id,
        ) by {
            if i < was.list().len() {
                assert(self.list()[i] == was.list()[i]);
            }
        }
        assert forall|k: i64| #[trigger] self.by_id@.contains_key(k) implies self.by_id@[k]
            < self.list().len() && self.list()[self.by_id@[k] as int].id == k by {
            if k != id {
                assert(was.by_id@.contains_key(k));
            }
        }
    }

    /// The segments that pass a cell.
    fn bucket_list(&self, cy: i64, cx: i64) -> (v: Vec<(usize, usize)>)
        requires
            self.wf(),
        ensures
            v@ == bucket_at(self.cells(), cy as int, cx as int),
    {
        let mut out: Vec<(usize, usize)> = Vec::new();
        if cy < i32::MIN as i64 || cy > i32::MAX as i64 || cx < i32::MIN as i64 || cx
            > i32::MAX as i64 {
            return out;
        }
        let c: Cell = (cy as i32, cx as i32);
        assert(self.held(c) == bucket(self.cells@, c));
        match self.index.get(&cell_key(c)) {
            Some(list) => {
                let mut i: usize = 0;
                while i < list.len()
                    invariant
                        i <= list@.len(),
                        out@ == list@.take(i as int),
                    decreases list@.len() - i,
                {
                    out.push(list[i]);
                    assert(out@ =~= list@.take(i + 1));
                    i = i + 1;
                }
                assert(list@.take(i as int) =~= list@);
            },
            None => {},
        }
        out
    }

    /// The segments worth measuring around a cell: those of every cell at most
    /// `reach` rows and columns away, row by row.
    pub fn candidates(&self, cell: Cell, reach: i32) -> (v: Vec<(usize, usize)>)
        requires
            self.wf(),
        ensures
            v@ == segments_around(self.cells(), cell, reach),
    {
        let mut out: Vec<(usize, usize)> = Vec::new();
        let side: i64 = if reach < 0 {
            0
        } else {
            2 * reach as i64 + 1
        };
        let cy: i64 = cell.0 as i64 - reach as i64;
        let cx: i64 = cell.1 as i64 - reach as i64;
        let mut dy: i64 = 0;
        while dy < side
            invariant
                self.wf(),
                0 <= dy <= side,
                side == side_of(reach),
                cy == cell.0 - reach,
                cx == cell.1 - reach,
                out@ == rows_from(self.cells(), cy as int, cx as int, dy as nat, side as nat),
            decreases side - dy,
        {
            let ghost held = out@;
            let mut dx: i64 = 0;
            assert(out@ =~= held + row_from(self.cells(), cy + dy, cx as int, 0));
            while dx < side
                invariant
                    self.wf(),
                    0 <= dy < side,
                    0 <= dx <= side,
                    side == side_of(reach),
                    cy == cell.0 - reach,
                    cx == cell.1 - reach,
                    out@ == held + row_from(self.cells(), cy + dy, cx as int, dx as nat),
                decreases side - dx,
            {
                let mut more = self.bucket_list(cy + dy, cx + dx);
                let ghost had = out@;
                let ghost new = more@;
                out.append(&mut more);
                assert(out@ =~= held + row_from(self.cells(), cy + dy, cx as int, (dx + 1) as nat));
                dx = dx + 1;
            }
            dy = dy + 1;
        }
        out
    }

    /// Geometry between two positions on the same way: its real shape in place
    /// of the straight chord.
    pub fn follow(&self, from: &Snap, to: &Snap) -> (r: Option<Vec<LatLon>>)
        requires
            self.wf(),
            from.way_id == to.way_id ==> (place_of(self.list(), from.way_id) matches Some(k)
                ==> from.seg < self.list()[k].points@.len() && to.seg
                < self.list()[k].points@.len()),
        ensures
            r is Some <==> from.way_id == to.way_id && place_of(self.list(), from.way_id) is Some,
            r matches Some(points) ==> points@ == followed(
                self.list()[place_of(self.list(), from.way_id)->0].points@,
                *from,
                *to,
            ),
    {
        if from.way_id != to.way_id {
            return None;
        }
        let way = match self.way_by_id(from.way_id) {
            Some(w) => w,
            None => {
                return None;
            },
        };
        let forward: bool = from.seg < to.seg || (from.seg == to.seg && from.t.le(to.t));
        let mut out: Vec<LatLon> = Vec::new();
        out.push(from.pos);
        let ghost shape = way.points@;
        if forward {
            let mut i: usize = from.seg;
            while i < to.seg
                invariant
                    from.seg <= i <= to.seg,
                    to.seg < shape.len(),
                    shape == way.points@,
                    out@ == seq![from.pos] + shape.subrange(from.seg + 1, i + 1),
                decreases to.seg - i,
            {
                i = i + 1;
                out.push(way.points[i]);
                assert(out@ =~= seq![from.pos] + shape.subrange(from.seg + 1, i + 1));
            }
        } else {
            let mut i: usize = from.seg;
            while i > to.seg
                invariant
                    to.seg <= i <= from.seg,
                    from.seg < shape.len(),
                    shape == way.points@,
                    out@ == seq![from.pos] + shape.subrange(i + 1, from.seg + 1).reverse(),
                decreases i,
            {
                out.push(way.points[i]);
                assert(out@ =~= seq![from.pos] + shape.subrange(i as int, from.seg + 1).reverse());
                i = i - 1;
            }
        }
        out.push(to.pos);
        assert(out@ =~= followed(shape, *from, *to));
        Some(out)
    }
}

/// A network by its ways and the cells of their points.
#[verifier::ext_equal]
pub struct NetView {
    pub ways: Seq<Way>,
    pub cells: Seq<Seq<Cell>>,
}

/// A network by its ways and the cells of their points.
pub open spec fn net_view(net: &TrailNetwork) -> NetView {
    NetView { ways: net.list(), cells: net.cells() }
}

/// A network with a way more, unless it is there already or has no length.
pub open spec fn admitted(n: NetView, w: Way, cells: Seq<Cell>) -> NetView {
    if place_of(n.ways, w.id) is Some || w.points@.len() < 2 {
        n
    } else {
        NetView { ways: n.ways.push(w), cells: n.cells.push(cells) }
    }
}

/// A network with some ways more.
pub open spec fn all_admitted(n: NetView, added: Seq<(Way, Seq<Cell>)>) -> NetView
    decreases added.len(),
{
    if added.len() == 0 {
        n
    } else {
        admitted(all_admitted(n, added.drop_last()), added.last().0, added.last().1)
    }
}

/// Whether one position comes no later than another along a way.
pub open spec fn runs_forward(from: Snap, to: Snap) -> bool {
    from.seg < to.seg || (from.seg == to.seg && from.t.at_most(to.t))
}

/// The points from one position to another along a way.
pub open spec fn followed(shape: Seq<LatLon>, from: Snap, to: Snap) -> Seq<LatLon> {
    if runs_forward(from, to) {
        seq![from.pos] + shape.subrange(from.seg + 1, to.seg + 1) + seq![to.pos]
    } else {
        seq![from.pos] + shape.subrange(to.seg + 1, from.seg + 1).reverse() + seq![to.pos]
    }
}

/// The place of the nearest of some distances that are at most `limit`, the
/// first one among equals.
pub open spec fn nearest_of(dists: Seq<Real>, limit: Real) -> Option<int>
    decreases dists.len(),
{
    if dists.len() == 0 {
        None
    } else {
        let d = dists.last();
        match nearest_of(dists.drop_last(), limit) {
            Some(i) => if d.at_most(limit) && d.below(dists[i]) {
                Some(dists.len() - 1)
            } else {
                Some(i)
            },
            None => if d.at_most(limit) {
                Some(dists.len() - 1)
            } else {
                None
            },
        }
    }
}

/// Picks the nearest of some distances that are at most `limit`.
pub fn pick_nearest(dists: &Vec<Real>, limit: Real) -> (r: Option<usize>)
    ensures
        match r {
            Some(i) => nearest_of(dists@, limit) == Some(i as int) && i < dists@.len(),
            None => nearest_of(dists@, limit) is None,
        },
{
    let mut best: Option<usize> = None;
    let mut i: usize = 0;
    while i < dists.len()
        invariant
            i <= dists@.len(),
            match best {
                Some(k) => nearest_of(dists@.take(i as int), limit) == Some(k as int) && k < i,
                None => nearest_of(dists@.take(i as int), limit) is None,
            },
        decreases dists@.len() - i,
    {
        assert(dists@.take(i + 1).drop_last() =~= dists@.take(i as int));
        let d: Real = dists[i];
        if d.le(limit) {
            match best {
                Some(k) => {
                    if d.lt(dists[k]) {
                        best = Some(i);
                    }
                },
                None => {
                    best = Some(i);
                },
            }
        }
        i = i + 1;
    }
    assert(dists@.take(i as int) =~= dists@);
    best
}

/// The nearest of some distances is within the limit, and no other within it is
/// nearer.
pub proof fn law_nearest(dists: Seq<Real>, limit: Real)
    ensures
        match nearest_of(dists, limit) {
            Some(i) => 0 <= i < dists.len() && dists[i].at_most(limit) && forall|j: int|
                0 <= j < dists.len() && (#[trigger] dists[j]).at_most(limit) ==> dists[i].at_most(
                    dists[j],
                ) && (j < i ==> dists[i].below(dists[j])),
            None => forall|j: int| 0 <= j < dists.len() ==> !(#[trigger] dists[j]).at_most(limit),
        },
    decreases dists.len(),
{
    if dists.len() > 0 {
        let less = dists.drop_last();
        law_nearest(less, limit);
        assert forall|j: int| 0 <= j < less.len() implies #[trigger] dists[j] == less[j] by {}
    }
}

/// What was measured at some segments, one by one: the place along the segment,
/// the position there, and how far away it is.
pub open spec fn measured<F: Fn(LatLon, LatLon) -> (Real, LatLon, Real)>(
    project: F,
    ways: Seq<Way>,
    segs: Seq<(usize, usize)>,
    hits: Seq<(Real, LatLon, Real)>,
) -> bool {
    &&& hits.len() == segs.len()
    &&& forall|k: int|
        0 <= k < segs.len() ==> call_ensures(
            project,
            (
                ways[segs[k].0 as int].points@[segs[k].1 as int],
                ways[segs[k].0 as int].points@[segs[k].1 + 1],
            ),
            #[trigger] hits[k],
        )
}

/// The distances alone.
pub open spec fn dists_of(hits: Seq<(Real, LatLon, Real)>) -> Seq<Real> {
    Seq::new(hits.len(), |k: int| hits[k].2)
}

/// The snap onto the nearest of some segments that is within the limit.
pub open spec fn snap_of(
    ways: Seq<Way>,
    segs: Seq<(usize, usize)>,
    hits: Seq<(Real, LatLon, Real)>,
    limit: Real,
) -> Option<Snap> {
    match nearest_of(dists_of(hits), limit) {
        Some(k) => Some(
            Snap {
                way_id: ways[segs[k].0 as int].id,
                seg: segs[k].1,
                t: hits[k].0,
                pos: hits[k].1,
                dist_m: hits[k].2,
            },
        ),
        None => None,
    }
}

impl TrailNetwork {
    /// The nearest point of the network that is within a limit, looked for in the
    /// cells at most `reach` rows and columns away. `project` gives, for the two
    /// ends of a segment, the place along it that is nearest, the position there,
    /// and how far away it is.
    pub fn snap<F: Fn(LatLon, LatLon) -> (Real, LatLon, Real)>(
        &self,
        cell: Cell,
        reach: i32,
        max_dist_m: Real,
        project: F,
    ) -> (r: Option<Snap>)
        requires
            self.wf(),
            forall|a: LatLon, b: LatLon| call_requires(project, (a, b)),
        ensures
            ({
                let segs = segments_around(self.cells(), cell, reach);
                exists|hits: Seq<(Real, LatLon, Real)>| #[trigger]
                    measured(project, self.list(), segs, hits) && r == snap_of(
                        self.list(),
                        segs,
                        hits,
                        max_dist_m,
                    )
            }),
    {
        let segs: Vec<(usize, usize)> = self.candidates(cell, reach);
        let mut hits: Vec<(Real, LatLon, Real)> = Vec::new();
        let mut dists: Vec<Real> = Vec::new();
        assert(self.cells().len() == self.ways.len());
        assert forall|i: int| 0 <= i < self.cells().len() implies 2 <= (
        #[trigger] self.cells()[i]).len() <= usize::MAX by {
            assert(self.cells()[i].len() == self.list()[i].points.len());
        }
        proof {
            lemma_rows_are_segments(
                self.cells(),
                cell.0 - reach,
                cell.1 - reach,
                side_of(reach),
                side_of(reach),
            );
        }
        let mut k: usize = 0;
        while k < segs.len()
            invariant
                self.wf(),
                k <= segs@.len(),
                hits@.len() == k,
                dists@ == dists_of(hits@),
                segments(self.cells(), segs@),
                forall|a: LatLon, b: LatLon| call_requires(project, (a, b)),
                forall|j: int|
                    0 <= j < k ==> call_ensures(
                        project,
                        (
                            self.list()[segs@[j].0 as int].points@[segs@[j].1 as int],
                            self.list()[segs@[j].0 as int].points@[segs@[j].1 + 1],
                        ),
                        #[trigger] hits@[j],
                    ),
            decreases segs@.len() - k,
        {
            let (w, i): (usize, usize) = segs[k];
            assert(segs@[k as int] == (w, i));
            assert(self.list()[w as int].points@.len() == self.cells()[w as int].len());
            let way: &Way = &self.ways[w];
            assert(i + 1 < way.points.len());
            let hit: (Real, LatLon, Real) = project(way.points[i], way.points[i + 1]);
            hits.push(hit);
            dists.push(hit.2);
            assert(dists@ =~= dists_of(hits@));
            k = k + 1;
        }
        assert(measured(project, self.list(), segs@, hits@));
        match pick_nearest(&dists, max_dist_m) {
            Some(k) => {
                let (w, i): (usize, usize) = segs[k];
                assert(segs@[k as int] == (w, i));
                let hit: (Real, LatLon, Real) = hits[k];
                Some(
                    Snap {
                        way_id: self.ways[w].id,
                        seg: i,
                        t: hit.0,
                        pos: hit.1,
                        dist_m: hit.2,
                    },
                )
            },
            None => None,
        }
    }
}

/// Each of some segments lies on a way.
spec fn segments(cells: Seq<Seq<Cell>>, segs: Seq<(usize, usize)>) -> bool {
    forall|k: int|
        0 <= k < segs.len() ==> (#[trigger] segs[k]).0 < cells.len() && segs[k].1 + 1
            < cells[segs[k].0 as int].len()
}

proof fn lemma_passing_are_segments(
    cells: Seq<Seq<Cell>>,
    way: nat,
    count: nat,
    c: Cell,
)
    requires
        way < cells.len(),
        cells.len() <= usize::MAX,
        count < cells[way as int].len(),
        cells[way as int].len() <= usize::MAX,
    ensures
        segments(cells, passing(cells[way as int], way, count, c)),
    decreases count,
{
    if count > 0 {
        lemma_passing_are_segments(cells, way, (count - 1) as nat, c);
    }
}

proof fn lemma_bucket_is_segments(cells: Seq<Seq<Cell>>, n: int, c: Cell)
    requires
        0 <= n <= cells.len() <= usize::MAX,
        forall|i: int| 0 <= i < cells.len() ==> 2 <= (#[trigger] cells[i]).len() <= usize::MAX,
    ensures
        segments(cells, bucket(cells.take(n), c)),
    decreases n,
{
    if n > 0 {
        lemma_bucket_is_segments(cells, n - 1, c);
        assert(cells.take(n).drop_last() =~= cells.take(n - 1));
        lemma_passing_are_segments(cells, (n - 1) as nat, (cells[n - 1].len() - 1) as nat, c);
    }
}

proof fn lemma_row_is_segments(cells: Seq<Seq<Cell>>, cy: int, cx: int, count: nat)
    requires
        cells.len() <= usize::MAX,
        forall|i: int| 0 <= i < cells.len() ==> 2 <= (#[trigger] cells[i]).len() <= usize::MAX,
    ensures
        segments(cells, row_from(cells, cy, cx, count)),
    decreases count,
{
    if count > 0 {
        lemma_row_is_segments(cells, cy, cx, (count - 1) as nat);
        let x = cx + count - 1;
        if i32::MIN <= cy <= i32::MAX && i32::MIN <= x <= i32::MAX {
            lemma_bucket_is_segments(cells, cells.len() as int, (cy as i32, x as i32));
            assert(cells.take(cells.len() as int) =~= cells);
        }
    }
}

proof fn lemma_rows_are_segments(cells: Seq<Seq<Cell>>, cy: int, cx: int, rows: nat, count: nat)
    requires
        cells.len() <= usize::MAX,
        forall|i: int| 0 <= i < cells.len() ==> 2 <= (#[trigger] cells[i]).len() <= usize::MAX,
    ensures
        segments(cells, rows_from(cells, cy, cx, rows, count)),
    decreases rows,
{
    if rows > 0 {
        lemma_rows_are_segments(cells, cy, cx, (rows - 1) as nat, count);
        lemma_row_is_segments(cells, cy + rows - 1, cx, count);
    }
}

/// Following a way back gives the same points in reverse.
pub proof fn law_follow_back(shape: Seq<LatLon>, from: Snap, to: Snap)
    requires
        from.seg < shape.len(),
        to.seg < shape.len(),
    ensures
        followed(shape, to, from) == followed(shape, from, to).reverse(),
{
    assert(followed(shape, to, from) =~= followed(shape, from, to).reverse());
}

/// Adding a way twice is adding it once, and a lookup finds it: neighbouring zones
/// report the same ways on their border.
pub proof fn law_insert_is_idempotent(n: NetView, way: Way, cells: Seq<Cell>, again: Seq<Cell>)
    ensures
        admitted(admitted(n, way, cells), way, again) == admitted(n, way, cells),
        way.points@.len() >= 2 ==> place_of(admitted(n, way, cells).ways, way.id) is Some,
{
    lemma_place_pushed(n.ways, way);
}

/// Adding some ways twice is adding them once, and a lookup finds each that has a
/// length.
pub proof fn law_inserts_are_idempotent(n: NetView, added: Seq<(Way, Seq<Cell>)>)
    ensures
        all_admitted(all_admitted(n, added), added) == all_admitted(n, added),
        forall|i: int|
            0 <= i < added.len() && (#[trigger] added[i]).0.points@.len() >= 2 ==> place_of(
                all_admitted(n, added).ways,
                added[i].0.id,
            ) is Some,
{
    lemma_all_there(n, added);
    lemma_nothing_new(all_admitted(n, added), added, added.len() as int);
    assert(added.take(added.len() as int) =~= added);
}

/// A way that was added behind others is found, and so is every other as before.
proof fn lemma_place_pushed(ways: Seq<Way>, way: Way)
    ensures
        place_of(ways.push(way), way.id) is Some,
        forall|id: i64| #[trigger]
            place_of(ways, id) is Some ==> place_of(ways.push(way), id) is Some,
{
    assert(ways.push(way).drop_last() =~= ways);
}

/// Each way that has a length is there once all were added.
proof fn lemma_all_there(n: NetView, added: Seq<(Way, Seq<Cell>)>)
    ensures
        forall|i: int|
            0 <= i < added.len() && (#[trigger] added[i]).0.points@.len() >= 2 ==> place_of(
                all_admitted(n, added).ways,
                added[i].0.id,
            ) is Some,
    decreases added.len(),
{
    if added.len() > 0 {
        let less = added.drop_last();
        lemma_all_there(n, less);
        lemma_place_pushed(all_admitted(n, less).ways, added.last().0);
        assert forall|i: int|
            0 <= i < added.len() && (#[trigger] added[i]).0.points@.len() >= 2 implies place_of(
            all_admitted(n, added).ways,
            added[i].0.id,
        ) is Some by {
            if i < less.len() {
                assert(less[i] == added[i]);
            }
        }
    }
}

/// Ways that are there already, or have no length, change nothing.
proof fn lemma_nothing_new(n: NetView, added: Seq<(Way, Seq<Cell>)>, k: int)
    requires
        0 <= k <= added.len(),
        forall|i: int|
            0 <= i < added.len() && (#[trigger] added[i]).0.points@.len() >= 2 ==> place_of(
                n.ways,
                added[i].0.id,
            ) is Some,
    ensures
        all_admitted(n, added.take(k)) == n,
    decreases k,
{
    if k > 0 {
        lemma_nothing_new(n, added, k - 1);
        assert(added.take(k).drop_last() =~= added.take(k - 1));
        assert(added.take(k).last() == added[k - 1]);
    }
}

proof fn lemma_place(ways: Seq<Way>, i: int)
    requires
        0 <= i < ways.len(),
        forall|j: int, k: int|
            0 <= j < k < ways.len() ==> (#[trigger] ways[j]).id != (#[trigger] ways[k]).id,
    ensures
        place_of(ways, ways[i].id) == Some(i),
    decreases ways.len(),
{
    let less = ways.drop_last();
    if i < less.len() {
        assert(less[i] == ways[i]);
        lemma_place(less, i);
    } else {
        assert forall|j: int| 0 <= j < less.len() implies (#[trigger] less[j]).id
            != ways[i].id by {
            assert(less[j] == ways[j]);
        }
        lemma_no_place(less, ways[i].id);
    }
}

proof fn lemma_no_place(ways: Seq<Way>, id: i64)
    requires
        forall|j: int| 0 <= j < ways.len() ==> (#[trigger] ways[j]).id != id,
    ensures
        place_of(ways, id) is None,
    decreases ways.len(),
{
    if ways.len() > 0 {
        let less = ways.drop_last();
        assert forall|j: int| 0 <= j < less.len() implies (#[trigger] less[j]).id != id by {
            assert(less[j] == ways[j]);
        }
        lemma_no_place(less, id);
    }
}

// ---------------------------------------------------------------------------
// What a leg along a way is
// ---------------------------------------------------------------------------

/// A line along a way runs without jumps: from the first position over every point
/// of the way between the two, one after the other in walking order, to the second
/// position.
pub proof fn law_following_runs_along_the_way(shape: Seq<LatLon>, from: Snap, to: Snap, k: int)
    requires
        from.seg < shape.len(),
        to.seg < shape.len(),
    ensures
        followed(shape, from, to).first() == from.pos,
        followed(shape, from, to).last() == to.pos,
        from.seg <= to.seg ==> followed(shape, from, to).len() == to.seg - from.seg + 2,
        to.seg <= from.seg ==> followed(shape, from, to).len() == from.seg - to.seg + 2,
        1 <= k <= to.seg - from.seg ==> followed(shape, from, to)[k] == shape[from.seg + k],
        1 <= k <= from.seg - to.seg ==> followed(shape, from, to)[k] == shape[from.seg + 1 - k],
{
}

/// Following a way to a position and on from there is following it all the way.
pub proof fn law_following_goes_on(shape: Seq<LatLon>, a: Snap, b: Snap, c: Snap)
    requires
        a.seg < shape.len(),
        b.seg < shape.len(),
        c.seg < shape.len(),
        a.seg <= b.seg <= c.seg || a.seg >= b.seg >= c.seg,
    ensures
        followed(shape, a, c) == followed(shape, a, b).drop_last() + followed(shape, b, c).skip(1),
{
    assert(followed(shape, a, c) =~= followed(shape, a, b).drop_last() + followed(
        shape,
        b,
        c,
    ).skip(1)) by {
        let x = followed(shape, a, c);
        let y = followed(shape, a, b).drop_last() + followed(shape, b, c).skip(1);
        law_following_runs_along_the_way(shape, a, c, 0);
        law_following_runs_along_the_way(shape, a, b, 0);
        law_following_runs_along_the_way(shape, b, c, 0);
        assert(x.len() == y.len());
        assert forall|k: int| 0 <= k < x.len() implies x[k] == y[k] by {
            law_following_runs_along_the_way(shape, a, c, k);
            law_following_runs_along_the_way(shape, a, b, k);
            let m = followed(shape, a, b).len() - 1;
            if k >= m {
                law_following_runs_along_the_way(shape, b, c, k - m + 1);
            }
        }
    }
}

// ---------------------------------------------------------------------------
// What is found near a place
// ---------------------------------------------------------------------------

/// A lookup by id gives a way of that id, the first one, and misses none.
pub proof fn law_a_way_is_found_by_its_id(ways: Seq<Way>, id: i64)
    ensures
        match place_of(ways, id) {
            Some(k) => 0 <= k < ways.len() && ways[k].id == id && forall|j: int|
                0 <= j < k ==> (#[trigger] ways[j]).id != id,
            None => forall|j: int| 0 <= j < ways.len() ==> (#[trigger] ways[j]).id != id,
        },
    decreases ways.len(),
{
    if ways.len() > 0 {
        let less = ways.drop_last();
        law_a_way_is_found_by_its_id(less, id);
        assert forall|j: int| 0 <= j < less.len() implies #[trigger] ways[j] == less[j] by {}
    }
}

/// A segment is looked at just where the cells between its two ends, ends
/// included, come within reach: at most `reach` rows and columns away.
pub proof fn law_every_segment_within_reach_is_looked_at(
    cells: Seq<Seq<Cell>>,
    cell: Cell,
    reach: i32,
    w: usize,
    i: usize,
)
    requires
        cells.len() <= usize::MAX,
        forall|k: int| 0 <= k < cells.len() ==> 1 <= (#[trigger] cells[k]).len() <= usize::MAX,
        w < cells.len(),
        i + 1 < cells[w as int].len(),
    ensures
        segments_around(cells, cell, reach).contains((w, i)) <==> exists|cy: int, cx: int|
            #![trigger near_cell(cell, reach, cy, cx)]
            near_cell(cell, reach, cy, cx) && ({
                let a = cells[w as int][i as int];
                let b = cells[w as int][i + 1];
                &&& a.0 <= cy <= b.0 || b.0 <= cy <= a.0
                &&& a.1 <= cx <= b.1 || b.1 <= cx <= a.1
            }),
{
    let a = cells[w as int][i as int];
    let b = cells[w as int][i + 1];
    let n = side_of(reach);
    let all = segments_around(cells, cell, reach);
    if all.contains((w, i)) {
        let (dy, dx) = lemma_in_rows(cells, cell.0 - reach, cell.1 - reach, n, n, (w, i));
        let cy = cell.0 - reach + dy;
        let cx = cell.1 - reach + dx;
        assert(near_cell(cell, reach, cy, cx));
        lemma_in_bucket(cells, (cy as i32, cx as i32), w, i);
    }
    if exists|cy: int, cx: int|
        #![trigger near_cell(cell, reach, cy, cx)]
        near_cell(cell, reach, cy, cx) && (a.0 <= cy <= b.0 || b.0 <= cy <= a.0) && (a.1 <= cx
            <= b.1 || b.1 <= cx <= a.1) {
        let (cy, cx) = choose|cy: int, cx: int|
            #![trigger near_cell(cell, reach, cy, cx)]
            near_cell(cell, reach, cy, cx) && (a.0 <= cy <= b.0 || b.0 <= cy <= a.0) && (a.1 <= cx
                <= b.1 || b.1 <= cx <= a.1);
        lemma_in_bucket(cells, (cy as i32, cx as i32), w, i);
        lemma_rows_hold(
            cells,
            cell.0 - reach,
            cell.1 - reach,
            n,
            n,
            (w, i),
            cy - (cell.0 - reach),
            cx - (cell.1 - reach),
        );
    }
}

/// A cell lies at most `reach` rows and columns away from another.
pub open spec fn near_cell(cell: Cell, reach: i32, cy: int, cx: int) -> bool {
    &&& -reach <= cy - cell.0 <= reach
    &&& -reach <= cx - cell.1 <= reach
}

proof fn lemma_in_passing(cells: Seq<Cell>, way: nat, upto: nat, c: Cell, i: usize)
    requires
        upto < cells.len(),
        way <= usize::MAX,
        upto <= usize::MAX,
    ensures
        passing(cells, way, upto, c).contains((way as usize, i)) <==> i < upto && between(
            cells[i as int],
            cells[i + 1],
            c,
        ),
        forall|x: (usize, usize)| #[trigger]
            passing(cells, way, upto, c).contains(x) ==> x.0 == way,
    decreases upto,
{
    if upto > 0 {
        lemma_in_passing(cells, way, (upto - 1) as nat, c, i);
        let rest = passing(cells, way, (upto - 1) as nat, c);
        let more = if between(cells[upto - 1], cells[upto as int], c) {
            seq![(way as usize, (upto - 1) as usize)]
        } else {
            seq![]
        };
        assert forall|x: (usize, usize)| #[trigger]
            (rest + more).contains(x) <==> rest.contains(x) || more.contains(x) by {
            lemma_joined(rest, more, x);
        }
        if more.len() > 0 {
            assert(more[0] == (way as usize, (upto - 1) as usize));
        }
    }
}

proof fn lemma_joined<T>(a: Seq<T>, b: Seq<T>, x: T)
    ensures
        (a + b).contains(x) <==> a.contains(x) || b.contains(x),
{
    if a.contains(x) {
        let k = a.index_of(x);
        assert((a + b)[k] == x);
    }
    if b.contains(x) {
        let k = b.index_of(x);
        assert((a + b)[a.len() + k] == x);
    }
    if (a + b).contains(x) {
        let k = (a + b).index_of(x);
        if k < a.len() {
            assert(a[k] == x);
        } else {
            assert(b[k - a.len()] == x);
        }
    }
}

proof fn lemma_in_bucket(cells: Seq<Seq<Cell>>, c: Cell, w: usize, i: usize)
    requires
        cells.len() <= usize::MAX,
        forall|k: int| 0 <= k < cells.len() ==> 1 <= (#[trigger] cells[k]).len() <= usize::MAX,
    ensures
        bucket(cells, c).contains((w, i)) <==> w < cells.len() && i + 1 < cells[w as int].len()
            && between(cells[w as int][i as int], cells[w as int][i + 1], c),
    decreases cells.len(),
{
    if cells.len() > 0 {
        let less = cells.drop_last();
        let last = cells.last();
        let n = (cells.len() - 1) as nat;
        assert forall|k: int| 0 <= k < less.len() implies 1 <= (#[trigger] less[k]).len()
            <= usize::MAX by {
            assert(less[k] == cells[k]);
        }
        lemma_in_bucket(less, c, w, i);
        lemma_in_passing(last, n, (last.len() - 1) as nat, c, i);
        lemma_joined(bucket(less, c), passing(last, n, (last.len() - 1) as nat, c), (w, i));
        if w < less.len() {
            assert(less[w as int] == cells[w as int]);
        }
    }
}

proof fn lemma_in_row(cells: Seq<Seq<Cell>>, cy: int, cx: int, count: nat, x: (usize, usize)) -> (
    dx: int)
    requires
        row_from(cells, cy, cx, count).contains(x),
    ensures
        0 <= dx < count,
        bucket_at(cells, cy, cx + dx).contains(x),
    decreases count,
{
    if count == 0 {
        0
    } else {
        let rest = row_from(cells, cy, cx, (count - 1) as nat);
        lemma_joined(rest, bucket_at(cells, cy, cx + count - 1), x);
        if rest.contains(x) {
            lemma_in_row(cells, cy, cx, (count - 1) as nat, x)
        } else {
            count - 1
        }
    }
}

proof fn lemma_in_rows(
    cells: Seq<Seq<Cell>>,
    cy: int,
    cx: int,
    rows: nat,
    count: nat,
    x: (usize, usize),
) -> (d: (int, int))
    requires
        rows_from(cells, cy, cx, rows, count).contains(x),
    ensures
        0 <= d.0 < rows,
        0 <= d.1 < count,
        bucket_at(cells, cy + d.0, cx + d.1).contains(x),
    decreases rows,
{
    if rows == 0 {
        (0, 0)
    } else {
        let rest = rows_from(cells, cy, cx, (rows - 1) as nat, count);
        lemma_joined(rest, row_from(cells, cy + rows - 1, cx, count), x);
        if rest.contains(x) {
            lemma_in_rows(cells, cy, cx, (rows - 1) as nat, count, x)
        } else {
            (rows - 1, lemma_in_row(cells, cy + rows - 1, cx, count, x))
        }
    }
}

proof fn lemma_row_holds(
    cells: Seq<Seq<Cell>>,
    cy: int,
    cx: int,
    count: nat,
    x: (usize, usize),
    dx: int,
)
    requires
        0 <= dx < count,
        bucket_at(cells, cy, cx + dx).contains(x),
    ensures
        row_from(cells, cy, cx, count).contains(x),
    decreases count,
{
    let rest = row_from(cells, cy, cx, (count - 1) as nat);
    lemma_joined(rest, bucket_at(cells, cy, cx + count - 1), x);
    if dx < count - 1 {
        lemma_row_holds(cells, cy, cx, (count - 1) as nat, x, dx);
    }
}

proof fn lemma_rows_hold(
    cells: Seq<Seq<Cell>>,
    cy: int,
    cx: int,
    rows: nat,
    count: nat,
    x: (usize, usize),
    dy: int,
    dx: int,
)
    requires
        0 <= dy < rows,
        0 <= dx < count,
        bucket_at(cells, cy + dy, cx + dx).contains(x),
    ensures
        rows_from(cells, cy, cx, rows, count).contains(x),
    decreases rows,
{
    let rest = rows_from(cells, cy, cx, (rows - 1) as nat, count);
    lemma_joined(rest, row_from(cells, cy + rows - 1, cx, count), x);
    if dy < rows - 1 {
        lemma_rows_hold(cells, cy, cx, (rows - 1) as nat, count, x, dy, dx);
    } else {
        lemma_row_holds(cells, cy + rows - 1, cx, count, x, dx);
    }
}

/// A snap is one of the segments looked at, within the limit, as it was measured
/// from the segment's first end to its second, and no segment looked at is nearer.
/// There is none just where every segment looked at is beyond the limit.
pub proof fn law_a_snap_is_the_nearest_segment<F: Fn(LatLon, LatLon) -> (Real, LatLon, Real)>(
    project: F,
    ways: Seq<Way>,
    segs: Seq<(usize, usize)>,
    hits: Seq<(Real, LatLon, Real)>,
    limit: Real,
)
    requires
        measured(project, ways, segs, hits),
    ensures
        match snap_of(ways, segs, hits, limit) {
            Some(s) => s.dist_m.at_most(limit) && (exists|k: int|
                0 <= k < segs.len() && s.seg == (#[trigger] segs[k]).1 && ({
                    let way = ways[segs[k].0 as int];
                    &&& s.way_id == way.id
                    &&& call_ensures(
                        project,
                        (way.points@[s.seg as int], way.points@[s.seg + 1]),
                        (s.t, s.pos, s.dist_m),
                    )
                })) && forall|k: int|
                0 <= k < hits.len() && (#[trigger] hits[k]).2.at_most(limit) ==> s.dist_m.at_most(
                    hits[k].2,
                ),
            None => forall|k: int| 0 <= k < hits.len() ==> !(#[trigger] hits[k]).2.at_most(limit),
        },
{
    let dists = dists_of(hits);
    law_nearest(dists, limit);
    assert forall|k: int| 0 <= k < hits.len() implies #[trigger] hits[k].2 == dists[k] by {}
    if let Some(k) = nearest_of(dists, limit) {
        let w = segs[k].0;
        assert(hits[k].2 == dists[k]);
        assert(call_ensures(
            project,
            (ways[w as int].points@[segs[k].1 as int], ways[w as int].points@[segs[k].1 + 1]),
            hits[k],
        ));
    }
}

/// A way with a length that comes for the first time goes behind the others with
/// the cells of its points, and every other way stays where it is.
pub proof fn law_a_new_way_goes_behind_the_others(n: NetView, way: Way, cells: Seq<Cell>)
    requires
        way.points@.len() >= 2,
        forall|j: int| 0 <= j < n.ways.len() ==> (#[trigger] n.ways[j]).id != way.id,
    ensures
        admitted(n, way, cells).ways == n.ways.push(way),
        admitted(n, way, cells).cells == n.cells.push(cells),
{
    law_a_way_is_found_by_its_id(n.ways, way.id);
}

/// Every way that is brought and has a length is then in the network, whether it was
/// before or not; the ways that were there stay where they were, as they were.
pub proof fn law_every_way_that_is_brought_is_there(
    n: NetView,
    added: Seq<(Way, Seq<Cell>)>,
    i: int,
    k: int,
)
    requires
        n.ways.len() == n.cells.len(),
        0 <= i < added.len(),
    ensures
        ({
            let after = all_admitted(n, added);
            &&& added[i].0.points@.len() >= 2 ==> exists|j: int|
                0 <= j < after.ways.len() && (#[trigger] after.ways[j]).id == added[i].0.id
            &&& after.ways.len() >= n.ways.len()
            &&& after.cells.len() == after.ways.len()
            &&& 0 <= k < n.ways.len() ==> after.ways[k] == n.ways[k] && after.cells[k] == n.cells[k]
        }),
    decreases added.len(),
{
    let less = added.drop_last();
    let before = all_admitted(n, less);
    let after = all_admitted(n, added);
    let w = added.last().0;
    if less.len() > 0 {
        law_every_way_that_is_brought_is_there(
            n,
            less,
            if i < less.len() {
                i
            } else {
                0
            },
            k,
        );
    }
    law_a_way_is_found_by_its_id(before.ways, w.id);
    if i < less.len() {
        if added[i].0.points@.len() >= 2 {
            let j = choose|j: int|
                0 <= j < before.ways.len() && (#[trigger] before.ways[j]).id == less[i].0.id;
            assert(after.ways[j].id == added[i].0.id);
        }
    } else if w.points@.len() >= 2 {
        match place_of(before.ways, w.id) {
            Some(j) => {
                assert(after.ways[j].id == w.id);
            },
            None => {
                assert(after.ways[before.ways.len() as int].id == w.id);
            },
        }
    }
}

/// Bringing some ways and then others is bringing them all.
pub proof fn law_ways_are_brought_one_after_the_other(
    n: NetView,
    added: Seq<(Way, Seq<Cell>)>,
    more: Seq<(Way, Seq<Cell>)>,
)
    ensures
        all_admitted(n, added + more) == all_admitted(all_admitted(n, added), more),
    decreases more.len(),
{
    let all = added + more;
    if more.len() == 0 {
        assert(all =~= added);
    } else {
        assert(all.drop_last() =~= added + more.drop_last());
        law_ways_are_brought_one_after_the_other(n, added, more.drop_last());
    }
}

} // verus!
