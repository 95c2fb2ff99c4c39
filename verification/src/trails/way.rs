//! Ways, and positions on them.
use vstd::prelude::*;

use crate::geo;
use crate::geo::{Bounds, LatLon};
use crate::number::Real;
use crate::text::same_text;
use crate::trailfmt::kind;
use crate::trailfmt::tile::ArchiveWay;
use crate::trailfmt::vocabulary;
use crate::trailfmt::vocabulary::sac_label;

verus! {

#[derive(Clone, Copy, Debug, PartialEq, Eq, Structural)]
pub enum WayKind {
    Path,
    Track,
    Footway,
    Steps,
    Cycleway,
    Road,
}

/// The class that a `highway` value is drawn as.
pub open spec fn kind_of_tag(tag: Seq<char>) -> WayKind {
    if tag == "path"@ || tag == "bridleway"@ {
        WayKind::Path
    } else if tag == "track"@ {
        WayKind::Track
    } else if tag == "footway"@ || tag == "pedestrian"@ {
        WayKind::Footway
    } else if tag == "steps"@ {
        WayKind::Steps
    } else if tag == "cycleway"@ {
        WayKind::Cycleway
    } else {
        WayKind::Road
    }
}

/// The class that a wire code is drawn as.
pub open spec fn kind_of_code(code: u8) -> WayKind {
    if code == kind::PATH {
        WayKind::Path
    } else if code == kind::TRACK {
        WayKind::Track
    } else if code == kind::FOOTWAY {
        WayKind::Footway
    } else if code == kind::STEPS {
        WayKind::Steps
    } else if code == kind::CYCLEWAY {
        WayKind::Cycleway
    } else {
        WayKind::Road
    }
}

impl WayKind {
    /// The class of a `highway` value. Whatever is not one of the others is a
    /// road.
    pub fn from_tag(tag: &str) -> (k: Self)
        ensures
            k == kind_of_tag(tag@),
    {
        if same_text(tag, "path") || same_text(tag, "bridleway") {
            WayKind::Path
        } else if same_text(tag, "track") {
            WayKind::Track
        } else if same_text(tag, "footway") || same_text(tag, "pedestrian") {
            WayKind::Footway
        } else if same_text(tag, "steps") {
            WayKind::Steps
        } else if same_text(tag, "cycleway") {
            WayKind::Cycleway
        } else {
            WayKind::Road
        }
    }

    /// The class of a wire code. Unknown codes are roads: a later archive may
    /// add classes, and they must still be drawn rather than dropped.
    pub fn from_code(code: u8) -> (k: Self)
        ensures
            k == kind_of_code(code),
    {
        if code == kind::PATH {
            WayKind::Path
        } else if code == kind::TRACK {
            WayKind::Track
        } else if code == kind::FOOTWAY {
            WayKind::Footway
        } else if code == kind::STEPS {
            WayKind::Steps
        } else if code == kind::CYCLEWAY {
            WayKind::Cycleway
        } else {
            WayKind::Road
        }
    }

    /// Red, green and blue of the line it is drawn with.
    pub fn color(self) -> (rgb: (u8, u8, u8))
        ensures
            rgb == match self {
                WayKind::Path => (180u8, 60u8, 200u8),
                WayKind::Track => (150u8, 110u8, 60u8),
                WayKind::Footway => (80u8, 140u8, 220u8),
                WayKind::Steps => (80u8, 140u8, 220u8),
                WayKind::Cycleway => (60u8, 170u8, 160u8),
                WayKind::Road => (120u8, 120u8, 120u8),
            },
    {
        match self {
            WayKind::Path => (180, 60, 200),
            WayKind::Track => (150, 110, 60),
            WayKind::Footway => (80, 140, 220),
            WayKind::Steps => (80, 140, 220),
            WayKind::Cycleway => (60, 170, 160),
            WayKind::Road => (120, 120, 120),
        }
    }
}

/// A way of the network.
#[derive(Clone, Debug)]
pub struct Way {
    pub id: i64,
    pub kind: WayKind,
    pub name: Option<String>,
    /// Node ids: two ways that share a node are connected.
    pub nodes: Vec<i64>,
    pub points: Vec<LatLon>,
    pub sac_scale: Option<String>,
    /// The window that the points span.
    pub bounds: Bounds,
}

/// How many of the points are not shared.
pub open spec fn plain_count(shared: Seq<Option<i64>>) -> nat
    decreases shared.len(),
{
    if shared.len() == 0 {
        0
    } else {
        plain_count(shared.drop_last()) + if shared.last() is None {
            1nat
        } else {
            0nat
        }
    }
}

/// The node id of the point at `i`: its own where it is shared, else the next
/// one below the counter.
pub open spec fn node_id(shared: Seq<Option<i64>>, counter: int, i: int) -> int {
    match shared[i] {
        Some(id) => id as int,
        None => counter - plain_count(shared.take(i + 1)),
    }
}

/// The node ids of all points.
pub open spec fn node_ids(shared: Seq<Option<i64>>, counter: int) -> Seq<i64> {
    Seq::new(shared.len(), |i: int| node_id(shared, counter, i) as i64)
}

/// The text of an optional name.
pub open spec fn text_of(s: Option<String>) -> Option<Seq<char>> {
    match s {
        Some(t) => Some(t@),
        None => None,
    }
}

impl Way {
    /// Builds a way from its archive form and the positions of its points.
    ///
    /// `synthetic` hands out identities for the points that are not shared. They
    /// are unique across the whole network and never those of a real node, which
    /// are positive: the counter walks downwards from zero.
    pub fn from_archive(aw: ArchiveWay, points: Vec<LatLon>, synthetic: &mut i64) -> (r: Option<
        Self,
    >)
        requires
            points@.len() == aw.points@.len(),
            *old(synthetic) - plain_count(aw.shared@) >= i64::MIN,
        ensures
            r is Some <==> aw@.valid(),
            r is None ==> *final(synthetic) == *old(synthetic),
            r matches Some(w) ==> {
                &&& w.id == aw.id
                &&& w.kind == kind_of_code(aw.kind)
                &&& w.name == aw.name
                &&& w.nodes@ == node_ids(aw.shared@, *old(synthetic) as int)
                &&& w.points@ == points@
                &&& w.bounds == geo::bounds_of(points@)
                &&& text_of(w.sac_scale) == if 1 <= aw.sac <= 6 {
                    Some(vocabulary::sac_values()[aw.sac - 1])
                } else {
                    None
                }
                &&& *final(synthetic) == *old(synthetic) - plain_count(aw.shared@)
            },
    {
        if !aw.is_valid() {
            return None;
        }
        let ghost shared = aw.shared@;
        let ghost counter = *synthetic as int;
        let mut nodes: Vec<i64> = Vec::new();
        let mut i: usize = 0;
        while i < aw.shared.len()
            invariant
                shared == aw.shared@,
                i <= shared.len(),
                counter - plain_count(shared) >= i64::MIN,
                *synthetic == counter - plain_count(shared.take(i as int)),
                nodes@ == node_ids(shared, counter).take(i as int),
            decreases shared.len() - i,
        {
            proof {
                assert(shared.take(i + 1).drop_last() =~= shared.take(i as int));
                lemma_plain_count_grows(shared, i + 1);
            }
            match aw.shared[i] {
                Some(id) => {
                    nodes.push(id);
                },
                None => {
                    *synthetic = *synthetic - 1;
                    nodes.push(*synthetic);
                },
            }
            assert(nodes@ =~= node_ids(shared, counter).take(i + 1));
            i = i + 1;
        }
        assert(shared.take(i as int) =~= shared);
        assert(nodes@ =~= node_ids(shared, counter));
        let bounds = Bounds::around(&points);
        let sac_scale = match sac_label(aw.sac) {
            Some(s) => Some(s.to_owned()),
            None => None,
        };
        Some(
            Way {
                id: aw.id,
                kind: WayKind::from_code(aw.kind),
                name: aw.name,
                nodes,
                points,
                sac_scale,
                bounds,
            },
        )
    }

    /// Whether any of the way may be seen in a window.
    pub fn intersects(&self, view: Bounds) -> (r: bool)
        ensures
            r == self.bounds.meets(view),
    {
        self.bounds.intersects(view)
    }
}

/// A position snapped onto a trail.
#[derive(Clone, Copy, Debug, PartialEq, Eq, Structural)]
pub struct Snap {
    pub way_id: i64,
    pub seg: usize,
    /// Position along the segment, from nought to one.
    pub t: Real,
    pub pos: LatLon,
    pub dist_m: Real,
}

/// Points that are not shared get identities of their own: below the counter,
/// so none of an earlier way or of a real node, and each another one.
pub proof fn law_plain_points_are_no_junctions(
    shared: Seq<Option<i64>>,
    counter: int,
    i: int,
    j: int,
)
    requires
        0 <= i < j < shared.len(),
        shared[j] is None,
    ensures
        counter - plain_count(shared) <= node_id(shared, counter, j) < counter,
        shared[i] is None ==> node_id(shared, counter, j) < node_id(shared, counter, i),
        shared[i] matches Some(id) && id >= counter ==> node_id(shared, counter, j) != node_id(
            shared,
            counter,
            i,
        ),
{
    lemma_plain_count_grows(shared, j + 1);
    assert(shared.take(j + 1).drop_last() =~= shared.take(j));
    assert(shared.take(j).take(i + 1) =~= shared.take(i + 1));
    lemma_plain_count_grows(shared.take(j), i + 1);
}

proof fn lemma_plain_count_grows(shared: Seq<Option<i64>>, k: int)
    requires
        0 <= k <= shared.len(),
    ensures
        plain_count(shared.take(k)) <= plain_count(shared),
    decreases shared.len() - k,
{
    if k < shared.len() {
        let less = shared.drop_last();
        assert(less.take(k) =~= shared.take(k));
        lemma_plain_count_grows(less, k);
    } else {
        assert(shared.take(k) =~= shared);
    }
}

/// A way is drawn as the same class whether it comes with its tag or with the
/// code that the archive has for that tag.
pub proof fn law_classes_agree(tag: Seq<char>)
    ensures
        vocabulary::kind_of(tag) matches Some(code) ==> kind_of_code(code) == kind_of_tag(tag),
        vocabulary::kind_of(tag) is None ==> kind_of_tag(tag) == WayKind::Road,
{
    vocabulary::law_what_is_carried(tag);
}

/// The codes from one to five are the classes other than roads, and any other code
/// is a road.
pub proof fn law_what_each_code_is(code: u8)
    ensures
        kind_of_code(code) == WayKind::Path <==> code == 1,
        kind_of_code(code) == WayKind::Track <==> code == 2,
        kind_of_code(code) == WayKind::Footway <==> code == 3,
        kind_of_code(code) == WayKind::Steps <==> code == 4,
        kind_of_code(code) == WayKind::Cycleway <==> code == 5,
        kind_of_code(code) == WayKind::Road <==> code == 0 || code > 5,
{
}

/// A point that is shared keeps its id, so that ways stay connected; a plain one
/// gets the next id below those that were handed out.
pub proof fn law_shared_points_keep_their_ids(shared: Seq<Option<i64>>, counter: int, i: int)
    requires
        0 <= i < shared.len(),
        i64::MIN <= counter - plain_count(shared),
        counter <= 0,
    ensures
        node_ids(shared, counter).len() == shared.len(),
        match shared[i] {
            Some(id) => {
                &&& node_ids(shared, counter)[i] == id
                &&& node_ids(shared.skip(i + 1), counter - plain_count(shared.take(i)))
                    == node_ids(shared, counter).skip(i + 1)
            },
            None => {
                &&& node_ids(shared, counter)[i] == counter - plain_count(shared.take(i)) - 1
                &&& node_ids(shared.skip(i + 1), counter - plain_count(shared.take(i)) - 1)
                    == node_ids(shared, counter).skip(i + 1)
            },
        },
{
    assert(shared.take(i + 1).drop_last() =~= shared.take(i));
    lemma_plain_count_grows(shared, i + 1);
    let after = counter - plain_count(shared.take(i + 1));
    let rest = shared.skip(i + 1);
    let a = node_ids(rest, after);
    let b = node_ids(shared, counter).skip(i + 1);
    assert forall|j: int| 0 <= j < rest.len() implies #[trigger] a[j] == b[j] by {
        lemma_plain_count_adds(shared, i + 1, j + 1);
        assert(rest[j] == shared[i + 1 + j]);
    }
    assert(a =~= b);
}

proof fn lemma_plain_count_adds(shared: Seq<Option<i64>>, k: int, n: int)
    requires
        0 <= k,
        0 <= n,
        k + n <= shared.len(),
    ensures
        plain_count(shared.take(k + n)) == plain_count(shared.take(k)) + plain_count(
            shared.skip(k).take(n),
        ),
    decreases n,
{
    let rest = shared.skip(k);
    if n == 0 {
        assert(rest.take(0) =~= Seq::<Option<i64>>::empty());
    } else {
        lemma_plain_count_adds(shared, k, n - 1);
        assert(shared.take(k + n).drop_last() =~= shared.take(k + n - 1));
        assert(rest.take(n).drop_last() =~= rest.take(n - 1));
        assert(rest.take(n).last() == shared.take(k + n).last());
    }
}

} // verus!
