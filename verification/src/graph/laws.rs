//! What holds of every trail graph.
use vstd::prelude::*;

use crate::graph::reach;
use crate::graph::reach::Quest;
use crate::graph::shape;
use crate::graph::shape::{CostMs, Edge, Stretch};
use crate::number::{Real, Single};
use crate::trails::network;
use crate::trails::way::{Snap, Way};

verus! {

// ---------------------------------------------------------------------------
// Where ways are cut
// ---------------------------------------------------------------------------

/// A node of a way also stands somewhere else: on another way, or on the same one
/// at another place.
pub open spec fn stands_elsewhere(ways: Seq<Way>, k: int, i: int) -> bool {
    exists|j: int, q: int|
        #![trigger ways[j].nodes@[q]]
        0 <= j < ways.len() && 0 <= q < ways[j].nodes@.len() && (j, q) != (k, i)
            && ways[j].nodes@[q] == ways[k].nodes@[i]
}

/// Two stretches follow each other, the one of the other's way and from its end.
pub open spec fn follows(a: Stretch, b: Stretch) -> bool {
    a.way == b.way && b.from == a.to
}

/// Ways are cut just where they meet: no point inside a stretch stands anywhere
/// else, and each end of a stretch is an end of its way or stands somewhere else
/// too.
pub proof fn law_ways_are_cut_where_they_meet(ways: Seq<Way>, s: int)
    requires
        ways.len() <= usize::MAX,
        forall|i: int| 0 <= i < ways.len() ==> 2 <= (#[trigger] ways[i]).points@.len() <= usize::MAX,
        0 <= s < shape::all_stretches(ways).len(),
    ensures
        ({
            let st = shape::all_stretches(ways)[s];
            let k = st.way as int;
            let last = ways[k].points@.len() - 1;
            &&& 0 <= k < ways.len()
            &&& ways[k].nodes@.len() == ways[k].points@.len()
            &&& 0 <= st.from < st.to <= last
            &&& forall|i: int|
                st.from < i < st.to ==> !#[trigger] stands_elsewhere(ways, k, i)
            &&& st.from == 0 || stands_elsewhere(ways, k, st.from as int)
            &&& st.to == last || stands_elsewhere(ways, k, st.to as int)
        }),
{
    lemma_all_pieces(ways, ways.len());
    let st = shape::all_stretches(ways)[s];
    let k = st.way as int;
    assert(piece(ways, st));
    assert forall|i: int| st.from < i < st.to implies !#[trigger] stands_elsewhere(ways, k, i) by {
        assert(!shape::is_cut(ways, ways[k], i));
        lemma_stands_elsewhere(ways, k, i);
    }
    lemma_stands_elsewhere(ways, k, st.from as int);
    lemma_stands_elsewhere(ways, k, st.to as int);
}

/// Every segment of a way with ids lies on a stretch, and on one only.
pub proof fn law_stretches_cover_the_ways(ways: Seq<Way>, k: int, seg: int) -> (s: int)
    requires
        ways.len() <= usize::MAX,
        forall|i: int| 0 <= i < ways.len() ==> 2 <= (#[trigger] ways[i]).points@.len() <= usize::MAX,
        0 <= k < ways.len(),
        ways[k].nodes@.len() == ways[k].points@.len(),
        0 <= seg < ways[k].points@.len() - 1,
    ensures
        0 <= s < shape::all_stretches(ways).len(),
        shape::all_stretches(ways)[s].way == k,
        shape::all_stretches(ways)[s].from <= seg < shape::all_stretches(ways)[s].to,
        forall|t: int|
            0 <= t < shape::all_stretches(ways).len() && t != s && (#[trigger] shape::all_stretches(
                ways,
            )[t]).way == k ==> !(shape::all_stretches(ways)[t].from <= seg
                < shape::all_stretches(ways)[t].to),
{
    lemma_covered(ways, ways.len(), k, seg)
}

/// Two ways that have a node in common, or one that passes a node twice, are both
/// cut there: a stretch ends at that point, unless it is where the way starts.
pub proof fn law_a_meeting_ends_a_stretch(
    ways: Seq<Way>,
    k: int,
    i: int,
    j: int,
    q: int,
) -> (s: int)
    requires
        ways.len() <= usize::MAX,
        forall|n: int| 0 <= n < ways.len() ==> 2 <= (#[trigger] ways[n]).points@.len() <= usize::MAX,
        0 <= k < ways.len(),
        ways[k].nodes@.len() == ways[k].points@.len(),
        0 < i < ways[k].points@.len(),
        0 <= j < ways.len(),
        0 <= q < ways[j].nodes@.len(),
        (j, q) != (k, i),
        ways[j].nodes@[q] == ways[k].nodes@[i],
    ensures
        0 <= s < shape::all_stretches(ways).len(),
        shape::all_stretches(ways)[s].way == k,
        shape::all_stretches(ways)[s].to == i,
{
    assert(ways[j].nodes@[q] == ways[k].nodes@[i]);
    assert(stands_elsewhere(ways, k, i));
    let s = law_stretches_cover_the_ways(ways, k, i - 1);
    law_ways_are_cut_where_they_meet(ways, s);
    s
}

/// A stretch of a way between two cuts, with none inside.
spec fn piece(ways: Seq<Way>, st: Stretch) -> bool {
    let w = ways[st.way as int];
    &&& st.way < ways.len()
    &&& shape::aligned(w)
    &&& st.from < st.to < w.points@.len()
    &&& forall|i: int| st.from < i < st.to ==> !#[trigger] shape::is_cut(ways, w, i)
    &&& st.from == 0 || shape::is_cut(ways, w, st.from as int)
    &&& shape::is_cut(ways, w, st.to as int)
}

proof fn lemma_cut_back(ways: Seq<Way>, w: Way, i: int)
    requires
        0 <= i,
    ensures
        0 <= shape::last_cut(ways, w, i) <= i,
        shape::last_cut(ways, w, i) == 0 || shape::is_cut(ways, w, shape::last_cut(ways, w, i)),
        forall|m: int|
            shape::last_cut(ways, w, i) < m <= i ==> !#[trigger] shape::is_cut(ways, w, m),
    decreases i,
{
    if i > 0 && !shape::is_cut(ways, w, i) {
        lemma_cut_back(ways, w, i - 1);
    }
}

/// The stretches of a way up to a point lie end to end, from its start to the
/// last cut.
proof fn lemma_pieces_to(ways: Seq<Way>, k: int, i: int)
    requires
        0 <= k < ways.len() <= usize::MAX,
        shape::aligned(ways[k]),
        2 <= ways[k].points@.len() <= usize::MAX,
        0 <= i < ways[k].points@.len(),
    ensures
        ({
            let list = shape::stretches_to(ways, k, i);
            &&& forall|j: int|
                0 <= j < list.len() ==> piece(ways, #[trigger] list[j]) && list[j].way == k
            &&& list.len() > 0 ==> list[0].from == 0
            &&& forall|j: int| 0 <= j < list.len() - 1 ==> follows(#[trigger] list[j], list[j + 1])
            &&& shape::last_cut(ways, ways[k], i) == if list.len() > 0 {
                list.last().to as int
            } else {
                0
            }
        }),
    decreases i,
{
    if i > 0 {
        lemma_pieces_to(ways, k, i - 1);
        lemma_cut_back(ways, ways[k], i - 1);
        let head = shape::stretches_to(ways, k, i - 1);
        let list = shape::stretches_to(ways, k, i);
        assert forall|j: int| 0 <= j < list.len() implies piece(ways, #[trigger] list[j])
            && list[j].way == k by {
            if j < head.len() {
                assert(list[j] == head[j]);
            }
        }
        assert forall|j: int| 0 <= j < list.len() - 1 implies follows(
            #[trigger] list[j],
            list[j + 1],
        ) by {
            assert(list[j] == head[j]);
            if j < head.len() - 1 {
                assert(list[j + 1] == head[j + 1]);
            }
        }
    }
}

proof fn lemma_all_pieces(ways: Seq<Way>, count: nat)
    requires
        count <= ways.len() <= usize::MAX,
        forall|i: int| 0 <= i < ways.len() ==> 2 <= (#[trigger] ways[i]).points@.len() <= usize::MAX,
    ensures
        forall|j: int|
            0 <= j < shape::stretches_of(ways, count).len() ==> piece(
                ways,
                #[trigger] shape::stretches_of(ways, count)[j],
            ) && shape::stretches_of(ways, count)[j].way < count,
    decreases count,
{
    if count > 0 {
        let k = count - 1;
        lemma_all_pieces(ways, k as nat);
        let head = shape::stretches_of(ways, k as nat);
        let list = shape::stretches_of(ways, count);
        if shape::aligned(ways[k]) {
            let last = ways[k].points@.len() - 1;
            lemma_pieces_to(ways, k, last);
            assert forall|j: int| 0 <= j < list.len() implies piece(ways, #[trigger] list[j])
                && list[j].way < count by {
                if j < head.len() {
                    assert(list[j] == head[j]);
                } else {
                    assert(list[j] == shape::stretches_to(ways, k, last)[j - head.len()]);
                }
            }
        } else {
            assert(list =~= head);
        }
    }
}

/// Of stretches that lie end to end one holds a segment, and the others do not.
proof fn lemma_end_to_end(list: Seq<Stretch>, seg: int) -> (s: int)
    requires
        list.len() > 0,
        list[0].from <= seg < list.last().to,
        forall|j: int| 0 <= j < list.len() ==> (#[trigger] list[j]).from < list[j].to,
        forall|j: int| 0 <= j < list.len() - 1 ==> follows(#[trigger] list[j], list[j + 1]),
    ensures
        0 <= s < list.len(),
        list[s].from <= seg < list[s].to,
        forall|t: int|
            0 <= t < list.len() && t != s ==> !((#[trigger] list[t]).from <= seg < list[t].to),
        forall|t: int| 0 <= t < list.len() ==> (#[trigger] list[t]).to <= list.last().to,
    decreases list.len(),
{
    let end = list.len() - 1;
    assert(list[end].from < list[end].to);
    if end == 0 {
        0
    } else {
        let less = list.drop_last();
        assert forall|j: int| 0 <= j < less.len() - 1 implies follows(
            #[trigger] less[j],
            less[j + 1],
        ) by {
            assert(less[j] == list[j] && less[j + 1] == list[j + 1]);
        }
        assert forall|j: int| 0 <= j < less.len() implies (#[trigger] less[j]).from < less[j].to by {
            assert(less[j] == list[j]);
        }
        assert(follows(list[end - 1], list[end - 1 + 1]));
        assert(less.last() == list[end - 1]);
        let at = if seg < less.last().to {
            seg
        } else {
            less.last().to - 1
        };
        assert(list[0] == less[0]);
        lemma_starts_first(less);
        let r = lemma_end_to_end(less, at);
        assert forall|t: int| 0 <= t < list.len() implies (#[trigger] list[t]).to
            <= list.last().to by {
            if t < end {
                assert(less[t] == list[t]);
            }
        }
        let s = if seg < less.last().to {
            r
        } else {
            end
        };
        assert forall|t: int| 0 <= t < list.len() && t != s implies !((#[trigger] list[t]).from
            <= seg < list[t].to) by {
            if t < end {
                assert(less[t] == list[t]);
            }
        }
        s
    }
}

/// The first of stretches that lie end to end starts before the last one ends.
proof fn lemma_starts_first(list: Seq<Stretch>)
    requires
        list.len() > 0,
        forall|j: int| 0 <= j < list.len() ==> (#[trigger] list[j]).from < list[j].to,
        forall|j: int| 0 <= j < list.len() - 1 ==> follows(#[trigger] list[j], list[j + 1]),
    ensures
        list[0].from < list.last().to,
    decreases list.len(),
{
    let end = list.len() - 1;
    assert(list[end].from < list[end].to);
    if end > 0 {
        let less = list.drop_last();
        assert forall|j: int| 0 <= j < less.len() - 1 implies follows(
            #[trigger] less[j],
            less[j + 1],
        ) by {
            assert(less[j] == list[j] && less[j + 1] == list[j + 1]);
        }
        assert forall|j: int| 0 <= j < less.len() implies (#[trigger] less[j]).from < less[j].to by {
            assert(less[j] == list[j]);
        }
        lemma_starts_first(less);
        assert(follows(list[end - 1], list[end - 1 + 1]));
    }
}

proof fn lemma_covered(ways: Seq<Way>, count: nat, k: int, seg: int) -> (s: int)
    requires
        ways.len() <= usize::MAX,
        forall|i: int| 0 <= i < ways.len() ==> 2 <= (#[trigger] ways[i]).points@.len() <= usize::MAX,
        0 <= k < count <= ways.len(),
        shape::aligned(ways[k]),
        0 <= seg < ways[k].points@.len() - 1,
    ensures
        ({
            let list = shape::stretches_of(ways, count);
            &&& 0 <= s < list.len()
            &&& list[s].way == k
            &&& list[s].from <= seg < list[s].to
            &&& forall|t: int|
                0 <= t < list.len() && t != s && (#[trigger] list[t]).way == k ==> !(list[t].from
                    <= seg < list[t].to)
        }),
    decreases count,
{
    let n = count - 1;
    let head = shape::stretches_of(ways, n as nat);
    let list = shape::stretches_of(ways, count);
    lemma_all_pieces(ways, n as nat);
    if n == k {
        let last = ways[k].points@.len() - 1;
        let own = shape::stretches_to(ways, k, last);
        lemma_pieces_to(ways, k, last);
        assert(shape::is_cut(ways, ways[k], last));
        assert(own.len() > 0);
        assert(own.last().to == last);
        assert forall|j: int| 0 <= j < own.len() implies (#[trigger] own[j]).from < own[j].to by {
            assert(piece(ways, own[j]));
        }
        let r = lemma_end_to_end(own, seg);
        let s = head.len() + r;
        assert(list[s] == own[r]);
        assert forall|t: int| 0 <= t < list.len() && t != s && (#[trigger] list[t]).way
            == k implies !(list[t].from <= seg < list[t].to) by {
            if t < head.len() {
                assert(list[t] == head[t]);
            } else {
                assert(list[t] == own[t - head.len()]);
            }
        }
        s
    } else {
        let s = lemma_covered(ways, n as nat, k, seg);
        assert(list[s] == head[s]);
        let last = ways[n].points@.len() - 1;
        if shape::aligned(ways[n]) {
            lemma_pieces_to(ways, n, last);
        }
        assert forall|t: int| 0 <= t < list.len() && t != s && (#[trigger] list[t]).way
            == k implies !(list[t].from <= seg < list[t].to) by {
            if t < head.len() {
                assert(list[t] == head[t]);
            } else {
                assert(list[t] == shape::stretches_to(ways, n, last)[t - head.len()]);
            }
        }
        s
    }
}

/// An id occurs where it stands.
proof fn lemma_occurs(nodes: Seq<i64>, i: int)
    requires
        0 <= i < nodes.len(),
    ensures
        shape::occurrences(nodes, nodes[i]) >= 1,
    decreases nodes.len(),
{
    if i < nodes.len() - 1 {
        lemma_occurs(nodes.drop_last(), i);
    }
}

proof fn lemma_occurs_twice(nodes: Seq<i64>, i: int, q: int)
    requires
        0 <= i < q < nodes.len(),
        nodes[i] == nodes[q],
    ensures
        shape::occurrences(nodes, nodes[i]) >= 2,
    decreases nodes.len(),
{
    let less = nodes.drop_last();
    if q < nodes.len() - 1 {
        lemma_occurs_twice(less, i, q);
    } else {
        lemma_occurs(less, i);
    }
}

proof fn lemma_total_once(ways: Seq<Way>, k: int, i: int)
    requires
        0 <= k < ways.len(),
        0 <= i < ways[k].nodes@.len(),
    ensures
        shape::total_occurrences(ways, ways[k].nodes@[i]) >= 1,
    decreases ways.len(),
{
    if k < ways.len() - 1 {
        lemma_total_once(ways.drop_last(), k, i);
    } else {
        lemma_occurs(ways[k].nodes@, i);
    }
}

proof fn lemma_total_twice(ways: Seq<Way>, k: int, i: int, j: int, q: int)
    requires
        0 <= k < ways.len(),
        0 <= i < ways[k].nodes@.len(),
        0 <= j < ways.len(),
        0 <= q < ways[j].nodes@.len(),
        (j, q) != (k, i),
        ways[j].nodes@[q] == ways[k].nodes@[i],
    ensures
        shape::total_occurrences(ways, ways[k].nodes@[i]) >= 2,
    decreases ways.len(),
{
    let less = ways.drop_last();
    let end = ways.len() - 1;
    if k < end && j < end {
        lemma_total_twice(less, k, i, j, q);
    } else if k < end {
        lemma_total_once(less, k, i);
        lemma_occurs(ways[j].nodes@, q);
    } else if j < end {
        lemma_total_once(less, j, q);
        lemma_occurs(ways[k].nodes@, i);
    } else if i < q {
        lemma_occurs_twice(ways[k].nodes@, i, q);
    } else {
        lemma_occurs_twice(ways[k].nodes@, q, i);
    }
}

/// Where an id stands that occurs.
proof fn lemma_found(nodes: Seq<i64>, id: i64) -> (i: int)
    requires
        shape::occurrences(nodes, id) >= 1,
    ensures
        0 <= i < nodes.len(),
        nodes[i] == id,
    decreases nodes.len(),
{
    if nodes.last() == id {
        nodes.len() - 1
    } else {
        lemma_found(nodes.drop_last(), id)
    }
}

/// Where else an id stands that occurs more than once.
proof fn lemma_found_again(nodes: Seq<i64>, id: i64, not: int) -> (i: int)
    requires
        shape::occurrences(nodes, id) >= 2,
    ensures
        0 <= i < nodes.len(),
        i != not,
        nodes[i] == id,
    decreases nodes.len(),
{
    let end = nodes.len() - 1;
    if nodes.last() != id {
        lemma_found_again(nodes.drop_last(), id, not)
    } else if not != end {
        end
    } else {
        lemma_found(nodes.drop_last(), id)
    }
}

proof fn lemma_total_found(ways: Seq<Way>, id: i64) -> (at: (int, int))
    requires
        shape::total_occurrences(ways, id) >= 1,
    ensures
        0 <= at.0 < ways.len(),
        0 <= at.1 < ways[at.0].nodes@.len(),
        ways[at.0].nodes@[at.1] == id,
    decreases ways.len(),
{
    let end = ways.len() - 1;
    if shape::occurrences(ways.last().nodes@, id) >= 1 {
        (end, lemma_found(ways[end].nodes@, id))
    } else {
        lemma_total_found(ways.drop_last(), id)
    }
}

proof fn lemma_total_found_again(ways: Seq<Way>, id: i64, not: (int, int)) -> (at: (int, int))
    requires
        shape::total_occurrences(ways, id) >= 2,
    ensures
        0 <= at.0 < ways.len(),
        0 <= at.1 < ways[at.0].nodes@.len(),
        at != not,
        ways[at.0].nodes@[at.1] == id,
    decreases ways.len(),
{
    let end = ways.len() - 1;
    let here = shape::occurrences(ways.last().nodes@, id);
    let less = ways.drop_last();
    if here >= 2 {
        (end, lemma_found_again(ways[end].nodes@, id, not.1))
    } else if here == 0 {
        lemma_total_found_again(less, id, not)
    } else {
        let a = lemma_total_found(less, id);
        let i = lemma_found(ways[end].nodes@, id);
        if a == not {
            (end, i)
        } else {
            a
        }
    }
}

/// A node occurs more than once just where it stands somewhere else.
proof fn lemma_stands_elsewhere(ways: Seq<Way>, k: int, i: int)
    requires
        0 <= k < ways.len(),
        0 <= i < ways[k].nodes@.len(),
    ensures
        shape::total_occurrences(ways, ways[k].nodes@[i]) > 1 <==> stands_elsewhere(ways, k, i),
{
    let id = ways[k].nodes@[i];
    if stands_elsewhere(ways, k, i) {
        let (j, q) = choose|j: int, q: int|
            #![trigger ways[j].nodes@[q]]
            0 <= j < ways.len() && 0 <= q < ways[j].nodes@.len() && (j, q) != (k, i)
                && ways[j].nodes@[q] == id;
        lemma_total_twice(ways, k, i, j, q);
    } else if shape::total_occurrences(ways, id) > 1 {
        let at = lemma_total_found_again(ways, id, (k, i));
        assert(ways[at.0].nodes@[at.1] == id);
    }
}

// ---------------------------------------------------------------------------
// What stretches become
// ---------------------------------------------------------------------------

/// An edge runs along a stretch: over the points of its way, as long as it, from
/// the node of its first point to that of its last.
pub open spec fn runs_along(
    s: shape::Shape,
    e: Edge,
    ways: Seq<Way>,
    st: Stretch,
    len_m: Real,
) -> bool {
    &&& e.way_id == ways[st.way as int].id
    &&& e.from == st.from
    &&& e.to == st.to
    &&& e.len_m == len_m
    &&& e.climb is None
    &&& e.a < s.ids.len()
    &&& e.b < s.ids.len()
    &&& s.ids[e.a as int] == ways[st.way as int].nodes@[st.from as int]
    &&& s.ids[e.b as int] == ways[st.way as int].nodes@[st.to as int]
}

/// A stretch is walked: it has a length above nought and two different ends.
pub open spec fn is_walked(ways: Seq<Way>, st: Stretch, len_m: Real) -> bool {
    &&& (Real { bits: 0 }).below(len_m)
    &&& ways[st.way as int].nodes@[st.from as int] != ways[st.way as int].nodes@[st.to as int]
}

/// The stretches fit in a graph whose nodes and points have 32 bits.
pub open spec fn fit(ways: Seq<Way>, list: Seq<Stretch>, lengths: Seq<Real>) -> bool {
    &&& list.len() <= lengths.len()
    &&& 2 * list.len() <= u32::MAX
    &&& forall|j: int|
        0 <= j < list.len() ==> shape::stretch_ok(ways, #[trigger] list[j])
            && ways[list[j].way as int].points@.len() <= u32::MAX
}

/// The edges of a graph are the stretches that are walked, one each and in their
/// order: there are as many, and the edge of a stretch comes behind those of the
/// stretches before it.
pub proof fn law_every_walked_stretch_is_an_edge(
    ways: Seq<Way>,
    list: Seq<Stretch>,
    lengths: Seq<Real>,
    j: int,
)
    requires
        fit(ways, list, lengths),
        0 <= j < list.len(),
    ensures
        ({
            let s = shape::shape_of(ways, list, lengths);
            let before = shape::shape_of(ways, list.take(j), lengths).edges.len() as int;
            let after = shape::shape_of(ways, list.take(j + 1), lengths).edges.len();
            if is_walked(ways, list[j], lengths[j]) {
                &&& after == before + 1
                &&& before < s.edges.len()
                &&& runs_along(s, s.edges[before], ways, list[j], lengths[j])
            } else {
                after == before
            }
        }),
    decreases list.len(),
{
    lemma_shape_grows(ways, list, lengths);
    let less = list.drop_last();
    let end = list.len() - 1;
    assert(list.take(end) =~= less);
    assert(list.take(end + 1) =~= list);
    if j < end {
        assert(fit(ways, less, lengths)) by {
            assert forall|i: int| 0 <= i < less.len() implies shape::stretch_ok(
                ways,
                #[trigger] less[i],
            ) && ways[less[i].way as int].points@.len() <= u32::MAX by {
                assert(less[i] == list[i]);
            }
        }
        law_every_walked_stretch_is_an_edge(ways, less, lengths, j);
        assert(less.take(j) =~= list.take(j));
        assert(less.take(j + 1) =~= list.take(j + 1));
    }
}

/// No two nodes of a graph have the same id, and a node stands where a point of
/// that id does.
pub proof fn law_a_node_has_one_id(ways: Seq<Way>, list: Seq<Stretch>, lengths: Seq<Real>, n: int)
    requires
        fit(ways, list, lengths),
        0 <= n < shape::shape_of(ways, list, lengths).ids.len(),
    ensures
        ({
            let s = shape::shape_of(ways, list, lengths);
            &&& s.ids.len() == s.nodes.len()
            &&& forall|m: int| 0 <= m < s.ids.len() && m != n ==> #[trigger] s.ids[m] != s.ids[n]
            &&& exists|k: int, i: int|
                #![trigger ways[k].nodes@[i]]
                0 <= k < ways.len() && 0 <= i < ways[k].nodes@.len() && ways[k].nodes@[i]
                    == s.ids[n] && ways[k].points@[i] == s.nodes[n]
        }),
    decreases list.len(),
{
    lemma_shape_grows(ways, list, lengths);
    if list.len() > 0 {
        let less = list.drop_last();
        let s = shape::shape_of(ways, list, lengths);
        let before = shape::shape_of(ways, less, lengths);
        assert(fit(ways, less, lengths)) by {
            assert forall|i: int| 0 <= i < less.len() implies shape::stretch_ok(
                ways,
                #[trigger] less[i],
            ) && ways[less[i].way as int].points@.len() <= u32::MAX by {
                assert(less[i] == list[i]);
            }
        }
        let st = list.last();
        assert(shape::stretch_ok(ways, list[list.len() - 1]));
        let w = ways[st.way as int];
        assert forall|m: int| 0 <= m < s.ids.len() && m != n implies #[trigger] s.ids[m]
            != s.ids[n] by {
            lemma_ids_differ(ways, list, lengths, m, n);
        }
        if n < before.ids.len() {
            law_a_node_has_one_id(ways, less, lengths, n);
        } else if s.ids[n] == w.nodes@[st.from as int] {
            assert(w.nodes@[st.from as int] == s.ids[n]);
            assert(s.nodes[n] == w.points@[st.from as int] || w.nodes@[st.to as int] == s.ids[n]);
        } else {
            assert(w.nodes@[st.to as int] == s.ids[n]);
        }
    }
}

proof fn lemma_first(ids: Seq<i64>, id: i64)
    ensures
        match shape::first_at(ids, id) {
            Some(i) => 0 <= i < ids.len() && ids[i] == id,
            None => !ids.contains(id),
        },
    decreases ids.len(),
{
    if ids.len() > 0 {
        let less = ids.drop_last();
        lemma_first(less, id);
        if shape::first_at(ids, id) is None && ids.contains(id) {
            let i = ids.index_of(id);
            assert(i < less.len());
            assert(less[i] == id);
        }
    }
}

proof fn lemma_ids_differ(
    ways: Seq<Way>,
    list: Seq<Stretch>,
    lengths: Seq<Real>,
    m: int,
    n: int,
)
    requires
        0 <= m < shape::shape_of(ways, list, lengths).ids.len(),
        0 <= n < shape::shape_of(ways, list, lengths).ids.len(),
        m != n,
    ensures
        shape::shape_of(ways, list, lengths).ids[m] != shape::shape_of(ways, list, lengths).ids[n],
    decreases list.len(),
{
    let less = list.drop_last();
    let before = shape::shape_of(ways, less, lengths);
    let st = list.last();
    let w = ways[st.way as int];
    let s1 = shape::with_node(before, w.nodes@[st.from as int], w.points@[st.from as int]);
    let s2 = shape::with_node(s1, w.nodes@[st.to as int], w.points@[st.to as int]);
    lemma_first(before.ids, w.nodes@[st.from as int]);
    lemma_first(s1.ids, w.nodes@[st.to as int]);
    if m < before.ids.len() && n < before.ids.len() {
        lemma_ids_differ(ways, less, lengths, m, n);
    } else {
        let a = if m < n {
            m
        } else {
            n
        };
        let b = if m < n {
            n
        } else {
            m
        };
        if s2.ids.len() == b + 1 && s1.ids.len() == b {
            assert(s1.ids.contains(s1.ids[a]));
        } else {
            assert(before.ids.contains(before.ids[a]));
        }
    }
}

/// A stretch more adds its edge, if it is walked, behind the others, and leaves
/// the nodes and edges that there are.
proof fn lemma_shape_grows(ways: Seq<Way>, list: Seq<Stretch>, lengths: Seq<Real>)
    requires
        fit(ways, list, lengths),
    ensures
        ({
            let s = shape::shape_of(ways, list, lengths);
            let before = shape::shape_of(ways, list.drop_last(), lengths);
            let end = list.len() - 1;
            &&& s.ids.len() <= 2 * list.len()
            &&& s.ids.len() == s.nodes.len()
            &&& list.len() > 0 ==> {
                &&& before.ids.len() <= s.ids.len()
                &&& forall|n: int|
                    0 <= n < before.ids.len() ==> #[trigger] s.ids[n] == before.ids[n] && s.nodes[n]
                        == before.nodes[n]
                &&& forall|e: int|
                    0 <= e < before.edges.len() ==> #[trigger] s.edges[e] == before.edges[e]
                &&& s.edges.len() == before.edges.len() + if is_walked(ways, list[end], lengths[end]) {
                    1nat
                } else {
                    0nat
                }
                &&& is_walked(ways, list[end], lengths[end]) ==> runs_along(
                    s,
                    s.edges.last(),
                    ways,
                    list[end],
                    lengths[end],
                )
            }
        }),
    decreases list.len(),
{
    if list.len() > 0 {
        let less = list.drop_last();
        let end = list.len() - 1;
        assert(fit(ways, less, lengths)) by {
            assert forall|i: int| 0 <= i < less.len() implies shape::stretch_ok(
                ways,
                #[trigger] less[i],
            ) && ways[less[i].way as int].points@.len() <= u32::MAX by {
                assert(less[i] == list[i]);
            }
        }
        lemma_shape_grows(ways, less, lengths);
        let before = shape::shape_of(ways, less, lengths);
        let st = list[end];
        assert(shape::stretch_ok(ways, st));
        let w = ways[st.way as int];
        let from = w.nodes@[st.from as int];
        let to = w.nodes@[st.to as int];
        let s1 = shape::with_node(before, from, w.points@[st.from as int]);
        let s2 = shape::with_node(s1, to, w.points@[st.to as int]);
        lemma_first(before.ids, from);
        lemma_first(before.ids, to);
        lemma_first(s1.ids, from);
        lemma_first(s1.ids, to);
        lemma_first(s2.ids, from);
        lemma_first(s2.ids, to);
        assert(s1.ids.contains(from)) by {
            if shape::first_at(before.ids, from) is None {
                assert(s1.ids[s1.ids.len() - 1] == from);
            }
        }
        assert(s2.ids.contains(from)) by {
            let i = s1.ids.index_of(from);
            assert(s2.ids[i] == from);
        }
        assert(s2.ids.contains(to)) by {
            if shape::first_at(s1.ids, to) is None {
                assert(s2.ids[s2.ids.len() - 1] == to);
            }
        }
    }
}

// ---------------------------------------------------------------------------
// What is found in a graph
// ---------------------------------------------------------------------------

/// An edge is listed at a node just where it ends there, once, and edges are
/// listed in their order.
pub proof fn law_edges_are_listed_at_their_ends(edges: Seq<Edge>, n: int)
    requires
        edges.len() <= u32::MAX,
    ensures
        forall|e: u32| #[trigger]
            shape::incident(edges, n).contains(e) <==> e < edges.len() && (edges[e as int].a == n
                || edges[e as int].b == n),
        forall|i: int, j: int|
            0 <= i < j < shape::incident(edges, n).len() ==> #[trigger] shape::incident(edges, n)[i]
                < #[trigger] shape::incident(edges, n)[j],
    decreases edges.len(),
{
    let all = shape::incident(edges, n);
    if edges.len() > 0 {
        let less = edges.drop_last();
        let some = shape::incident(less, n);
        law_edges_are_listed_at_their_ends(less, n);
        shape::lemma_incident(less, n);
        assert forall|e: u32| #[trigger] all.contains(e) <==> e < edges.len() && (
        edges[e as int].a == n || edges[e as int].b == n) by {
            assert(some.contains(e) <==> e < less.len() && (less[e as int].a == n
                || less[e as int].b == n));
            if some.contains(e) {
                let i = some.index_of(e);
                assert(all[i] == e);
            }
            if all.contains(e) {
                let i = all.index_of(e);
                if i < some.len() {
                    assert(some[i] == e);
                }
            }
            if e == edges.len() - 1 && (edges[e as int].a == n || edges[e as int].b == n) {
                assert(all[all.len() - 1] == e);
            }
        }
        assert forall|i: int, j: int| 0 <= i < j < all.len() implies #[trigger] all[i]
            < #[trigger] all[j] by {
            assert(some[i] < less.len());
            if j < some.len() {
                assert(some[i] < some[j]);
            }
        }
    } else {
        assert forall|e: u32| #[trigger] all.contains(e) <==> e < edges.len() && (
        edges[e as int].a == n || edges[e as int].b == n) by {}
    }
}

/// The edges of a way are those that name it, in their order.
pub proof fn law_edges_are_listed_at_their_way(edges: Seq<Edge>, way_id: i64)
    requires
        edges.len() <= u32::MAX,
    ensures
        forall|e: u32| #[trigger]
            shape::edges_of_way(edges, way_id).contains(e) <==> e < edges.len()
                && edges[e as int].way_id == way_id,
        forall|i: int, j: int|
            0 <= i < j < shape::edges_of_way(edges, way_id).len()
                ==> #[trigger] shape::edges_of_way(edges, way_id)[i]
                < #[trigger] shape::edges_of_way(edges, way_id)[j],
    decreases edges.len(),
{
    let all = shape::edges_of_way(edges, way_id);
    if edges.len() > 0 {
        let less = edges.drop_last();
        let some = shape::edges_of_way(less, way_id);
        law_edges_are_listed_at_their_way(less, way_id);
        shape::lemma_edges_of_way(less, way_id);
        assert forall|e: u32| #[trigger] all.contains(e) <==> e < edges.len()
            && edges[e as int].way_id == way_id by {
            assert(some.contains(e) <==> e < less.len() && less[e as int].way_id == way_id);
            if some.contains(e) {
                let i = some.index_of(e);
                assert(all[i] == e);
            }
            if all.contains(e) {
                let i = all.index_of(e);
                if i < some.len() {
                    assert(some[i] == e);
                }
            }
            if e == edges.len() - 1 && edges[e as int].way_id == way_id {
                assert(all[all.len() - 1] == e);
            }
        }
        assert forall|i: int, j: int| 0 <= i < j < all.len() implies #[trigger] all[i]
            < #[trigger] all[j] by {
            assert(some[i] < less.len());
            if j < some.len() {
                assert(some[i] < some[j]);
            }
        }
    } else {
        assert forall|e: u32| #[trigger] all.contains(e) <==> e < edges.len()
            && edges[e as int].way_id == way_id by {}
    }
}

/// A snapped point is found on an edge of its way, as long as the way is there
/// and has one; and on the edge that its segment lies on, where one of the edges
/// has it.
pub proof fn law_a_point_lies_on_an_edge_of_its_way(edges: Seq<Edge>, ways: Seq<Way>, snap: Snap)
    requires
        edges.len() <= u32::MAX,
    ensures
        match shape::located(edges, ways, snap) {
            Some(e) => {
                &&& e < edges.len()
                &&& edges[e as int].way_id == snap.way_id
                &&& (exists|i: int|
                    0 <= i < edges.len() && (#[trigger] edges[i]).way_id == snap.way_id
                        && edges[i].from <= snap.seg < edges[i].to) ==> edges[e as int].from
                    <= snap.seg < edges[e as int].to
            },
            None => network::place_of(ways, snap.way_id) is None || forall|i: int|
                0 <= i < edges.len() ==> (#[trigger] edges[i]).way_id != snap.way_id,
        },
{
    let list = shape::edges_of_way(edges, snap.way_id);
    law_edges_are_listed_at_their_way(edges, snap.way_id);
    shape::lemma_edges_of_way(edges, snap.way_id);
    if network::place_of(ways, snap.way_id) is Some {
        if list.len() == 0 {
            assert forall|i: int| 0 <= i < edges.len() implies (#[trigger] edges[i]).way_id
                != snap.way_id by {
                assert(!list.contains(i as u32));
            }
        } else {
            assert(list.contains(list[0]));
            lemma_first_carrying(edges, list, snap.seg as int);
            if exists|i: int|
                0 <= i < edges.len() && (#[trigger] edges[i]).way_id == snap.way_id && edges[i].from
                    <= snap.seg < edges[i].to {
                let i = choose|i: int|
                    0 <= i < edges.len() && (#[trigger] edges[i]).way_id == snap.way_id
                        && edges[i].from <= snap.seg < edges[i].to;
                assert(list.contains(i as u32));
                let j = list.index_of(i as u32);
                assert(shape::carries(edges[list[j] as int], snap.seg as int));
            }
        }
    }
}

proof fn lemma_first_carrying(edges: Seq<Edge>, list: Seq<u32>, seg: int)
    ensures
        match shape::first_carrying(edges, list, seg) {
            Some(e) => list.contains(e) && shape::carries(edges[e as int], seg),
            None => forall|j: int|
                0 <= j < list.len() ==> !shape::carries(edges[#[trigger] list[j] as int], seg),
        },
    decreases list.len(),
{
    if list.len() > 0 {
        let rest = list.skip(1);
        lemma_first_carrying(edges, rest, seg);
        assert(list.contains(list[0]));
        match shape::first_carrying(edges, rest, seg) {
            Some(e) => {
                let j = rest.index_of(e);
                assert(list[j + 1] == e);
            },
            None => {
                if !shape::carries(edges[list[0] as int], seg) {
                    assert forall|j: int| 0 <= j < list.len() implies !shape::carries(
                        edges[#[trigger] list[j] as int],
                        seg,
                    ) by {
                        if j > 0 {
                            assert(rest[j - 1] == list[j]);
                        }
                    }
                }
            },
        }
    }
}

/// The edges that climbs are asked for are those without one, of ways that are
/// there.
pub proof fn law_climbs_are_asked_where_they_are_missing(edges: Seq<Edge>, ways: Seq<Way>)
    requires
        edges.len() <= u32::MAX,
    ensures
        forall|e: u32| #[trigger]
            shape::missing(edges, ways).contains(e) <==> e < edges.len()
                && edges[e as int].climb is None && exists|k: int|
                0 <= k < ways.len() && (#[trigger] ways[k]).id == edges[e as int].way_id,
    decreases edges.len(),
{
    let all = shape::missing(edges, ways);
    if edges.len() > 0 {
        let less = edges.drop_last();
        let some = shape::missing(less, ways);
        law_climbs_are_asked_where_they_are_missing(less, ways);
        let end = edges.len() - 1;
        network::law_a_way_is_found_by_its_id(ways, edges[end].way_id);
        assert forall|e: u32| #[trigger] all.contains(e) <==> e < edges.len()
            && edges[e as int].climb is None && exists|k: int|
            0 <= k < ways.len() && (#[trigger] ways[k]).id == edges[e as int].way_id by {
            assert(some.contains(e) ==> e < less.len());
            if e < less.len() {
                assert(less[e as int] == edges[e as int]);
            }
            if some.contains(e) {
                let i = some.index_of(e);
                assert(all[i] == e);
            }
            if all.contains(e) {
                let i = all.index_of(e);
                if i < some.len() {
                    assert(some[i] == e);
                    assert(some.contains(e));
                }
            }
            if all.len() > some.len() {
                assert(all[all.len() - 1] == end as u32);
            }
        }
    } else {
        assert forall|e: u32| #[trigger] all.contains(e) <==> e < edges.len()
            && edges[e as int].climb is None && exists|k: int|
            0 <= k < ways.len() && (#[trigger] ways[k]).id == edges[e as int].way_id by {}
    }
}

/// Climb and descent tell up from down: where `diff` takes its second number from
/// its first, a stretch that rises at every point has no descent, and one that
/// rises at none has no climb.
pub proof fn law_going_up_is_no_descent<
    D: Fn(Single, Single) -> Single,
    R: Fn(Single, Single) -> Single,
    F: Fn(Single, Single) -> Single,
>(elevs: Seq<Single>, diff: D, rise: R, fall: F, climb: (Single, Single))
    requires
        shape::climb_is(elevs, diff, rise, fall, climb),
        forall|a: Single, b: Single, d: Single| #[trigger]
            call_ensures(diff, (a, b), d) ==> ((Single { bits: 0 }).below(d) <==> b.below(a)),
    ensures
        (forall|i: int| 1 <= i < elevs.len() ==> elevs[i - 1].below(#[trigger] elevs[i]))
            ==> climb.1 == (Single { bits: 0 }),
        (forall|i: int| 1 <= i < elevs.len() ==> !elevs[i - 1].below(#[trigger] elevs[i]))
            ==> climb.0 == (Single { bits: 0 }),
{
    if elevs.len() > 0 {
        let (diffs, ups, downs) = choose|diffs: Seq<Single>, ups: Seq<Single>, downs: Seq<Single>|
         #[trigger]
            shape::climb_sums(elevs, diff, rise, fall, diffs, ups, downs) && climb == (
                ups.last(),
                downs.last(),
            );
        lemma_one_way(elevs, diff, rise, fall, diffs, ups, downs, elevs.len() as int);
    }
}

proof fn lemma_one_way<
    D: Fn(Single, Single) -> Single,
    R: Fn(Single, Single) -> Single,
    F: Fn(Single, Single) -> Single,
>(
    elevs: Seq<Single>,
    diff: D,
    rise: R,
    fall: F,
    diffs: Seq<Single>,
    ups: Seq<Single>,
    downs: Seq<Single>,
    n: int,
)
    requires
        1 <= n <= elevs.len(),
        shape::climb_sums(elevs, diff, rise, fall, diffs, ups, downs),
        forall|a: Single, b: Single, d: Single| #[trigger]
            call_ensures(diff, (a, b), d) ==> ((Single { bits: 0 }).below(d) <==> b.below(a)),
    ensures
        (forall|i: int| 1 <= i < elevs.len() ==> elevs[i - 1].below(#[trigger] elevs[i]))
            ==> downs[n - 1] == (Single { bits: 0 }),
        (forall|i: int| 1 <= i < elevs.len() ==> !elevs[i - 1].below(#[trigger] elevs[i]))
            ==> ups[n - 1] == (Single { bits: 0 }),
    decreases n,
{
    if n > 1 {
        lemma_one_way(elevs, diff, rise, fall, diffs, ups, downs, n - 1);
        let i = n - 1;
        assert(call_ensures(diff, (elevs[i], elevs[i - 1]), diffs[i]));
        assert(elevs[i - 1].below(elevs[i]) <==> (Single { bits: 0 }).below(diffs[i]));
    }
}

// ---------------------------------------------------------------------------
// What is reached
// ---------------------------------------------------------------------------

/// An edge is walked both ways, at the first of its costs from its first end and
/// at the second from the other; nobody walks it from anywhere else.
pub proof fn law_an_edge_has_a_cost_for_each_direction(
    edges: Seq<Edge>,
    costs: Seq<(CostMs, CostMs)>,
    e: int,
    n: int,
)
    requires
        0 <= e < edges.len(),
        edges[e].a != edges[e].b,
    ensures
        reach::walk_end(edges, edges[e].a as int, seq![e]) == Some(edges[e].b as int),
        reach::walk_end(edges, edges[e].b as int, seq![e]) == Some(edges[e].a as int),
        reach::walk_cost(edges, costs, edges[e].a as int, seq![e]) == costs[e].0,
        reach::walk_cost(edges, costs, edges[e].b as int, seq![e]) == costs[e].1,
        n != edges[e].a && n != edges[e].b ==> reach::walk_end(edges, n, seq![e]) is None,
{
    assert(seq![e].drop_last() =~= Seq::<int>::empty());
    reveal_with_fuel(reach::walk_end, 2);
    reveal_with_fuel(reach::walk_cost, 2);
}

/// A walk that goes on from where another ends costs both together, and ends where
/// the second one does.
pub proof fn law_walks_add_up(
    edges: Seq<Edge>,
    costs: Seq<(CostMs, CostMs)>,
    start: int,
    first: Seq<int>,
    then: Seq<int>,
)
    requires
        reach::walk_end(edges, start, first) is Some,
    ensures
        reach::walk_end(edges, start, first + then) == reach::walk_end(
            edges,
            reach::walk_end(edges, start, first)->0,
            then,
        ),
        reach::walk_end(edges, start, first + then) is Some ==> reach::walk_cost(
            edges,
            costs,
            start,
            first + then,
        ) == reach::walk_cost(edges, costs, start, first) + reach::walk_cost(
            edges,
            costs,
            reach::walk_end(edges, start, first)->0,
            then,
        ),
    decreases then.len(),
{
    let all = first + then;
    if then.len() == 0 {
        assert(all =~= first);
    } else {
        assert(all.drop_last() =~= first + then.drop_last());
        assert(all.last() == then.last());
        law_walks_add_up(edges, costs, start, first, then.drop_last());
    }
}

/// The edges within reach are those whose two ends are, in their order, and an
/// edge costs as much as the end that is reached last.
pub proof fn law_an_edge_is_reached_with_its_later_end(edges: Seq<Edge>, dist: Seq<CostMs>, e: int)
    requires
        edges.len() <= u32::MAX,
        0 <= e < edges.len(),
        forall|i: int|
            0 <= i < edges.len() ==> (#[trigger] edges[i]).a < dist.len() && edges[i].b < dist.len(),
    ensures
        ({
            let list = reach::edges_reached(edges, dist);
            let a = dist[edges[e].a as int];
            let b = dist[edges[e].b as int];
            &&& a != u64::MAX && b != u64::MAX <==> exists|i: int|
                0 <= i < list.len() && (#[trigger] list[i]).0 == e
            &&& forall|i: int|
                0 <= i < list.len() && (#[trigger] list[i]).0 == e ==> list[i].1 >= a && list[i].1
                    >= b && (list[i].1 == a || list[i].1 == b)
            &&& forall|i: int, j: int|
                0 <= i < j < list.len() ==> (#[trigger] list[i]).0 < (#[trigger] list[j]).0
        }),
    decreases edges.len(),
{
    let end = edges.len() - 1;
    let less = edges.drop_last();
    let list = reach::edges_reached(edges, dist);
    let some = reach::edges_reached(less, dist);
    lemma_reached_in_order(less, dist);
    lemma_reached_in_order(edges, dist);
    if e < end {
        law_an_edge_is_reached_with_its_later_end(less, dist, e);
        assert forall|i: int| 0 <= i < list.len() && (#[trigger] list[i]).0 == e implies i
            < some.len() && list[i] == some[i] by {}
        if exists|i: int| 0 <= i < some.len() && (#[trigger] some[i]).0 == e {
            let i = choose|i: int| 0 <= i < some.len() && (#[trigger] some[i]).0 == e;
            assert(list[i].0 == e);
        }
        if exists|i: int| 0 <= i < list.len() && (#[trigger] list[i]).0 == e {
            let i = choose|i: int| 0 <= i < list.len() && (#[trigger] list[i]).0 == e;
            assert(some[i].0 == e);
        }
    } else {
        if list.len() > some.len() {
            assert(list[list.len() - 1].0 == e);
        }
    }
}

proof fn lemma_reached_in_order(edges: Seq<Edge>, dist: Seq<CostMs>)
    requires
        edges.len() <= u32::MAX,
    ensures
        forall|i: int|
            0 <= i < reach::edges_reached(edges, dist).len() ==> (#[trigger] reach::edges_reached(
                edges,
                dist,
            )[i]).0 < edges.len(),
        forall|i: int, j: int|
            0 <= i < j < reach::edges_reached(edges, dist).len() ==> (
            #[trigger] reach::edges_reached(edges, dist)[i]).0 < (#[trigger] reach::edges_reached(
                edges,
                dist,
            )[j]).0,
    decreases edges.len(),
{
    if edges.len() > 0 {
        let less = edges.drop_last();
        let list = reach::edges_reached(edges, dist);
        let some = reach::edges_reached(less, dist);
        lemma_reached_in_order(less, dist);
        assert forall|i: int| 0 <= i < list.len() implies (#[trigger] list[i]).0 < edges.len() by {
            if i < some.len() {
                assert(list[i] == some[i]);
            }
        }
        assert forall|i: int, j: int| 0 <= i < j < list.len() implies (#[trigger] list[i]).0 < (
        #[trigger] list[j]).0 by {
            assert(list[i] == some[i]);
            if j < some.len() {
                assert(list[j] == some[j]);
            }
        }
    }
}

/// Nodes are counted as they are reached: none where none was, and as many as
/// there are nodes just where all were.
pub proof fn law_reached_nodes_are_counted(dist: Seq<CostMs>)
    ensures
        reach::reached(dist) <= dist.len(),
        reach::reached(dist) > 0 <==> exists|n: int|
            0 <= n < dist.len() && #[trigger] dist[n] != u64::MAX,
        reach::reached(dist) == dist.len() <==> forall|n: int|
            0 <= n < dist.len() ==> #[trigger] dist[n] != u64::MAX,
    decreases dist.len(),
{
    if dist.len() > 0 {
        let less = dist.drop_last();
        law_reached_nodes_are_counted(less);
        let end = dist.len() - 1;
        if exists|n: int| 0 <= n < less.len() && #[trigger] less[n] != u64::MAX {
            let n = choose|n: int| 0 <= n < less.len() && #[trigger] less[n] != u64::MAX;
            assert(dist[n] != u64::MAX);
        }
        if exists|n: int| 0 <= n < dist.len() && #[trigger] dist[n] != u64::MAX {
            let n = choose|n: int| 0 <= n < dist.len() && #[trigger] dist[n] != u64::MAX;
            if n < end {
                assert(less[n] != u64::MAX);
            }
        }
        if forall|n: int| 0 <= n < dist.len() ==> #[trigger] dist[n] != u64::MAX {
            assert forall|n: int| 0 <= n < less.len() implies #[trigger] less[n] != u64::MAX by {
                assert(dist[n] != u64::MAX);
            }
            assert(dist[end] != u64::MAX);
        }
        if forall|n: int| 0 <= n < less.len() ==> #[trigger] less[n] != u64::MAX {
            assert forall|n: int| 0 <= n < end implies #[trigger] dist[n] != u64::MAX by {
                assert(less[n] != u64::MAX);
            }
        }
    }
}

/// No edge is a short cut: the far end of an edge costs no more than its near end and
/// the edge together, in either direction, as long as that stays in the budget; and a
/// node that is a source costs no more than it does as one.
pub proof fn law_no_edge_is_a_short_cut(q: Quest, dist: Seq<CostMs>, e: int, i: int)
    requires
        q.ok(),
        q.least(dist),
        0 <= e < q.edges.len(),
    ensures
        ({
            let a = q.edges[e].a as int;
            let b = q.edges[e].b as int;
            let there = dist[a] + q.costs[e].0;
            let back = dist[b] + q.costs[e].1;
            &&& dist[a] != u64::MAX && there <= q.budget && there < u64::MAX ==> dist[b] <= there
            &&& dist[b] != u64::MAX && back <= q.budget && back < u64::MAX ==> dist[a] <= back
        }),
        0 <= i < q.sources.len() && q.sources[i].0 < q.nodes && q.sources[i].1 <= q.budget
            && q.sources[i].1 < u64::MAX ==> dist[q.sources[i].0 as int] <= q.sources[i].1,
{
    let a = q.edges[e].a as int;
    let b = q.edges[e].b as int;
    assert(q.edges[e].a < q.nodes && q.edges[e].b < q.nodes && q.edges[e].a != q.edges[e].b);
    if dist[a] != u64::MAX && dist[a] + q.costs[e].0 <= q.budget {
        lemma_one_edge_on(q, a, dist[a] as int, e);
        assert(q.reachable(b, dist[a] + q.costs[e].0));
    }
    if dist[b] != u64::MAX && dist[b] + q.costs[e].1 <= q.budget {
        lemma_one_edge_on(q, b, dist[b] as int, e);
        assert(q.reachable(a, dist[b] + q.costs[e].1));
    }
    if 0 <= i < q.sources.len() && q.sources[i].0 < q.nodes && q.sources[i].1 <= q.budget {
        let here = Seq::<int>::empty();
        assert(q.leads(i, here, q.sources[i].0 as int, q.sources[i].1 as int));
        assert(q.reachable(q.sources[i].0 as int, q.sources[i].1 as int));
    }
}

/// What can be reached, and one edge more.
proof fn lemma_one_edge_on(q: Quest, n: int, c: int, e: int)
    requires
        q.ok(),
        0 <= e < q.edges.len(),
        q.reachable(n, c),
        n == q.edges[e].a || n == q.edges[e].b,
        c + (if n == q.edges[e].a {
            q.costs[e].0
        } else {
            q.costs[e].1
        }) <= q.budget,
    ensures
        q.reachable(
            if n == q.edges[e].a {
                q.edges[e].b as int
            } else {
                q.edges[e].a as int
            },
            c + if n == q.edges[e].a {
                q.costs[e].0
            } else {
                q.costs[e].1
            },
        ),
{
    let (i, walk) = choose|i: int, walk: Seq<int>| q.leads(i, walk, n, c);
    let on = walk.push(e);
    assert(on.drop_last() =~= walk);
    let far = if n == q.edges[e].a {
        q.edges[e].b as int
    } else {
        q.edges[e].a as int
    };
    let more = c + if n == q.edges[e].a {
        q.costs[e].0
    } else {
        q.costs[e].1
    };
    assert(q.leads(i, on, far, more));
}

/// A node that was reached is a source, at its cost, or came over an edge from a node
/// that was reached before, at what that one cost and the edge in that direction.
pub proof fn law_a_reached_node_came_over_an_edge(
    q: Quest,
    dist: Seq<CostMs>,
    prev: Seq<Option<(u32, u32)>>,
    rank: Seq<nat>,
    n: int,
)
    requires
        q.ok(),
        q.tree(dist, prev, rank),
        0 <= n < q.nodes,
        dist[n] != u64::MAX,
    ensures
        match prev[n] {
            None => q.sources.contains((n as u32, dist[n])),
            Some((p, e)) => {
                &&& p < q.nodes
                &&& e < q.edges.len()
                &&& dist[p as int] <= dist[n]
                &&& (q.edges[e as int].a == p && q.edges[e as int].b == n && dist[n]
                    == dist[p as int] + q.costs[e as int].0) || (q.edges[e as int].b == p
                    && q.edges[e as int].a == n && dist[n] == dist[p as int]
                    + q.costs[e as int].1)
            },
        },
        dist[n] <= q.budget,
{
    if let Some((p, e)) = prev[n] {
        assert(q.edges[e as int].a != q.edges[e as int].b);
    }
}

/// A point on a way none of whose edges has its segment is put on the first of them.
pub proof fn law_a_point_between_edges_lies_on_the_first(
    edges: Seq<Edge>,
    ways: Seq<Way>,
    snap: Snap,
    i: int,
)
    requires
        edges.len() <= u32::MAX,
        shape::located(edges, ways, snap) is Some,
        forall|j: int|
            0 <= j < edges.len() && (#[trigger] edges[j]).way_id == snap.way_id ==> !(edges[j].from
                <= snap.seg < edges[j].to),
        0 <= i < edges.len(),
        edges[i].way_id == snap.way_id,
    ensures
        shape::located(edges, ways, snap)->0 <= i,
{
    let list = shape::edges_of_way(edges, snap.way_id);
    law_edges_are_listed_at_their_way(edges, snap.way_id);
    shape::lemma_edges_of_way(edges, snap.way_id);
    lemma_first_carrying(edges, list, snap.seg as int);
    assert(list.contains(i as u32));
    let at = list.index_of(i as u32);
    if at > 0 {
        assert(list[0] < list[at]);
    }
    if let Some(e) = shape::first_carrying(edges, list, snap.seg as int) {
        let k = list.index_of(e);
        assert(edges[list[k] as int].way_id == snap.way_id);
    }
}

/// Climb and descent grow point by point: a rise from the point before goes on top of
/// the climb so far, anything else on top of the descent so far.
pub proof fn law_climb_and_descent_grow_point_by_point<
    D: Fn(Single, Single) -> Single,
    R: Fn(Single, Single) -> Single,
    F: Fn(Single, Single) -> Single,
>(elevs: Seq<Single>, next: Single, diff: D, rise: R, fall: F, climb: (Single, Single)) -> (r: (
    (Single, Single),
    Single,
))
    requires
        elevs.len() > 0,
        shape::climb_is(elevs.push(next), diff, rise, fall, climb),
    ensures
        shape::climb_is(elevs, diff, rise, fall, r.0),
        call_ensures(diff, (next, elevs.last()), r.1),
        (Single { bits: 0 }).below(r.1) ==> call_ensures(rise, (r.0.0, r.1), climb.0) && climb.1
            == r.0.1,
        !(Single { bits: 0 }).below(r.1) ==> call_ensures(fall, (r.0.1, r.1), climb.1) && climb.0
            == r.0.0,
{
    let all = elevs.push(next);
    let n = elevs.len() as int;
    let (diffs, ups, downs) = choose|diffs: Seq<Single>, ups: Seq<Single>, downs: Seq<Single>|
     #[trigger]
        shape::climb_sums(all, diff, rise, fall, diffs, ups, downs) && climb == (
            ups.last(),
            downs.last(),
        );
    let d = diffs.take(n);
    let u = ups.take(n);
    let w = downs.take(n);
    assert forall|i: int| 1 <= i < elevs.len() implies call_ensures(
        diff,
        (elevs[i], elevs[i - 1]),
        #[trigger] d[i],
    ) && if (Single { bits: 0 }).below(d[i]) {
        call_ensures(rise, (u[i - 1], d[i]), u[i]) && w[i] == w[i - 1]
    } else {
        call_ensures(fall, (w[i - 1], d[i]), w[i]) && u[i] == u[i - 1]
    } by {
        assert(diffs[i] == d[i]);
        assert(all[i] == elevs[i] && all[i - 1] == elevs[i - 1]);
    }
    assert(shape::climb_sums(elevs, diff, rise, fall, d, u, w));
    let before = (u.last(), w.last());
    assert(shape::climb_is(elevs, diff, rise, fall, before));
    assert(call_ensures(diff, (all[n], all[n - 1]), diffs[n]));
    (before, diffs[n])
}

} // verus!
