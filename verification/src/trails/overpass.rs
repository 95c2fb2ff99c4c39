//! Asking Overpass for the ways of a zone, and reading its answers.
use vstd::prelude::*;

use super::way;
use super::way::{Way, WayKind};
use crate::geo;
use crate::geo::{Bounds, LatLon};
use crate::json;
use crate::json::{
    json_get, json_text, json_whole, list_field, number_field, parse_json, text_field, Json,
};
use crate::text::same_text;

verus! {

/// What a way stands for.
#[verifier::ext_equal]
pub struct WayModel {
    pub id: i64,
    pub kind: WayKind,
    pub name: Option<Seq<char>>,
    pub nodes: Seq<i64>,
    pub points: Seq<LatLon>,
    pub sac_scale: Option<Seq<char>>,
    pub bounds: Bounds,
}

/// What a way stands for.
pub open spec fn model(w: Way) -> WayModel {
    WayModel {
        id: w.id,
        kind: w.kind,
        name: way::text_of(w.name),
        nodes: w.nodes@,
        points: w.points@,
        sac_scale: way::text_of(w.sac_scale),
        bounds: w.bounds,
    }
}

/// What some ways stand for.
pub open spec fn models(ways: Seq<Way>) -> Seq<WayModel> {
    Seq::new(ways.len(), |i: int| model(ways[i]))
}

/// A point, where both coordinates are given.
pub open spec fn point_of(p: Json) -> Option<LatLon> {
    match (p.number_field("lat"@), p.number_field("lon"@)) {
        (Some(lat), Some(lon)) => Some(LatLon { lat, lon }),
        _ => None,
    }
}

/// The points among some items.
pub open spec fn points_of(list: Seq<Json>) -> Seq<LatLon>
    decreases list.len(),
{
    if list.len() == 0 {
        seq![]
    } else {
        let rest = points_of(list.drop_last());
        match point_of(list.last()) {
            Some(p) => rest.push(p),
            None => rest,
        }
    }
}

/// The integers among some items.
pub open spec fn wholes_of(list: Seq<Json>) -> Seq<i64>
    decreases list.len(),
{
    if list.len() == 0 {
        seq![]
    } else {
        let rest = wholes_of(list.drop_last());
        match list.last().whole() {
            Some(n) => rest.push(n),
            None => rest,
        }
    }
}

/// A tag of an element.
pub open spec fn tag_of(el: Json, key: Seq<char>) -> Option<Seq<char>> {
    match el.field("tags"@) {
        Some(tags) => tags.text_field(key),
        None => None,
    }
}

/// The way that an element is, if it is one with an id and at least two points.
pub open spec fn way_of(el: Json) -> Option<WayModel> {
    let id = match el.field("id"@) {
        Some(v) => v.whole(),
        None => None,
    };
    match (el.text_field("type"@), id, el.list_field("geometry"@)) {
        (Some(kind), Some(id), Some(geometry)) => {
            let points = points_of(geometry);
            if kind != "way"@ || points.len() < 2 {
                None
            } else {
                Some(
                    WayModel {
                        id,
                        kind: way::kind_of_tag(
                            match tag_of(el, "highway"@) {
                                Some(t) => t,
                                None => seq![],
                            },
                        ),
                        name: tag_of(el, "name"@),
                        nodes: match el.list_field("nodes"@) {
                            Some(list) => wholes_of(list),
                            None => seq![],
                        },
                        points,
                        sac_scale: tag_of(el, "sac_scale"@),
                        bounds: geo::bounds_of(points),
                    },
                )
            }
        },
        _ => None,
    }
}

/// The ways among some elements.
pub open spec fn ways_of(list: Seq<Json>) -> Seq<WayModel>
    decreases list.len(),
{
    if list.len() == 0 {
        seq![]
    } else {
        let rest = ways_of(list.drop_last());
        match way_of(list.last()) {
            Some(w) => rest.push(w),
            None => rest,
        }
    }
}

/// What an answer holds, read as JSON or not.
pub open spec fn answer_of(root: Result<Json, Seq<char>>) -> Result<Seq<WayModel>, Seq<char>> {
    match root {
        Ok(v) => match v.list_field("elements"@) {
            Some(list) => Ok(ways_of(list)),
            None => Err("no `elements` field"@),
        },
        Err(e) => Err("Overpass JSON: "@ + e),
    }
}

/// An answer by what it stands for.
pub open spec fn answer_view(r: Result<Vec<Way>, String>) -> Result<Seq<WayModel>, Seq<char>> {
    match r {
        Ok(ways) => Ok(models(ways@)),
        Err(e) => Err(e@),
    }
}

fn read_points(list: &Vec<serde_json::Value>) -> (v: Vec<LatLon>)
    ensures
        v@ == points_of(json::trees(list@)),
{
    let ghost all = json::trees(list@);
    let mut out: Vec<LatLon> = Vec::new();
    let mut i: usize = 0;
    while i < list.len()
        invariant
            all == json::trees(list@),
            i <= list@.len(),
            out@ == points_of(all.take(i as int)),
        decreases list@.len() - i,
    {
        assert(all.take(i + 1).drop_last() =~= all.take(i as int));
        assert(all.take(i + 1).last() == json::tree(list@[i as int]));
        let p = &list[i];
        match number_field(p, "lat") {
            Some(lat) => match number_field(p, "lon") {
                Some(lon) => {
                    out.push(LatLon { lat, lon });
                },
                None => {},
            },
            None => {},
        }
        i = i + 1;
    }
    assert(all.take(i as int) =~= all);
    out
}

fn read_wholes(list: &Vec<serde_json::Value>) -> (v: Vec<i64>)
    ensures
        v@ == wholes_of(json::trees(list@)),
{
    let ghost all = json::trees(list@);
    let mut out: Vec<i64> = Vec::new();
    let mut i: usize = 0;
    while i < list.len()
        invariant
            all == json::trees(list@),
            i <= list@.len(),
            out@ == wholes_of(all.take(i as int)),
        decreases list@.len() - i,
    {
        assert(all.take(i + 1).drop_last() =~= all.take(i as int));
        assert(all.take(i + 1).last() == json::tree(list@[i as int]));
        match json_whole(&list[i]) {
            Some(n) => {
                out.push(n);
            },
            None => {},
        }
        i = i + 1;
    }
    assert(all.take(i as int) =~= all);
    out
}

fn read_tag(el: &serde_json::Value, key: &str) -> (r: Option<String>)
    ensures
        match r {
            Some(s) => tag_of(json::tree(*el), key@) == Some(s@),
            None => tag_of(json::tree(*el), key@) is None,
        },
{
    match json_get(el, "tags") {
        Some(tags) => text_field(tags, key),
        None => None,
    }
}

/// Reads one element.
fn read_way(el: &serde_json::Value) -> (r: Option<Way>)
    ensures
        match r {
            Some(w) => way_of(json::tree(*el)) == Some(model(w)),
            None => way_of(json::tree(*el)) is None,
        },
{
    let is_way: bool = match json_get(el, "type") {
        Some(v) => match json_text(v) {
            Some(s) => same_text(s, "way"),
            None => false,
        },
        None => false,
    };
    if !is_way {
        return None;
    }
    let id: i64 = match json_get(el, "id") {
        Some(v) => match json_whole(v) {
            Some(n) => n,
            None => {
                return None;
            },
        },
        None => {
            return None;
        },
    };
    let geometry = match list_field(el, "geometry") {
        Some(list) => list,
        None => {
            return None;
        },
    };
    let points = read_points(geometry);
    if points.len() < 2 {
        return None;
    }
    let nodes: Vec<i64> = match list_field(el, "nodes") {
        Some(list) => read_wholes(list),
        None => Vec::new(),
    };
    let bounds = Bounds::around(&points);
    let kind = match read_tag(el, "highway") {
        Some(t) => WayKind::from_tag(t.as_str()),
        None => {
            proof {
                reveal_strlit("");
                assert(""@ =~= seq![]);
            }
            WayKind::from_tag("")
        },
    };
    let name = read_tag(el, "name");
    let sac_scale = read_tag(el, "sac_scale");
    Some(Way { id, kind, name, nodes, points, sac_scale, bounds })
}

/// Reads an answer that was parsed as JSON, or tells why there is none. Elements
/// that are no ways, have no id or fewer than two points are left out.
pub fn read_overpass(root: Result<serde_json::Value, String>) -> (r: Result<Vec<Way>, String>)
    ensures
        answer_view(r) == answer_of(
            match root {
                Ok(v) => Ok(json::tree(v)),
                Err(e) => Err(e@),
            },
        ),
{
    let root = match root {
        Ok(v) => v,
        Err(e) => {
            let mut s = "Overpass JSON: ".to_owned();
            s.append(e.as_str());
            return Err(s);
        },
    };
    let elements = match list_field(&root, "elements") {
        Some(list) => list,
        None => {
            return Err("no `elements` field".to_owned());
        },
    };
    let ghost all = json::trees(elements@);
    let mut ways: Vec<Way> = Vec::new();
    let mut i: usize = 0;
    assert(models(ways@) =~= ways_of(all.take(0)));
    while i < elements.len()
        invariant
            all == json::trees(elements@),
            i <= elements@.len(),
            models(ways@) == ways_of(all.take(i as int)),
        decreases elements@.len() - i,
    {
        assert(all.take(i + 1).drop_last() =~= all.take(i as int));
        assert(all.take(i + 1).last() == json::tree(elements@[i as int]));
        let ghost had = ways@;
        match read_way(&elements[i]) {
            Some(w) => {
                ways.push(w);
                assert(models(ways@) =~= models(had).push(model(w)));
            },
            None => {},
        }
        i = i + 1;
    }
    assert(all.take(i as int) =~= all);
    Ok(ways)
}

/// Reads the body of an answer. The service reports some errors as text with a
/// status of success: those come out as an error here, not as silence.
pub fn parse_overpass(body: &str) -> (r: Result<Vec<Way>, String>)
    ensures
        answer_view(r) == answer_of(json::parsed(body@)),
{
    read_overpass(parse_json(body))
}

/// Every way that is read has at least two points, and its window is theirs.
pub proof fn law_read_ways_have_a_length(list: Seq<Json>)
    ensures
        forall|i: int|
            0 <= i < ways_of(list).len() ==> (#[trigger] ways_of(list)[i]).points.len() >= 2
                && ways_of(list)[i].bounds == geo::bounds_of(ways_of(list)[i].points),
        ways_of(list).len() <= list.len(),
    decreases list.len(),
{
    if list.len() > 0 {
        law_read_ways_have_a_length(list.drop_last());
        let rest = ways_of(list.drop_last());
        let all = ways_of(list);
        assert forall|i: int| 0 <= i < all.len() implies (#[trigger] all[i]).points.len() >= 2
            && all[i].bounds == geo::bounds_of(all[i].points) by {
            if i < rest.len() {
                assert(all[i] == rest[i]);
            }
        }
    }
}

/// Points are read in their order, the latitude from `lat` and the longitude from
/// `lon`; one without both is left out.
pub proof fn law_points_are_read_in_order(list: Seq<Json>, item: Json)
    ensures
        item.number_field("lat"@) is Some && item.number_field("lon"@) is Some ==> points_of(
            list.push(item),
        ) == points_of(list).push(
            LatLon {
                lat: item.number_field("lat"@)->0,
                lon: item.number_field("lon"@)->0,
            },
        ),
        item.number_field("lat"@) is None || item.number_field("lon"@) is None ==> points_of(
            list.push(item),
        ) == points_of(list),
{
    assert(list.push(item).drop_last() =~= list);
}

/// Node ids are read in their order.
pub proof fn law_nodes_are_read_in_order(list: Seq<Json>, item: Json)
    ensures
        wholes_of(list.push(item)) == match item.whole() {
            Some(n) => wholes_of(list).push(n),
            None => wholes_of(list),
        },
{
    assert(list.push(item).drop_last() =~= list);
}

/// Ways are read in their order, and what is no way does not stop those behind it.
pub proof fn law_ways_are_read_in_order(list: Seq<Json>, more: Seq<Json>)
    ensures
        ways_of(list + more) == ways_of(list) + ways_of(more),
    decreases more.len(),
{
    let all = list + more;
    if more.len() == 0 {
        assert(all =~= list);
        assert(ways_of(list) + ways_of(more) =~= ways_of(list));
    } else {
        assert(all.drop_last() =~= list + more.drop_last());
        law_ways_are_read_in_order(list, more.drop_last());
        assert(ways_of(all) =~= ways_of(list) + ways_of(more));
    }
}

/// An element is a way where its type says so, it has an id and at least two
/// points; and each part of the way comes from the member of its name.
pub proof fn law_a_way_is_read_from_its_members(el: Json)
    ensures
        way_of(el) is Some <==> el.text_field("type"@) == Some("way"@) && (el.field("id"@) matches
            Some(id) && id.whole() is Some) && (el.list_field("geometry"@) matches Some(list)
            && points_of(list).len() >= 2),
        way_of(el) matches Some(w) ==> {
            &&& el.field("id"@)->0.whole() == Some(w.id)
            &&& w.points == points_of(el.list_field("geometry"@)->0)
            &&& w.bounds == geo::bounds_of(w.points)
            &&& el.list_field("nodes"@) matches Some(list) ==> w.nodes == wholes_of(list)
            &&& el.list_field("nodes"@) is None ==> w.nodes.len() == 0
            &&& el.field("tags"@) matches Some(tags) ==> {
                &&& w.name == tags.text_field("name"@)
                &&& w.sac_scale == tags.text_field("sac_scale"@)
                &&& tags.text_field("highway"@) matches Some(t) ==> w.kind == way::kind_of_tag(t)
            }
            &&& el.field("tags"@) is None ==> w.name is None && w.sac_scale is None
        },
{
}

/// An answer holds the ways among its elements; without elements, or where it is no
/// JSON, it is an error that says so.
pub proof fn law_an_answer_holds_its_elements(v: Json, why: Seq<char>)
    ensures
        v.list_field("elements"@) matches Some(list) ==> answer_of(Ok(v)) == Ok::<_, Seq<char>>(
            ways_of(list),
        ),
        v.list_field("elements"@) is None ==> answer_of(Ok(v)) == Err::<Seq<WayModel>, _>(
            "no `elements` field"@,
        ),
        answer_of(Err(why)) == Err::<Seq<WayModel>, _>("Overpass JSON: "@ + why),
{
}

} // verus!
