//! The manifest: which regions there are, and where their tiles lie.
use vstd::prelude::*;

use crate::geo::LatLon;
use crate::json;
use crate::json::{list_field, number_field, parse_json, text_field, Json};
use crate::number::Real;

verus! {

/// One region of the world, with its own directory of tiles.
#[derive(Clone, Debug)]
pub struct Region {
    pub name: String,
    pub dir: String,
    pub south: Real,
    pub west: Real,
    pub north: Real,
    pub east: Real,
}

/// What a region stands for.
#[verifier::ext_equal]
pub struct RegionView {
    pub name: Seq<char>,
    pub dir: Seq<char>,
    pub south: Real,
    pub west: Real,
    pub north: Real,
    pub east: Real,
}

impl RegionView {
    /// A position lies in the region, borders included.
    pub open spec fn holds(self, ll: LatLon) -> bool {
        &&& self.south.at_most(ll.lat)
        &&& ll.lat.at_most(self.north)
        &&& self.west.at_most(ll.lon)
        &&& ll.lon.at_most(self.east)
    }
}

impl View for Region {
    type V = RegionView;

    open spec fn view(&self) -> RegionView {
        RegionView {
            name: self.name@,
            dir: self.dir@,
            south: self.south,
            west: self.west,
            north: self.north,
            east: self.east,
        }
    }
}

impl Region {
    /// Whether a position lies in the region, borders included.
    pub fn contains(&self, ll: LatLon) -> (b: bool)
        ensures
            b == self@.holds(ll),
    {
        self.south.le(ll.lat) && ll.lat.le(self.north) && self.west.le(ll.lon) && ll.lon.le(
            self.east,
        )
    }
}

/// The regions at hand.
#[derive(Clone, Debug)]
pub struct Manifest {
    pub regions: Vec<Region>,
}

/// What some regions stand for.
pub open spec fn region_views(regions: Seq<Region>) -> Seq<RegionView> {
    Seq::new(regions.len(), |i: int| regions[i]@)
}

/// The place of the first region that holds a position.
pub open spec fn region_at(regions: Seq<RegionView>, ll: LatLon) -> Option<int>
    decreases regions.len(),
{
    if regions.len() == 0 {
        None
    } else if regions[0].holds(ll) {
        Some(0)
    } else {
        match region_at(regions.skip(1), ll) {
            Some(i) => Some(i + 1),
            None => None,
        }
    }
}

impl View for Manifest {
    type V = Seq<RegionView>;

    open spec fn view(&self) -> Seq<RegionView> {
        region_views(self.regions@)
    }
}

impl Default for Manifest {
    fn default() -> (m: Self)
        ensures
            m@ == Seq::<RegionView>::empty(),
    {
        let m = Manifest { regions: Vec::new() };
        assert(m@ =~= Seq::<RegionView>::empty());
        m
    }
}

impl Manifest {
    /// The first region that holds a position.
    pub fn region_for(&self, ll: LatLon) -> (r: Option<&Region>)
        ensures
            match r {
                Some(region) => {
                    &&& region_at(self@, ll) matches Some(i)
                    &&& 0 <= i < self@.len()
                    &&& region@ == self@[i]
                },
                None => region_at(self@, ll) is None,
            },
    {
        let mut i: usize = 0;
        let ghost all = self@;
        assert(all.skip(0) =~= all);
        while i < self.regions.len()
            invariant
                all == self@,
                i <= self.regions@.len(),
                match region_at(all.skip(i as int), ll) {
                    Some(k) => region_at(all, ll) == Some(k + i),
                    None => region_at(all, ll) is None,
                },
            decreases self.regions@.len() - i,
        {
            assert(all.skip(i as int)[0] == self.regions@[i as int]@);
            assert(all.skip(i as int).skip(1) =~= all.skip(i + 1));
            if self.regions[i].contains(ll) {
                return Some(&self.regions[i]);
            }
            i = i + 1;
        }
        None
    }
}

/// The region that an entry of the manifest is, or what is said of it.
pub open spec fn region_of(r: Json) -> Result<RegionView, Seq<char>> {
    match (r.text_field("name"@), r.text_field("dir"@)) {
        (Some(name), Some(dir)) => match (
            r.number_field("south"@),
            r.number_field("west"@),
            r.number_field("north"@),
            r.number_field("east"@),
        ) {
            (Some(south), Some(west), Some(north), Some(east)) => if north.at_most(south)
                || east.at_most(west) {
                Err("region `"@ + name + "` has an inside-out bbox"@)
            } else {
                Ok(RegionView { name, dir, south, west, north, east })
            },
            _ => Err("region `"@ + name + "` is missing part of its bbox"@),
        },
        _ => Err("a region is missing `name` or `dir`"@),
    }
}

/// The regions that the first `n` entries are, or what is said of the first one
/// that is none.
pub open spec fn regions_of(list: Seq<Json>, n: nat) -> Result<Seq<RegionView>, Seq<char>>
    decreases n,
{
    if n == 0 {
        Ok(seq![])
    } else {
        match regions_of(list, (n - 1) as nat) {
            Ok(rest) => match region_of(list[n - 1]) {
                Ok(r) => Ok(rest.push(r)),
                Err(e) => Err(e),
            },
            Err(e) => Err(e),
        }
    }
}

/// What a manifest holds, read as JSON or not.
pub open spec fn manifest_of(root: Result<Json, Seq<char>>) -> Result<Seq<RegionView>, Seq<char>> {
    match root {
        Ok(v) => match v.list_field("regions"@) {
            Some(list) => match regions_of(list, list.len()) {
                Ok(regions) => if regions.len() == 0 {
                    Err("manifest lists no region"@)
                } else {
                    Ok(regions)
                },
                Err(e) => Err(e),
            },
            None => Err("manifest has no `regions` array"@),
        },
        Err(e) => Err("manifest JSON: "@ + e),
    }
}

/// A manifest by what it stands for.
pub open spec fn manifest_view(r: Result<Manifest, String>) -> Result<Seq<RegionView>, Seq<char>> {
    match r {
        Ok(m) => Ok(m@),
        Err(e) => Err(e@),
    }
}

/// Reads one entry.
fn read_region(r: &serde_json::Value) -> (res: Result<Region, String>)
    ensures
        match res {
            Ok(region) => region_of(json::tree(*r)) == Ok::<RegionView, Seq<char>>(region@),
            Err(e) => region_of(json::tree(*r)) == Err::<RegionView, Seq<char>>(e@),
        },
{
    let (name, dir) = match (text_field(r, "name"), text_field(r, "dir")) {
        (Some(name), Some(dir)) => (name, dir),
        _ => {
            return Err("a region is missing `name` or `dir`".to_owned());
        },
    };
    let (south, west, north, east) = match (
        number_field(r, "south"),
        number_field(r, "west"),
        number_field(r, "north"),
        number_field(r, "east"),
    ) {
        (Some(south), Some(west), Some(north), Some(east)) => (south, west, north, east),
        _ => {
            let mut s = "region `".to_owned();
            s.append(name.as_str());
            s.append("` is missing part of its bbox");
            return Err(s);
        },
    };
    if north.le(south) || east.le(west) {
        let mut s = "region `".to_owned();
        s.append(name.as_str());
        s.append("` has an inside-out bbox");
        return Err(s);
    }
    Ok(Region { name, dir, south, west, north, east })
}

/// Reads entries up to the first one that is no region.
fn read_regions(list: &Vec<serde_json::Value>) -> (res: Result<Vec<Region>, String>)
    ensures
        match res {
            Ok(v) => regions_of(json::trees(list@), list@.len()) == Ok::<
                Seq<RegionView>,
                Seq<char>,
            >(region_views(v@)),
            Err(e) => regions_of(json::trees(list@), list@.len()) == Err::<
                Seq<RegionView>,
                Seq<char>,
            >(e@),
        },
{
    let ghost all = json::trees(list@);
    let mut regions: Vec<Region> = Vec::new();
    let mut i: usize = 0;
    assert(region_views(regions@) =~= seq![]);
    while i < list.len()
        invariant
            all == json::trees(list@),
            i <= list@.len(),
            regions_of(all, i as nat) == Ok::<Seq<RegionView>, Seq<char>>(region_views(regions@)),
        decreases list@.len() - i,
    {
        let ghost had = regions@;
        match read_region(&list[i]) {
            Ok(r) => {
                regions.push(r);
                assert(region_views(regions@) =~= region_views(had).push(r@));
            },
            Err(e) => {
                proof {
                    lemma_first_error(all, (i + 1) as nat, all.len());
                }
                return Err(e);
            },
        }
        i = i + 1;
    }
    Ok(regions)
}

/// Reads a manifest that was parsed as JSON, or tells why there is none.
pub fn read_manifest(root: Result<serde_json::Value, String>) -> (r: Result<Manifest, String>)
    ensures
        manifest_view(r) == manifest_of(
            match root {
                Ok(v) => Ok(json::tree(v)),
                Err(e) => Err(e@),
            },
        ),
{
    let root = match root {
        Ok(v) => v,
        Err(e) => {
            let mut s = "manifest JSON: ".to_owned();
            s.append(e.as_str());
            return Err(s);
        },
    };
    let list = match list_field(&root, "regions") {
        Some(list) => list,
        None => {
            return Err("manifest has no `regions` array".to_owned());
        },
    };
    let regions = match read_regions(list) {
        Ok(v) => v,
        Err(e) => {
            return Err(e);
        },
    };
    if regions.len() == 0 {
        return Err("manifest lists no region".to_owned());
    }
    Ok(Manifest { regions })
}

/// Reads the text of a manifest.
pub fn parse_manifest(body: &str) -> (r: Result<Manifest, String>)
    ensures
        manifest_view(r) == manifest_of(json::parsed(body@)),
{
    read_manifest(parse_json(body))
}

/// A manifest that is accepted lists at least one region, and none that is
/// inside out.
pub proof fn law_accepted_manifests_are_sound(root: Result<Json, Seq<char>>)
    ensures
        manifest_of(root) matches Ok(regions) ==> regions.len() > 0 && forall|i: int|
            0 <= i < regions.len() ==> !(#[trigger] regions[i]).north.at_most(regions[i].south)
                && !regions[i].east.at_most(regions[i].west),
{
    if let Ok(v) = root {
        if let Some(list) = v.list_field("regions"@) {
            lemma_regions_sound(list, list.len());
        }
    }
}

/// The region found for a position holds it, and none before it does.
pub proof fn law_region_at(regions: Seq<RegionView>, ll: LatLon)
    ensures
        match region_at(regions, ll) {
            Some(i) => 0 <= i < regions.len() && regions[i].holds(ll) && forall|j: int|
                0 <= j < i ==> !(#[trigger] regions[j]).holds(ll),
            None => forall|j: int| 0 <= j < regions.len() ==> !(#[trigger] regions[j]).holds(ll),
        },
    decreases regions.len(),
{
    if regions.len() > 0 {
        let rest = regions.skip(1);
        law_region_at(rest, ll);
        assert forall|j: int| 0 < j < regions.len() implies #[trigger] regions[j] == rest[j - 1] by {}
    }
}

proof fn lemma_first_error(list: Seq<Json>, n: nat, m: nat)
    requires
        n <= m,
        regions_of(list, n) is Err,
    ensures
        regions_of(list, m) == regions_of(list, n),
    decreases m,
{
    if n < m {
        lemma_first_error(list, n, (m - 1) as nat);
    }
}

proof fn lemma_regions_sound(list: Seq<Json>, n: nat)
    ensures
        regions_of(list, n) matches Ok(regions) ==> forall|i: int|
            0 <= i < regions.len() ==> !(#[trigger] regions[i]).north.at_most(regions[i].south)
                && !regions[i].east.at_most(regions[i].west),
    decreases n,
{
    if n > 0 {
        lemma_regions_sound(list, (n - 1) as nat);
    }
}

/// A region is read from the members of its names, and from nothing else: it is
/// one where it has them all and its borders are not the wrong way round.
pub proof fn law_a_region_is_read_from_its_members(r: Json)
    ensures
        region_of(r) matches Ok(v) ==> {
            &&& r.text_field("name"@) == Some(v.name)
            &&& r.text_field("dir"@) == Some(v.dir)
            &&& r.number_field("south"@) == Some(v.south)
            &&& r.number_field("west"@) == Some(v.west)
            &&& r.number_field("north"@) == Some(v.north)
            &&& r.number_field("east"@) == Some(v.east)
        },
        region_of(r) is Ok <==> r.text_field("name"@) is Some && r.text_field("dir"@) is Some && (
        r.number_field("south"@) matches Some(south) && r.number_field("north"@) matches Some(north)
            && !north.at_most(south)) && (r.number_field("west"@) matches Some(west)
            && r.number_field("east"@) matches Some(east) && !east.at_most(west)),
{
}

/// The regions of a manifest are its entries, one each and in their order; where an
/// entry is none, there is no manifest.
pub proof fn law_regions_are_read_in_order(list: Seq<Json>, i: int)
    requires
        0 <= i < list.len(),
    ensures
        regions_of(list, list.len()) matches Ok(regions) ==> regions.len() == list.len()
            && region_of(list[i]) == Ok::<RegionView, Seq<char>>(regions[i]),
        region_of(list[i]) is Err ==> regions_of(list, list.len()) is Err,
{
    lemma_regions_in_order(list, list.len(), i);
}

proof fn lemma_regions_in_order(list: Seq<Json>, n: nat, i: int)
    requires
        0 <= i < n,
    ensures
        regions_of(list, n) matches Ok(regions) ==> regions.len() == n && region_of(list[i]) == Ok::<
            RegionView,
            Seq<char>,
        >(regions[i]),
    decreases n,
{
    if i < n - 1 {
        lemma_regions_in_order(list, (n - 1) as nat, i);
    } else if n > 1 {
        lemma_regions_in_order(list, (n - 1) as nat, 0);
    }
}

/// A region holds a position that lies neither south, nor north, nor west, nor
/// east of it.
pub proof fn law_a_region_holds_what_lies_between(r: RegionView, ll: LatLon)
    requires
        !r.south.nan(),
        !r.west.nan(),
        !r.north.nan(),
        !r.east.nan(),
        !ll.lat.nan(),
        !ll.lon.nan(),
    ensures
        r.holds(ll) <==> !(ll.lat.below(r.south) || r.north.below(ll.lat) || ll.lon.below(r.west)
            || r.east.below(ll.lon)),
{
}

/// A manifest is one where it is JSON, lists its regions, lists some, and each of them
/// is a region.
pub proof fn law_what_is_a_manifest(v: Json, why: Seq<char>)
    ensures
        manifest_of(Err(why)) == Err::<Seq<RegionView>, _>("manifest JSON: "@ + why),
        manifest_of(Ok(v)) is Ok <==> (v.list_field("regions"@) matches Some(list) && list.len() > 0
            && forall|i: int| 0 <= i < list.len() ==> region_of(#[trigger] list[i]) is Ok),
        v.list_field("regions"@) is None ==> manifest_of(Ok(v)) == Err::<Seq<RegionView>, _>(
            "manifest has no `regions` array"@,
        ),
        v.list_field("regions"@) matches Some(list) ==> (manifest_of(Ok(v)) matches Ok(regions)
            ==> regions.len() == list.len()),
{
    if let Some(list) = v.list_field("regions"@) {
        if forall|i: int| 0 <= i < list.len() ==> region_of(#[trigger] list[i]) is Ok {
            lemma_all_regions(list, list.len());
        } else {
            let i = choose|i: int| 0 <= i < list.len() && !(region_of(#[trigger] list[i]) is Ok);
            law_regions_are_read_in_order(list, i);
        }
        if list.len() > 0 {
            law_regions_are_read_in_order(list, 0);
        }
    }
}

proof fn lemma_all_regions(list: Seq<Json>, n: nat)
    requires
        n <= list.len(),
        forall|i: int| 0 <= i < list.len() ==> region_of(#[trigger] list[i]) is Ok,
    ensures
        regions_of(list, n) matches Ok(regions) && regions.len() == n,
    decreases n,
{
    if n > 0 {
        lemma_all_regions(list, (n - 1) as nat);
        assert(region_of(list[n - 1]) is Ok);
    }
}

} // verus!
