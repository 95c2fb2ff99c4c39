//! The trails of static tiles: what is asked for, what has arrived, and what it
//! adds to the network.
use std::collections::HashSet;
use vstd::prelude::*;

use super::manifest;
use super::manifest::{parse_manifest, Manifest, RegionView};
use crate::geo;
use crate::geo::LatLon;
use crate::json;
use crate::text;
use crate::text::{put_decimal, same_text};
use crate::trailfmt::index;
use crate::trailfmt::index::{read_index, tile_path, Index, TileId, TILE_ZOOM};
use crate::trailfmt::tile;
use crate::trailfmt::tile::{decode_tile, ArchiveWay, WayView};
use crate::trailfmt::tile_laws;
use crate::trailfmt::vocabulary;
use crate::trailfmt::INDEX_FILE;
use crate::trails::network;
use crate::trails::network::{Cell, NetView, TrailNetwork};
use crate::trails::way;
use crate::trails::way::Way;

verus! {

broadcast use vstd::std_specs::hash::group_hash_axioms;

/// The name of the manifest file.
pub const MANIFEST_FILE: &'static str = "regions.json";

/// How far a file is.
#[derive(Clone, Copy, Debug, PartialEq, Eq, Structural)]
pub enum Fetch {
    Idle,
    InFlight,
    Done,
    Failed,
}

/// Every tile of an area is done with, in the directory of the region that holds its
/// centre.
pub open spec fn area_done(s: ArchiveState, center: LatLon, nw: TileId, se: TileId) -> bool {
    match manifest::region_at(s.regions, center) {
        Some(i) => {
            let d = dir_at(s.dirs, s.regions[i].dir);
            &&& d.state == Fetch::Done
            &&& forall|k: int|
                0 <= k < covering(nw, se).len() ==> d.settled.contains(
                    code_of(#[trigger] covering(nw, se)[k]),
                )
        },
        None => false,
    }
}

/// What has arrived.
#[derive(Debug)]
pub enum Message {
    Manifest(Result<String, String>),
    Index(String, Result<Vec<u8>, String>),
    Tile(String, TileId, Result<Vec<u8>, String>),
}

/// What is to be fetched, and from where.
#[derive(Clone, Debug)]
pub enum Request {
    Manifest(String),
    Index(String, String),
    Tile(String, TileId, String),
}

/// What is said of a file that the server refused.
pub open spec fn refusal(status: u16) -> Seq<char> {
    "HTTP "@ + text::decimal(status as nat)
}

fn refused(status: u16) -> (s: String)
    ensures
        s@ == refusal(status),
{
    let mut s = "HTTP ".to_owned();
    put_decimal(&mut s, status as u64);
    s
}

/// What a reply with a file is worth: its bytes, unless the server refused.
pub fn file_reply(ok: bool, status: u16, bytes: Vec<u8>) -> (r: Result<Vec<u8>, String>)
    ensures
        match r {
            Ok(b) => ok && b == bytes,
            Err(e) => !ok && e@ == refusal(status),
        },
{
    if ok {
        Ok(bytes)
    } else {
        Err(refused(status))
    }
}

/// What a reply with a manifest is worth: its text, unless the server refused or
/// there is none.
pub fn manifest_reply(ok: bool, status: u16, body: Option<String>) -> (r: Result<String, String>)
    ensures
        match r {
            Ok(s) => ok && body == Some(s),
            Err(e) => if !ok {
                e@ == refusal(status)
            } else {
                body is None && e@ == "non-textual manifest"@
            },
        },
{
    if !ok {
        return Err(refused(status));
    }
    match body {
        Some(s) => Ok(s),
        None => Err("non-textual manifest".to_owned()),
    }
}

/// A tile as one number.
pub open spec fn code_of(t: TileId) -> u64 {
    (t.x * 0x1_0000_0000 + t.y) as u64
}

fn tile_code(t: TileId) -> (c: u64)
    ensures
        c == code_of(t),
{
    t.x as u64 * 0x1_0000_0000 + t.y as u64
}

// ---------------------------------------------------------------------------
// The tiles of an area
// ---------------------------------------------------------------------------

/// The tiles of a column from row `y` on.
pub open spec fn column(x: int, y: int, n: nat) -> Seq<TileId>
    decreases n,
{
    if n == 0 {
        seq![]
    } else {
        column(x, y, (n - 1) as nat).push(TileId { x: x as u32, y: (y + n - 1) as u32 })
    }
}

/// The tiles of the columns from `x` on.
pub open spec fn columns(x: int, y: int, m: nat, n: nat) -> Seq<TileId>
    decreases m,
{
    if m == 0 {
        seq![]
    } else {
        columns(x, y, (m - 1) as nat, n) + column(x + m - 1, y, n)
    }
}

/// How many numbers there are from one to another, at least one.
pub open spec fn span(from: u32, to: u32) -> nat {
    if to > from {
        (to - from + 1) as nat
    } else {
        1
    }
}

/// The tiles between two corners, column by column. Rows count southward.
pub open spec fn covering(nw: TileId, se: TileId) -> Seq<TileId> {
    columns(nw.x as int, nw.y as int, span(nw.x, se.x), span(nw.y, se.y))
}

/// The tiles between the north-west and the south-east corner of an area.
pub fn tiles_covering(nw: TileId, se: TileId) -> (v: Vec<TileId>)
    ensures
        v@ == covering(nw, se),
{
    let wide: u64 = if se.x > nw.x {
        (se.x - nw.x) as u64 + 1
    } else {
        1
    };
    let high: u64 = if se.y > nw.y {
        (se.y - nw.y) as u64 + 1
    } else {
        1
    };
    let mut out: Vec<TileId> = Vec::new();
    let mut i: u64 = 0;
    while i < wide
        invariant
            wide == span(nw.x, se.x),
            high == span(nw.y, se.y),
            i <= wide,
            out@ == columns(nw.x as int, nw.y as int, i as nat, high as nat),
        decreases wide - i,
    {
        let ghost held = out@;
        let x: u32 = (nw.x as u64 + i) as u32;
        let mut j: u64 = 0;
        assert(out@ =~= held + column(nw.x + i, nw.y as int, 0));
        while j < high
            invariant
                wide == span(nw.x, se.x),
                high == span(nw.y, se.y),
                i < wide,
                j <= high,
                x == nw.x + i,
                out@ == held + column(nw.x + i, nw.y as int, j as nat),
            decreases high - j,
        {
            let y: u32 = (nw.y as u64 + j) as u32;
            out.push(TileId { x, y });
            assert(out@ =~= held + column(nw.x + i, nw.y as int, (j + 1) as nat));
            j = j + 1;
        }
        i = i + 1;
    }
    out
}

/// A tile is among those of an area just when it lies between the corners.
pub proof fn law_covering(nw: TileId, se: TileId, t: TileId)
    ensures
        covering(nw, se).contains(t) <==> nw.x <= t.x < nw.x + span(nw.x, se.x) && nw.y <= t.y
            < nw.y + span(nw.y, se.y),
{
    lemma_columns(nw.x as int, nw.y as int, span(nw.x, se.x), span(nw.y, se.y), t);
}

proof fn lemma_column(x: int, y: int, n: nat, t: TileId)
    requires
        0 <= x <= u32::MAX,
        0 <= y,
        y + n <= u32::MAX + 1,
    ensures
        column(x, y, n).contains(t) <==> t.x == x && y <= t.y < y + n,
    decreases n,
{
    if n > 0 {
        let less = column(x, y, (n - 1) as nat);
        let last = TileId { x: x as u32, y: (y + n - 1) as u32 };
        lemma_column(x, y, (n - 1) as nat, t);
        lemma_push_contains(less, last, t);
    }
}

proof fn lemma_columns(x: int, y: int, m: nat, n: nat, t: TileId)
    requires
        0 <= x,
        x + m <= u32::MAX + 1,
        0 <= y,
        y + n <= u32::MAX + 1,
    ensures
        columns(x, y, m, n).contains(t) <==> x <= t.x < x + m && y <= t.y < y + n,
    decreases m,
{
    if m > 0 {
        lemma_columns(x, y, (m - 1) as nat, n, t);
        lemma_column(x + m - 1, y, n, t);
        let a = columns(x, y, (m - 1) as nat, n);
        let b = column(x + m - 1, y, n);
        assert((a + b).contains(t) <==> a.contains(t) || b.contains(t)) by {
            if a.contains(t) {
                assert((a + b)[a.index_of(t)] == t);
            }
            if b.contains(t) {
                assert((a + b)[a.len() + b.index_of(t)] == t);
            }
            if (a + b).contains(t) {
                let i = (a + b).index_of(t);
                if i < a.len() {
                    assert(a[i] == t);
                } else {
                    assert(b[i - a.len()] == t);
                }
            }
        }
    }
}

proof fn lemma_push_contains(s: Seq<TileId>, last: TileId, t: TileId)
    ensures
        s.push(last).contains(t) <==> s.contains(t) || t == last,
{
    if s.contains(t) {
        assert(s.push(last)[s.index_of(t)] == t);
    }
    assert(s.push(last)[s.len() as int] == last);
    if s.push(last).contains(t) {
        let i = s.push(last).index_of(t);
        if i < s.len() {
            assert(s[i] == t);
        }
    }
}

// ---------------------------------------------------------------------------
// State
// ---------------------------------------------------------------------------

/// What is known of a region's directory.
#[verifier::ext_equal]
pub struct DirView {
    pub name: Seq<char>,
    pub state: Fetch,
    /// Zoom and tiles of the index.
    pub index: Option<(u8, Seq<TileId>)>,
    /// Tiles done with: decoded, empty, or failed for good.
    pub settled: Set<u64>,
    pub in_flight: Set<u64>,
}

/// What an archive stands for.
#[verifier::ext_equal]
pub struct ArchiveState {
    pub base: Seq<char>,
    pub regions: Seq<RegionView>,
    pub manifest_state: Fetch,
    pub dirs: Seq<DirView>,
    /// The counter for identities of points that no two ways share.
    pub synthetic: int,
    pub last_error: Option<Seq<char>>,
}

/// The place of a directory.
pub open spec fn dir_place(dirs: Seq<DirView>, name: Seq<char>) -> Option<int>
    decreases dirs.len(),
{
    if dirs.len() == 0 {
        None
    } else {
        match dir_place(dirs.drop_last(), name) {
            Some(i) => Some(i),
            None => if dirs.last().name == name {
                Some(dirs.len() - 1)
            } else {
                None
            },
        }
    }
}

/// A directory of which nothing is known.
pub open spec fn unknown_dir(name: Seq<char>) -> DirView {
    DirView {
        name,
        state: Fetch::Idle,
        index: None,
        settled: Set::empty(),
        in_flight: Set::empty(),
    }
}

/// What is known of a directory.
pub open spec fn dir_at(dirs: Seq<DirView>, name: Seq<char>) -> DirView {
    match dir_place(dirs, name) {
        Some(i) => dirs[i],
        None => unknown_dir(name),
    }
}

/// The directories, with one of them as given.
pub open spec fn with_dir(dirs: Seq<DirView>, d: DirView) -> Seq<DirView> {
    match dir_place(dirs, d.name) {
        Some(i) => dirs.update(i, d),
        None => dirs.push(d),
    }
}

/// What a run over tiles has come to: the directory, and the tiles to fetch.
pub open spec fn swept(d: DirView, tiles: Seq<TileId>) -> (DirView, Seq<TileId>)
    decreases tiles.len(),
{
    if tiles.len() == 0 {
        (d, seq![])
    } else {
        let (before, wanted) = swept(d, tiles.drop_last());
        let t = tiles.last();
        if before.settled.contains(code_of(t)) || before.in_flight.contains(code_of(t)) {
            (before, wanted)
        } else if index::listed((before.index->0).1, t) {
            (
                DirView { in_flight: before.in_flight.insert(code_of(t)), ..before },
                wanted.push(t),
            )
        } else {
            (DirView { settled: before.settled.insert(code_of(t)), ..before }, wanted)
        }
    }
}

impl ArchiveState {
    /// The manifest was asked for, if it was not before.
    pub open spec fn started(self) -> Self {
        if self.manifest_state == Fetch::Idle {
            ArchiveState { manifest_state: Fetch::InFlight, ..self }
        } else {
            self
        }
    }

    /// What the archive comes to when an area is wanted.
    pub open spec fn wanting(self, center: LatLon, nw: TileId, se: TileId) -> Self {
        let s = self.started();
        match manifest::region_at(s.regions, center) {
            Some(i) => {
                let d = dir_at(s.dirs, s.regions[i].dir);
                if d.state == Fetch::Idle {
                    ArchiveState {
                        dirs: with_dir(s.dirs, DirView { state: Fetch::InFlight, ..d }),
                        ..s
                    }
                } else if d.state == Fetch::Done && d.index is Some {
                    ArchiveState { dirs: with_dir(s.dirs, swept(d, covering(nw, se)).0), ..s }
                } else {
                    s
                }
            },
            None => s,
        }
    }

    /// The files to be fetched when an area is wanted.
    pub open spec fn requests(self, center: LatLon, nw: TileId, se: TileId) -> Seq<RequestView> {
        let s = self.started();
        let first = if self.manifest_state == Fetch::Idle {
            seq![RequestView::Manifest(s.base + MANIFEST_FILE@)]
        } else {
            seq![]
        };
        first + match manifest::region_at(s.regions, center) {
            Some(i) => {
                let name = s.regions[i].dir;
                let d = dir_at(s.dirs, name);
                if d.state == Fetch::Idle {
                    seq![RequestView::Index(name, s.base + name + "/"@ + INDEX_FILE@)]
                } else if d.state == Fetch::Done && d.index is Some {
                    tile_requests(s.base, name, swept(d, covering(nw, se)).1)
                } else {
                    seq![]
                }
            },
            None => seq![],
        }
    }

    /// What the archive comes to with a manifest, or without.
    pub open spec fn with_manifest(self, r: Result<Seq<char>, Seq<char>>) -> Self {
        match r {
            Ok(body) => match manifest::manifest_of(json::parsed(body)) {
                Ok(regions) => ArchiveState { regions, manifest_state: Fetch::Done, ..self },
                Err(e) => ArchiveState {
                    manifest_state: Fetch::Failed,
                    last_error: Some(e),
                    ..self
                },
            },
            Err(e) => ArchiveState {
                manifest_state: Fetch::Failed,
                last_error: Some("manifest: "@ + e),
                ..self
            },
        }
    }

    /// What the archive comes to with an index, or without.
    pub open spec fn with_index(self, name: Seq<char>, r: Result<Seq<u8>, Seq<char>>) -> Self {
        let d = dir_at(self.dirs, name);
        let failed = with_dir(self.dirs, DirView { state: Fetch::Failed, ..d });
        match r {
            Ok(bytes) => match index::index_of_bytes(bytes) {
                Ok(index) => ArchiveState {
                    dirs: with_dir(
                        self.dirs,
                        DirView { state: Fetch::Done, index: Some(index), ..d },
                    ),
                    ..self
                },
                Err(e) => ArchiveState {
                    dirs: failed,
                    last_error: Some("index: "@ + e.text()),
                    ..self
                },
            },
            Err(e) => ArchiveState { dirs: failed, last_error: Some("index: "@ + e), ..self },
        }
    }

    /// What the archive comes to with a tile, or without. A tile that does not
    /// decode is done with, for it will not decode the next time either. One that
    /// did not arrive may be asked for again.
    pub open spec fn with_tile(
        self,
        name: Seq<char>,
        t: TileId,
        r: Result<Seq<u8>, Seq<char>>,
    ) -> Self {
        let d = dir_at(self.dirs, name);
        let gone = DirView { in_flight: d.in_flight.remove(code_of(t)), ..d };
        let settled = DirView { settled: gone.settled.insert(code_of(t)), ..gone };
        match r {
            Ok(bytes) => match tile::tile_of_bytes(bytes) {
                Ok(ways) => ArchiveState {
                    dirs: with_dir(self.dirs, settled),
                    synthetic: self.synthetic - plain_total(ways),
                    ..self
                },
                Err(e) => ArchiveState {
                    dirs: with_dir(self.dirs, settled),
                    last_error: Some("tile: "@ + e.text()),
                    ..self
                },
            },
            Err(e) => ArchiveState {
                dirs: with_dir(self.dirs, gone),
                last_error: Some("tile: "@ + e),
                ..self
            },
        }
    }
}

/// What a request stands for.
pub enum RequestView {
    Manifest(Seq<char>),
    Index(Seq<char>, Seq<char>),
    Tile(Seq<char>, TileId, Seq<char>),
}

impl View for Request {
    type V = RequestView;

    open spec fn view(&self) -> RequestView {
        match self {
            Request::Manifest(url) => RequestView::Manifest(url@),
            Request::Index(dir, url) => RequestView::Index(dir@, url@),
            Request::Tile(dir, t, url) => RequestView::Tile(dir@, *t, url@),
        }
    }
}

/// What some requests stand for.
pub open spec fn request_views(v: Seq<Request>) -> Seq<RequestView> {
    Seq::new(v.len(), |i: int| v[i]@)
}

/// The path of a tile inside a region's directory.
pub open spec fn path_of(t: TileId) -> Seq<char> {
    crate::text::decimal(TILE_ZOOM as nat) + "/"@ + crate::text::decimal(t.x as nat) + "/"@
        + crate::text::decimal(t.y as nat) + ".tft"@
}

/// The requests for some tiles.
pub open spec fn tile_requests(
    base: Seq<char>,
    dir: Seq<char>,
    tiles: Seq<TileId>,
) -> Seq<RequestView> {
    Seq::new(
        tiles.len(),
        |i: int| RequestView::Tile(dir, tiles[i], base + dir + "/"@ + path_of(tiles[i])),
    )
}

/// A result by its content.
pub open spec fn bytes_view(r: Result<Vec<u8>, String>) -> Result<Seq<u8>, Seq<char>> {
    match r {
        Ok(v) => Ok(v@),
        Err(e) => Err(e@),
    }
}

/// A result by its content.
pub open spec fn text_view(r: Result<String, String>) -> Result<Seq<char>, Seq<char>> {
    match r {
        Ok(s) => Ok(s@),
        Err(e) => Err(e@),
    }
}

// ---------------------------------------------------------------------------
// What tiles add to the network
// ---------------------------------------------------------------------------

/// How many points of some ways are not shared.
pub open spec fn plain_total(ways: Seq<WayView>) -> nat
    decreases ways.len(),
{
    if ways.len() == 0 {
        0
    } else {
        plain_total(ways.drop_last()) + way::plain_count(ways.last().shared)
    }
}

/// A way and the cells of its points were made from its archive form: its points
/// were placed one by one, and the others have identities below the counter.
pub open spec fn made_from<F: Fn(i64, i64) -> (LatLon, Cell)>(
    w: Way,
    cells: Seq<Cell>,
    aw: WayView,
    counter: int,
    place: F,
) -> bool {
    &&& w.id == aw.id
    &&& w.kind == way::kind_of_code(aw.kind)
    &&& way::text_of(w.name) == aw.name
    &&& w.nodes@ == way::node_ids(aw.shared, counter)
    &&& w.bounds == geo::bounds_of(w.points@)
    &&& way::text_of(w.sac_scale) == if 1 <= aw.sac <= 6 {
        Some(vocabulary::sac_values()[aw.sac - 1])
    } else {
        None
    }
    &&& w.points@.len() == aw.points.len()
    &&& cells.len() == aw.points.len()
    &&& forall|i: int|
        0 <= i < aw.points.len() ==> call_ensures(
            place,
            ((#[trigger] aw.points[i]).0, aw.points[i].1),
            (w.points@[i], cells[i]),
        )
}

/// Ways were made from their archive forms, one after the other.
pub open spec fn all_made<F: Fn(i64, i64) -> (LatLon, Cell)>(
    added: Seq<(Way, Seq<Cell>)>,
    ways: Seq<WayView>,
    counter: int,
    place: F,
) -> bool {
    &&& added.len() == ways.len()
    &&& forall|i: int|
        0 <= i < ways.len() ==> made_from(
            (#[trigger] added[i]).0,
            added[i].1,
            ways[i],
            counter - plain_total(ways.take(i)),
            place,
        )
}

/// The ways that a message brings.
pub open spec fn brought(m: Message) -> Seq<WayView> {
    match m {
        Message::Tile(_, _, Ok(bytes)) => match tile::tile_of_bytes(bytes@) {
            Ok(ways) => ways,
            Err(_) => seq![],
        },
        _ => seq![],
    }
}

/// What the archive comes to with a message.
pub open spec fn after_message(s: ArchiveState, m: Message) -> ArchiveState {
    match m {
        Message::Manifest(r) => s.with_manifest(text_view(r)),
        Message::Index(dir, r) => s.with_index(dir@, bytes_view(r)),
        Message::Tile(dir, t, r) => s.with_tile(dir@, t, bytes_view(r)),
    }
}

/// One message was taken in.
pub open spec fn stepped<F: Fn(i64, i64) -> (LatLon, Cell)>(
    s: ArchiveState,
    n: NetView,
    m: Message,
    s2: ArchiveState,
    n2: NetView,
    place: F,
) -> bool {
    &&& s2 == after_message(s, m)
    &&& exists|added: Seq<(Way, Seq<Cell>)>| #[trigger]
        all_made(added, brought(m), s.synthetic, place) && n2 == network::all_admitted(n, added)
}

/// Bytes of the tiles in some messages.
pub open spec fn tile_bytes_total(messages: Seq<Message>) -> nat
    decreases messages.len(),
{
    if messages.len() == 0 {
        0
    } else {
        tile_len(messages[0]) + tile_bytes_total(messages.skip(1))
    }
}

/// Bytes of the tile in a message.
pub open spec fn tile_len(m: Message) -> nat {
    match m {
        Message::Tile(_, _, Ok(bytes)) => bytes@.len(),
        _ => 0,
    }
}

/// Messages were taken in one after the other, by way of these states.
pub open spec fn ran<F: Fn(i64, i64) -> (LatLon, Cell)>(
    trace: Seq<(ArchiveState, NetView)>,
    messages: Seq<Message>,
    place: F,
) -> bool {
    &&& trace.len() == messages.len() + 1
    &&& forall|i: int|
        0 <= i < messages.len() ==> #[trigger] stepped(
            trace[i].0,
            trace[i].1,
            messages[i],
            trace[i + 1].0,
            trace[i + 1].1,
            place,
        )
}

// ---------------------------------------------------------------------------
// The archive
// ---------------------------------------------------------------------------

struct DirState {
    name: String,
    state: Fetch,
    index: Option<Index>,
    settled: HashSet<u64>,
    in_flight: HashSet<u64>,
}

impl View for DirState {
    type V = DirView;

    closed spec fn view(&self) -> DirView {
        DirView {
            name: self.name@,
            state: self.state,
            index: match self.index {
                Some(i) => Some((i.zoom, i.tiles@)),
                None => None,
            },
            settled: self.settled@,
            in_flight: self.in_flight@,
        }
    }
}

spec fn dir_views(dirs: Seq<DirState>) -> Seq<DirView> {
    Seq::new(dirs.len(), |i: int| dirs[i]@)
}

/// Trail data read from static tiles. These are files behind a content network:
/// there is no queue, no pacing and no time limit.
pub struct TrailArchive {
    base: String,
    manifest: Manifest,
    manifest_state: Fetch,
    dirs: Vec<DirState>,
    synthetic: i64,
    last_error: Option<String>,
}

impl View for TrailArchive {
    type V = ArchiveState;

    closed spec fn view(&self) -> ArchiveState {
        ArchiveState {
            base: self.base@,
            regions: self.manifest@,
            manifest_state: self.manifest_state,
            dirs: dir_views(self.dirs@),
            synthetic: self.synthetic as int,
            last_error: way::text_of(self.last_error),
        }
    }
}

impl TrailArchive {
    /// An archive whose files lie under a base.
    pub fn new(base: &str) -> (a: Self)
        ensures
            a@ == (ArchiveState {
                base: base@,
                regions: seq![],
                manifest_state: Fetch::Idle,
                dirs: seq![],
                synthetic: 0,
                last_error: None,
            }),
    {
        let a = TrailArchive {
            base: base.to_owned(),
            manifest: Manifest::default(),
            manifest_state: Fetch::Idle,
            dirs: Vec::new(),
            synthetic: 0,
            last_error: None,
        };
        assert(a@.dirs =~= seq![]);
        a
    }

    /// What went wrong last.
    pub fn last_error(&self) -> (r: &Option<String>)
        ensures
            way::text_of(*r) == self@.last_error,
    {
        &self.last_error
    }

    pub fn manifest(&self) -> (m: &Manifest)
        ensures
            m@ == self@.regions,
    {
        &self.manifest
    }

    /// Whether the manifest is here.
    pub fn ready(&self) -> (b: bool)
        ensures
            b == (self@.manifest_state == Fetch::Done),
    {
        self.manifest_state == Fetch::Done
    }

    /// Whether a region holds a position.
    pub fn covers(&self, ll: LatLon) -> (b: bool)
        ensures
            b == (manifest::region_at(self@.regions, ll) is Some),
    {
        self.manifest.region_for(ll).is_some()
    }

    fn find(&self, name: &str) -> (r: Option<usize>)
        ensures
            match r {
                Some(i) => dir_place(self@.dirs, name@) == Some(i as int) && i < self.dirs@.len(),
                None => dir_place(self@.dirs, name@) is None,
            },
    {
        let mut found: Option<usize> = None;
        let mut i: usize = 0;
        while i < self.dirs.len()
            invariant
                i <= self.dirs@.len(),
                match found {
                    Some(k) => dir_place(self@.dirs.take(i as int), name@) == Some(k as int) && k
                        < i,
                    None => dir_place(self@.dirs.take(i as int), name@) is None,
                },
            decreases self.dirs@.len() - i,
        {
            assert(self@.dirs.take(i + 1).drop_last() =~= self@.dirs.take(i as int));
            assert(self@.dirs.take(i + 1).last() == self.dirs@[i as int]@);
            if found.is_none() && same_text(self.dirs[i].name.as_str(), name) {
                found = Some(i);
            }
            i = i + 1;
        }
        assert(self@.dirs.take(i as int) =~= self@.dirs);
        found
    }

    /// The place of a directory, which is made where there is none.
    fn dir_slot(&mut self, name: &str) -> (i: usize)
        ensures
            i < final(self).dirs@.len(),
            final(self).base == old(self).base,
            final(self).manifest == old(self).manifest,
            final(self).manifest_state == old(self).manifest_state,
            final(self).synthetic == old(self).synthetic,
            final(self).last_error == old(self).last_error,
            final(self)@.dirs[i as int] == dir_at(old(self)@.dirs, name@),
            final(self)@.dirs[i as int].name == name@,
            forall|d: DirView|
                d.name == name@ ==> #[trigger] with_dir(old(self)@.dirs, d) == final(self)@.dirs.update(i as int, d),
    {
        match self.find(name) {
            Some(i) => {
                proof {
                    lemma_dir_place(self@.dirs, name@);
                }
                i
            },
            None => {
                let ghost was = self@.dirs;
                let d = DirState {
                    name: name.to_owned(),
                    state: Fetch::Idle,
                    index: None,
                    settled: HashSet::new(),
                    in_flight: HashSet::new(),
                };
                let i: usize = self.dirs.len();
                assert(d@ == unknown_dir(name@));
                self.dirs.push(d);
                assert(self@.dirs =~= was.push(d@));
                assert forall|e: DirView| e.name == name@ implies #[trigger] with_dir(was, e)
                    == self@.dirs.update(i as int, e) by {
                    assert(was.push(e) =~= self@.dirs.update(i as int, e));
                }
                i
            },
        }
    }

    /// Whether every tile of an area is done with, so that what is there can be
    /// snapped to.
    pub fn area_ready(&self, center: LatLon, nw: TileId, se: TileId) -> (b: bool)
        ensures
            b == match manifest::region_at(self@.regions, center) {
                Some(i) => {
                    let d = dir_at(self@.dirs, self@.regions[i].dir);
                    &&& d.state == Fetch::Done
                    &&& forall|k: int|
                        0 <= k < covering(nw, se).len() ==> d.settled.contains(
                            code_of(#[trigger] covering(nw, se)[k]),
                        )
                },
                None => false,
            },
            b == area_done(self@, center, nw, se),
    {
        let region = match self.manifest.region_for(center) {
            Some(r) => r,
            None => {
                return false;
            },
        };
        let i: usize = match self.find(region.dir.as_str()) {
            Some(i) => i,
            None => {
                return false;
            },
        };
        let d = &self.dirs[i];
        assert(self@.dirs[i as int] == d@);
        if d.state != Fetch::Done {
            return false;
        }
        let tiles = tiles_covering(nw, se);
        let mut k: usize = 0;
        let ghost view = d@;
        while k < tiles.len()
            invariant
                k <= tiles@.len(),
                tiles@ == covering(nw, se),
                view == d@,
                manifest::region_at(self@.regions, center) matches Some(r) && dir_at(
                    self@.dirs,
                    self@.regions[r].dir,
                ) == view,
                forall|j: int|
                    0 <= j < k ==> view.settled.contains(code_of(#[trigger] covering(nw, se)[j])),
            decreases tiles@.len() - k,
        {
            if !d.settled.contains(&tile_code(tiles[k])) {
                assert(!view.settled.contains(code_of(covering(nw, se)[k as int])));
                return false;
            }
            k = k + 1;
        }
        true
    }

    /// Sees to it that the trails of an area are on their way, and hands out the
    /// files to be fetched. What is done with or in flight is not asked for again,
    /// so this may be called in every frame. Ground without a tile costs no
    /// request at all.
    pub fn ensure_area(&mut self, center: LatLon, nw: TileId, se: TileId) -> (v: Vec<Request>)
        ensures
            final(self)@ == old(self)@.wanting(center, nw, se),
            request_views(v@) == old(self)@.requests(center, nw, se),
    {
        let ghost was = self@;
        let mut out: Vec<Request> = Vec::new();
        if self.manifest_state == Fetch::Idle {
            self.manifest_state = Fetch::InFlight;
            let mut url = self.base.clone();
            url.append(MANIFEST_FILE);
            out.push(Request::Manifest(url));
        }
        assert(self@ == was.started());
        let ghost first = request_views(out@);
        assert(first =~= if was.manifest_state == Fetch::Idle {
            seq![RequestView::Manifest(was.base + MANIFEST_FILE@)]
        } else {
            seq![]
        });
        let dir: String = match self.manifest.region_for(center) {
            Some(r) => r.dir.clone(),
            None => {
                assert(request_views(out@) =~= was.requests(center, nw, se));
                return out;
            },
        };
        let ghost started = self@;
        let i: usize = match self.find(dir.as_str()) {
            Some(i) => i,
            None => {
                let i: usize = self.dir_slot(dir.as_str());
                self.ask_index(i, &mut out);
                assert(request_views(out@) =~= was.requests(center, nw, se));
                return out;
            },
        };
        proof {
            lemma_dir_place(self@.dirs, dir@);
            assert(self@.dirs[i as int] == self.dirs@[i as int]@);
            lemma_with_dir(self@.dirs, i as int, dir@);
        }
        match self.dirs[i].state {
            Fetch::Idle => {
                self.ask_index(i, &mut out);
                assert(request_views(out@) =~= was.requests(center, nw, se));
                return out;
            },
            Fetch::InFlight => {
                assert(request_views(out@) =~= was.requests(center, nw, se));
                return out;
            },
            Fetch::Failed => {
                assert(request_views(out@) =~= was.requests(center, nw, se));
                return out;
            },
            Fetch::Done => {},
        }
        if self.dirs[i].index.is_none() {
            assert(request_views(out@) =~= was.requests(center, nw, se));
            return out;
        }
        let wanted = self.sweep(i, nw, se);
        let ghost d = dir_at(started.dirs, dir@);
        proof {
            law_sweep(d, covering(nw, se), nw);
            let e = swept(d, covering(nw, se)).0;
            assert(with_dir(started.dirs, e) == started.dirs.update(i as int, e));
            assert(self@ == was.wanting(center, nw, se));
        }
        let mut k: usize = 0;
        let ghost after = *self;
        assert(request_views(out@) =~= first + tile_requests(was.base, dir@, wanted@.take(0)));
        while k < wanted.len()
            invariant
                *self == after,
                self@.base == was.base,
                k <= wanted@.len(),
                request_views(out@) == first + tile_requests(
                    was.base,
                    dir@,
                    wanted@.take(k as int),
                ),
            decreases wanted@.len() - k,
        {
            let ghost had = out@;
            let t: TileId = wanted[k];
            let mut url = self.base.clone();
            url.append(dir.as_str());
            url.append("/");
            let path = tile_path(TILE_ZOOM, t);
            url.append(path.as_str());
            assert(url@ == was.base + dir@ + "/"@ + path_of(t));
            let request = Request::Tile(dir.clone(), t, url);
            let ghost view = RequestView::Tile(dir@, t, url@);
            out.push(request);
            proof {
                assert(request@ == view);
                assert(request_views(out@) =~= request_views(had).push(view));
                assert(wanted@.take(k + 1) =~= wanted@.take(k as int).push(t));
                assert(tile_requests(was.base, dir@, wanted@.take(k + 1)) =~= tile_requests(
                    was.base,
                    dir@,
                    wanted@.take(k as int),
                ).push(view));
                assert(request_views(out@) =~= first + tile_requests(
                    was.base,
                    dir@,
                    wanted@.take(k + 1),
                ));
            }
            k = k + 1;
        }
        assert(wanted@.take(k as int) =~= wanted@);
        out
    }

    /// Asks for the index of a directory.
    fn ask_index(&mut self, i: usize, out: &mut Vec<Request>)
        requires
            i < old(self).dirs@.len(),
        ensures
            final(self)@ == (ArchiveState {
                dirs: old(self)@.dirs.update(
                    i as int,
                    DirView { state: Fetch::InFlight, ..old(self)@.dirs[i as int] },
                ),
                ..old(self)@
            }),
            request_views(final(out)@) == request_views(old(out)@).push(
                RequestView::Index(
                    old(self)@.dirs[i as int].name,
                    old(self)@.base + old(self)@.dirs[i as int].name + "/"@ + INDEX_FILE@,
                ),
            ),
    {
        let ghost was = *self;
        let ghost had = out@;
        self.dirs[i].state = Fetch::InFlight;
        let name: String = self.dirs[i].name.clone();
        let mut url = self.base.clone();
        url.append(name.as_str());
        url.append("/");
        url.append(INDEX_FILE);
        out.push(Request::Index(name, url));
        assert(self@.dirs =~= was@.dirs.update(
            i as int,
            DirView { state: Fetch::InFlight, ..was@.dirs[i as int] },
        ));
        assert(request_views(out@) =~= request_views(had).push(
            RequestView::Index(
                was@.dirs[i as int].name,
                was@.base + was@.dirs[i as int].name + "/"@ + INDEX_FILE@,
            ),
        ));
    }

    /// Runs over the tiles of an area: marks those to fetch, and is done with
    /// those that the index does not list.
    fn sweep(&mut self, i: usize, nw: TileId, se: TileId) -> (wanted: Vec<TileId>)
        requires
            i < old(self).dirs@.len(),
            old(self)@.dirs[i as int].index is Some,
        ensures
            (final(self)@.dirs[i as int], wanted@) == swept(
                old(self)@.dirs[i as int],
                covering(nw, se),
            ),
            final(self)@ == (ArchiveState {
                dirs: old(self)@.dirs.update(i as int, final(self)@.dirs[i as int]),
                ..old(self)@
            }),
    {
        let ghost was = *self;
        let tiles = tiles_covering(nw, se);
        let mut wanted: Vec<TileId> = Vec::new();
        let mut k: usize = 0;
        assert(self@.dirs =~= was@.dirs.update(i as int, self@.dirs[i as int]));
        while k < tiles.len()
            invariant
                i < self.dirs@.len(),
                self.dirs@.len() == was.dirs@.len(),
                was@.dirs[i as int].index is Some,
                k <= tiles@.len(),
                tiles@ == covering(nw, se),
                (self@.dirs[i as int], wanted@) == swept(
                    was@.dirs[i as int],
                    tiles@.take(k as int),
                ),
                self@.dirs[i as int].index == was@.dirs[i as int].index,
                self@ == (ArchiveState {
                    dirs: was@.dirs.update(i as int, self@.dirs[i as int]),
                    ..was@
                }),
            decreases tiles@.len() - k,
        {
            assert(tiles@.take(k + 1).drop_last() =~= tiles@.take(k as int));
            let ghost before = *self;
            let t: TileId = tiles[k];
            let code: u64 = tile_code(t);
            assert(before@.dirs[i as int] == before.dirs@[i as int]@);
            if !self.dirs[i].settled.contains(&code) && !self.dirs[i].in_flight.contains(&code) {
                let listed: bool = match &self.dirs[i].index {
                    Some(index) => index.has(t),
                    None => false,
                };
                if listed {
                    self.dirs[i].in_flight.insert(code);
                    wanted.push(t);
                } else {
                    self.dirs[i].settled.insert(code);
                }
                assert forall|j: int| 0 <= j < self.dirs@.len() && j != i implies (
                #[trigger] self.dirs@[j])@ == before@.dirs[j] by {
                    assert(self.dirs@[j] == before.dirs@[j]);
                }
                assert(self@.dirs =~= before@.dirs.update(i as int, self@.dirs[i as int]));
                assert(self@.dirs =~= was@.dirs.update(i as int, self@.dirs[i as int]));
            }
            k = k + 1;
        }
        assert(tiles@.take(k as int) =~= tiles@);
        wanted
    }

    /// Takes in what has arrived, in its order, and feeds it into the network.
    /// Tells whether the network gained ways. `place` gives the position of a
    /// point and the cell it lies in.
    pub fn pump<F: Fn(i64, i64) -> (LatLon, Cell)>(
        &mut self,
        messages: &Vec<Message>,
        net: &mut TrailNetwork,
        place: F,
    ) -> (changed: bool)
        requires
            old(net).wf(),
            forall|a: i64, b: i64| call_requires(place, (a, b)),
            old(self)@.synthetic - tile_bytes_total(messages@) >= i64::MIN,
        ensures
            final(net).wf(),
            exists|trace: Seq<(ArchiveState, NetView)>| #[trigger]
                ran(trace, messages@, place) && trace[0] == (old(self)@, network::net_view(old(net)))
                    && trace[messages@.len() as int] == (final(self)@, network::net_view(final(net))),
            changed == (final(net).list().len() > old(net).list().len()),
    {
        let ghost mut trace: Seq<(ArchiveState, NetView)> = seq![(self@, network::net_view(net))];
        let had_ways: usize = net.len();
        let mut i: usize = 0;
        assert(messages@.skip(0) =~= messages@);
        while i < messages.len()
            invariant
                i <= messages@.len(),
                net.wf(),
                forall|a: i64, b: i64| call_requires(place, (a, b)),
                self@.synthetic - tile_bytes_total(messages@.skip(i as int)) >= i64::MIN,
                trace.len() == i + 1,
                trace[0] == (old(self)@, network::net_view(old(net))),
                trace[i as int] == (self@, network::net_view(net)),
                forall|k: int|
                    0 <= k < i ==> #[trigger] stepped(
                        trace[k].0,
                        trace[k].1,
                        messages@[k],
                        trace[k + 1].0,
                        trace[k + 1].1,
                        place,
                    ),
            decreases messages@.len() - i,
        {
            assert(messages@.skip(i as int).skip(1) =~= messages@.skip(i + 1));
            assert(messages@.skip(i as int)[0] == messages@[i as int]);
            let ghost had = trace;
            self.receive(&messages[i], net, &place);
            proof {
                trace = trace.push((self@, network::net_view(net)));
                assert forall|k: int| 0 <= k < i + 1 implies #[trigger] stepped(
                    trace[k].0,
                    trace[k].1,
                    messages@[k],
                    trace[k + 1].0,
                    trace[k + 1].1,
                    place,
                ) by {
                    if k < i {
                        assert(stepped(
                            had[k].0,
                            had[k].1,
                            messages@[k],
                            had[k + 1].0,
                            had[k + 1].1,
                            place,
                        ));
                    }
                }
            }
            i = i + 1;
        }
        assert(ran(trace, messages@, place));
        net.len() > had_ways
    }

    /// Takes one message in.
    fn receive<F: Fn(i64, i64) -> (LatLon, Cell)>(
        &mut self,
        message: &Message,
        net: &mut TrailNetwork,
        place: &F,
    )
        requires
            old(net).wf(),
            forall|a: i64, b: i64| call_requires(*place, (a, b)),
            old(self)@.synthetic - tile_len(*message) >= i64::MIN,
        ensures
            final(net).wf(),
            stepped(
                old(self)@,
                network::net_view(old(net)),
                *message,
                final(self)@,
                network::net_view(final(net)),
                *place,
            ),
            final(self)@.synthetic >= old(self)@.synthetic - tile_len(*message),
    {
        let ghost was = self@;
        let ghost before = network::net_view(net);
        let ghost none: Seq<(Way, Seq<Cell>)> = seq![];
        match message {
            Message::Manifest(r) => {
                self.receive_manifest(r);
                assert(self@ == after_message(was, *message));
                assert(all_made(none, brought(*message), was.synthetic, *place));
            },
            Message::Index(dir, r) => {
                self.receive_index(dir, r);
                assert(self@ == after_message(was, *message));
                assert(all_made(none, brought(*message), was.synthetic, *place));
            },
            Message::Tile(dir, t, r) => {
                let i: usize = self.dir_slot(dir.as_str());
                let code: u64 = tile_code(*t);
                let ghost slot = *self;
                assert(slot@.dirs[i as int] == slot.dirs@[i as int]@);
                self.dirs[i].in_flight.remove(&code);
                assert(self@.dirs =~= slot@.dirs.update(
                    i as int,
                    DirView {
                        in_flight: slot@.dirs[i as int].in_flight.remove(code),
                        ..slot@.dirs[i as int]
                    },
                ));
                let ghost gone = *self;
                proof {
                    let d = gone@.dirs[i as int];
                    let e = DirView { settled: d.settled.insert(code), ..d };
                    assert(with_dir(was.dirs, d) == slot@.dirs.update(i as int, d));
                    assert(with_dir(was.dirs, e) == slot@.dirs.update(i as int, e));
                }
                let bytes = match r {
                    Ok(b) => b,
                    Err(e) => {
                        let mut s = "tile: ".to_owned();
                        s.append(e.as_str());
                        self.last_error = Some(s);
                        assert(all_made(none, brought(*message), was.synthetic, *place));
                        return ;
                    },
                };
                self.dirs[i].settled.insert(code);
                assert(self@.dirs =~= slot@.dirs.update(
                    i as int,
                    DirView {
                        settled: gone@.dirs[i as int].settled.insert(code),
                        ..gone@.dirs[i as int]
                    },
                ));
                match decode_tile(bytes.as_slice()) {
                    Ok(ways) => {
                        proof {
                            tile_laws::law_tile_size(bytes@);
                            tile_laws::law_decoded_ways_are_valid(bytes@);
                        }
                        self.absorb(ways, net, place, Ghost(bytes@.len()));
                        proof {
                            assert(brought(*message) == tile::views(ways@));
                            assert(self@ == was.with_tile(dir@, *t, bytes_view(*r)));
                        }
                    },
                    Err(e) => {
                        let mut s = "tile: ".to_owned();
                        let m = e.message();
                        s.append(m.as_str());
                        self.last_error = Some(s);
                        assert(self@ == after_message(was, *message));
                        assert(all_made(none, brought(*message), was.synthetic, *place));
                    },
                }
            },
        }
    }

    fn receive_manifest(&mut self, r: &Result<String, String>)
        ensures
            final(self)@ == old(self)@.with_manifest(text_view(*r)),
    {
        match r {
            Ok(body) => match parse_manifest(body.as_str()) {
                Ok(m) => {
                    self.manifest = m;
                    self.manifest_state = Fetch::Done;
                },
                Err(e) => {
                    self.manifest_state = Fetch::Failed;
                    self.last_error = Some(e);
                },
            },
            Err(e) => {
                self.manifest_state = Fetch::Failed;
                let mut s = "manifest: ".to_owned();
                s.append(e.as_str());
                self.last_error = Some(s);
            },
        }
    }

    fn receive_index(&mut self, dir: &String, r: &Result<Vec<u8>, String>)
        ensures
            final(self)@ == old(self)@.with_index(dir@, bytes_view(*r)),
    {
        let i: usize = self.dir_slot(dir.as_str());
        let ghost slot = *self;
        assert(slot@.dirs[i as int] == slot.dirs@[i as int]@);
        let error: String = match r {
            Ok(bytes) => match read_index(bytes.as_slice()) {
                Ok(index) => {
                    let ghost got = (index.zoom, index.tiles@);
                    self.dirs[i].state = Fetch::Done;
                    self.dirs[i].index = Some(index);
                    assert(self@.dirs =~= slot@.dirs.update(
                        i as int,
                        DirView { state: Fetch::Done, index: Some(got), ..slot@.dirs[i as int] },
                    ));
                    return ;
                },
                Err(e) => e.message(),
            },
            Err(e) => e.clone(),
        };
        self.dirs[i].state = Fetch::Failed;
        let mut s = "index: ".to_owned();
        s.append(error.as_str());
        self.last_error = Some(s);
        assert(self@.dirs =~= slot@.dirs.update(
            i as int,
            DirView { state: Fetch::Failed, ..slot@.dirs[i as int] },
        ));
    }

    /// Adds decoded ways to the network.
    fn absorb<F: Fn(i64, i64) -> (LatLon, Cell)>(
        &mut self,
        ways: Vec<ArchiveWay>,
        net: &mut TrailNetwork,
        place: &F,
        Ghost(limit): Ghost<nat>,
    )
        requires
            old(net).wf(),
            forall|a: i64, b: i64| call_requires(*place, (a, b)),
            ways@.len() + 2 * tile_laws::total_points(tile::views(ways@)) <= limit,
            old(self)@.synthetic - limit >= i64::MIN,
            forall|k: int|
                0 <= k < tile::views(ways@).len() ==> (#[trigger] tile::views(ways@)[k]).valid(),
        ensures
            final(net).wf(),
            exists|added: Seq<(Way, Seq<Cell>)>| #[trigger]
                all_made(added, tile::views(ways@), old(self)@.synthetic, *place) && network::net_view(
                    final(net)) == network::all_admitted(network::net_view(old(net)), added),
            final(self)@ == (ArchiveState {
                synthetic: old(self)@.synthetic - plain_total(tile::views(ways@)),
                ..old(self)@
            }),
            final(self)@.synthetic >= old(self)@.synthetic - limit,
    {
        let ghost all = tile::views(ways@);
        let ghost was = *self;
        let ghost before = network::net_view(net);
        let ghost mut added: Seq<(Way, Seq<Cell>)> = seq![];
        proof {
            lemma_plain_total(all);
            assert(all.take(0) =~= seq![]);
        }
        for aw in it: ways.into_iter()
            invariant
                it.seq() == ways@,
                all == tile::views(ways@),
                net.wf(),
                forall|a: i64, b: i64| call_requires(*place, (a, b)),
                ways@.len() + 2 * tile_laws::total_points(all) <= limit,
                was@.synthetic - limit >= i64::MIN,
                plain_total(all) <= tile_laws::total_points(all),
                forall|k: int| 0 <= k < all.len() ==> (#[trigger] all[k]).valid(),
                added.len() == it.index(),
                network::net_view(net) == network::all_admitted(before, added),
                self.synthetic == was@.synthetic - plain_total(all.take(it.index())),
                self.base == was.base,
                self.manifest == was.manifest,
                self.manifest_state == was.manifest_state,
                self.dirs == was.dirs,
                self.last_error == was.last_error,
                forall|k: int|
                    0 <= k < added.len() ==> made_from(
                        (#[trigger] added[k]).0,
                        added[k].1,
                        all[k],
                        was@.synthetic - plain_total(all.take(k)),
                        *place,
                    ),
        {
            let ghost k = it.index() as int;
            assert(aw == ways@[k]);
            assert(all[k] == aw@);
            let ghost form = aw@;
            proof {
                assert(all[k].valid());
                lemma_plain_prefix(all, k + 1);
                assert(all.take(k + 1).drop_last() =~= all.take(k));
                lemma_points_of_one(all, k);
            }
            let (points, cells) = place_points(&aw.points, place);
            let ghost counter = self.synthetic as int;
            let made = Way::from_archive(aw, points, &mut self.synthetic);
            match made {
                Some(way) => {
                    proof {
                        assert(made_from(way, cells@, form, counter, *place));
                        let had = added;
                        added = added.push((way, cells@));
                        assert(added.drop_last() =~= had);
                    }
                    let ghost old_net = network::net_view(net);
                    net.insert(way, &cells);
                    assert(network::net_view(net) == network::admitted(old_net, way, cells@));
                },
                None => {},
            }
        }
        assert(all.take(all.len() as int) =~= all);
        assert(all_made(added, all, was@.synthetic, *place));
    }

    /// How many tiles are done with, how many are in flight, and how many regions
    /// there are.
    pub fn stats(&self) -> (r: (usize, usize, usize))
        ensures
            r.0 == capped(settled_total(self@.dirs)),
            r.1 == capped(flying_total(self@.dirs)),
            r.2 == self@.regions.len(),
    {
        let mut settled: usize = 0;
        let mut flying: usize = 0;
        let mut i: usize = 0;
        while i < self.dirs.len()
            invariant
                i <= self.dirs@.len(),
                settled == capped(settled_total(self@.dirs.take(i as int))),
                flying == capped(flying_total(self@.dirs.take(i as int))),
            decreases self.dirs@.len() - i,
        {
            assert(self@.dirs.take(i + 1).drop_last() =~= self@.dirs.take(i as int));
            assert(self@.dirs.take(i + 1).last() == self.dirs@[i as int]@);
            settled = settled.saturating_add(self.dirs[i].settled.len());
            flying = flying.saturating_add(self.dirs[i].in_flight.len());
            i = i + 1;
        }
        assert(self@.dirs.take(i as int) =~= self@.dirs);
        (settled, flying, self.manifest.regions.len())
    }
}

/// A count as far as a machine word holds it.
pub open spec fn capped(n: nat) -> nat {
    if n > usize::MAX {
        usize::MAX as nat
    } else {
        n
    }
}

/// How many tiles are done with.
pub open spec fn settled_total(dirs: Seq<DirView>) -> nat
    decreases dirs.len(),
{
    if dirs.len() == 0 {
        0
    } else {
        settled_total(dirs.drop_last()) + dirs.last().settled.len()
    }
}

/// How many tiles are in flight.
pub open spec fn flying_total(dirs: Seq<DirView>) -> nat
    decreases dirs.len(),
{
    if dirs.len() == 0 {
        0
    } else {
        flying_total(dirs.drop_last()) + dirs.last().in_flight.len()
    }
}

/// Places points one by one.
fn place_points<F: Fn(i64, i64) -> (LatLon, Cell)>(points: &Vec<(i64, i64)>, place: &F) -> (r: (
    Vec<LatLon>,
    Vec<Cell>,
))
    requires
        forall|a: i64, b: i64| call_requires(*place, (a, b)),
    ensures
        r.0@.len() == points@.len(),
        r.1@.len() == points@.len(),
        forall|i: int|
            0 <= i < points@.len() ==> call_ensures(
                *place,
                ((#[trigger] points@[i]).0, points@[i].1),
                (r.0@[i], r.1@[i]),
            ),
{
    let mut out: Vec<LatLon> = Vec::new();
    let mut cells: Vec<Cell> = Vec::new();
    let mut i: usize = 0;
    while i < points.len()
        invariant
            forall|a: i64, b: i64| call_requires(*place, (a, b)),
            i <= points@.len(),
            out@.len() == i,
            cells@.len() == i,
            forall|k: int|
                0 <= k < i ==> call_ensures(
                    *place,
                    ((#[trigger] points@[k]).0, points@[k].1),
                    (out@[k], cells@[k]),
                ),
        decreases points@.len() - i,
    {
        let p: (i64, i64) = points[i];
        let (ll, cell) = place(p.0, p.1);
        out.push(ll);
        cells.push(cell);
        i = i + 1;
    }
    (out, cells)
}

// ---------------------------------------------------------------------------
// Laws
// ---------------------------------------------------------------------------

/// A run over tiles asks for just those that the index lists and that are neither
/// done with nor in flight. Afterwards each tile of the run is one or the other.
pub proof fn law_sweep(d: DirView, tiles: Seq<TileId>, t: TileId)
    requires
        d.index is Some,
    ensures
        ({
            let (after, wanted) = swept(d, tiles);
            &&& after.index == d.index
            &&& after.name == d.name
            &&& after.state == d.state
            &&& (tiles.contains(t) ==> after.settled.contains(code_of(t))
                || after.in_flight.contains(code_of(t)))
            &&& (wanted.contains(t) <==> tiles.contains(t) && !d.settled.contains(code_of(t))
                && !d.in_flight.contains(code_of(t)) && index::listed((d.index->0).1, t))
            &&& (after.settled.contains(code_of(t)) <==> d.settled.contains(code_of(t)) || (
            tiles.contains(t) && !d.in_flight.contains(code_of(t)) && !index::listed(
                (d.index->0).1,
                t,
            )))
            &&& (after.in_flight.contains(code_of(t)) <==> d.in_flight.contains(code_of(t))
                || wanted.contains(t))
        }),
    decreases tiles.len(),
{
    if tiles.len() > 0 {
        let less = tiles.drop_last();
        let last = tiles.last();
        law_sweep(d, less, t);
        law_sweep(d, less, last);
        let (before, wanted) = swept(d, less);
        assert(tiles =~= less.push(last));
        lemma_push_contains(less, last, t);
        lemma_push_contains(wanted, last, t);
        assert(code_of(t) == code_of(last) ==> t == last);
    }
}

/// Wanting an area again asks for nothing more: what is done with or in flight
/// is left alone.
pub proof fn law_wanting_again_asks_for_nothing(
    s: ArchiveState,
    center: LatLon,
    nw: TileId,
    se: TileId,
)
    ensures
        s.wanting(center, nw, se).requests(center, nw, se).len() == 0,
        s.wanting(center, nw, se).wanting(center, nw, se) == s.wanting(center, nw, se),
{
    let first = s.wanting(center, nw, se);
    let second = first.wanting(center, nw, se);
    if let Some(i) = manifest::region_at(s.regions, center) {
        let name = s.regions[i].dir;
        let d = dir_at(s.dirs, name);
        lemma_dir_place(s.dirs, name);
        let tiles = covering(nw, se);
        if d.state == Fetch::Idle {
            lemma_dir_kept(s.dirs, DirView { state: Fetch::InFlight, ..d });
        } else if d.state == Fetch::Done && d.index is Some {
            let e = swept(d, tiles).0;
            law_sweep(d, tiles, nw);
            lemma_dir_kept(s.dirs, e);
            assert forall|k: int| 0 <= k < tiles.len() implies e.settled.contains(
                code_of(#[trigger] tiles[k]),
            ) || e.in_flight.contains(code_of(tiles[k])) by {
                law_sweep(d, tiles, tiles[k]);
                assert(tiles.contains(tiles[k]));
            }
            lemma_nothing_to_sweep(e, tiles);
            lemma_dir_place(first.dirs, name);
            assert(with_dir(first.dirs, e) =~= first.dirs);
        }
    }
    assert(second =~= first);
}

/// A tile that did not arrive may be asked for again, one that did not decode is
/// done with.
pub proof fn law_only_transport_failures_are_retried(
    s: ArchiveState,
    name: Seq<char>,
    t: TileId,
    r: Result<Seq<u8>, Seq<char>>,
)
    ensures
        ({
            let d = dir_at(s.dirs, name);
            let e = dir_at(s.with_tile(name, t, r).dirs, name);
            &&& !e.in_flight.contains(code_of(t))
            &&& (e.settled.contains(code_of(t)) <==> d.settled.contains(code_of(t)) || r is Ok)
        }),
{
    let d = dir_at(s.dirs, name);
    lemma_dir_place(s.dirs, name);
    let gone = DirView { in_flight: d.in_flight.remove(code_of(t)), ..d };
    lemma_dir_kept(s.dirs, gone);
    lemma_dir_kept(s.dirs, DirView { settled: gone.settled.insert(code_of(t)), ..gone });
}

proof fn lemma_nothing_to_sweep(d: DirView, tiles: Seq<TileId>)
    requires
        forall|k: int|
            0 <= k < tiles.len() ==> d.settled.contains(code_of(#[trigger] tiles[k]))
                || d.in_flight.contains(code_of(tiles[k])),
    ensures
        swept(d, tiles) == (d, Seq::<TileId>::empty()),
    decreases tiles.len(),
{
    if tiles.len() > 0 {
        let less = tiles.drop_last();
        assert forall|k: int| 0 <= k < less.len() implies d.settled.contains(
            code_of(#[trigger] less[k]),
        ) || d.in_flight.contains(code_of(less[k])) by {
            assert(less[k] == tiles[k]);
        }
        lemma_nothing_to_sweep(d, less);
        assert(tiles[tiles.len() - 1] == tiles.last());
    }
}

/// The place of a directory holds it.
proof fn lemma_dir_place(dirs: Seq<DirView>, name: Seq<char>)
    ensures
        dir_place(dirs, name) matches Some(i) ==> 0 <= i < dirs.len() && dirs[i].name == name,
    decreases dirs.len(),
{
    if dirs.len() > 0 {
        lemma_dir_place(dirs.drop_last(), name);
    }
}

proof fn lemma_with_dir(dirs: Seq<DirView>, i: int, name: Seq<char>)
    requires
        dir_place(dirs, name) == Some(i),
    ensures
        forall|d: DirView|
            d.name == name ==> #[trigger] with_dir(dirs, d) == dirs.update(i, d),
{
}

/// A directory that was put in is found again.
proof fn lemma_dir_kept(dirs: Seq<DirView>, d: DirView)
    ensures
        dir_at(with_dir(dirs, d), d.name) == d,
        dir_place(with_dir(dirs, d), d.name) == match dir_place(dirs, d.name) {
            Some(i) => Some(i),
            None => Some(dirs.len() as int),
        },
{
    lemma_dir_place(dirs, d.name);
    match dir_place(dirs, d.name) {
        Some(i) => {
            lemma_dir_updated(dirs, i, d);
        },
        None => {
            assert(dirs.push(d).drop_last() =~= dirs);
        },
    }
}

proof fn lemma_dir_updated(dirs: Seq<DirView>, i: int, d: DirView)
    requires
        dir_place(dirs, d.name) == Some(i),
        0 <= i < dirs.len(),
    ensures
        dir_place(dirs.update(i, d), d.name) == Some(i),
    decreases dirs.len(),
{
    let less = dirs.drop_last();
    let up = dirs.update(i, d);
    if i < less.len() {
        assert(up.drop_last() =~= less.update(i, d));
        if dir_place(less, d.name) is None {
            assert(false);
        }
        lemma_dir_updated(less, i, d);
    } else {
        assert(up.drop_last() =~= less);
        lemma_dir_place(less, d.name);
    }
}

proof fn lemma_plain_total(ways: Seq<WayView>)
    requires
        forall|k: int| 0 <= k < ways.len() ==> (#[trigger] ways[k]).valid(),
    ensures
        plain_total(ways) <= tile_laws::total_points(ways),
    decreases ways.len(),
{
    if ways.len() > 0 {
        let less = ways.drop_last();
        assert forall|k: int| 0 <= k < less.len() implies (#[trigger] less[k]).valid() by {
            assert(less[k] == ways[k]);
        }
        lemma_plain_total(less);
        lemma_plain_count(ways.last().shared);
        lemma_total_points_last(ways);
        assert(ways[ways.len() - 1].valid());
    }
}

proof fn lemma_plain_count(shared: Seq<Option<i64>>)
    ensures
        way::plain_count(shared) <= shared.len(),
    decreases shared.len(),
{
    if shared.len() > 0 {
        lemma_plain_count(shared.drop_last());
    }
}

proof fn lemma_total_points_last(ways: Seq<WayView>)
    requires
        ways.len() > 0,
    ensures
        tile_laws::total_points(ways) == tile_laws::total_points(ways.drop_last())
            + ways.last().points.len(),
    decreases ways.len(),
{
    let rest = ways.skip(1);
    if rest.len() > 0 {
        lemma_total_points_last(rest);
        assert(rest.drop_last() =~= ways.drop_last().skip(1));
    } else {
        assert(ways.drop_last() =~= seq![]);
        assert(rest =~= seq![]);
    }
}

proof fn lemma_plain_prefix(ways: Seq<WayView>, k: int)
    requires
        0 <= k <= ways.len(),
    ensures
        plain_total(ways.take(k)) <= plain_total(ways),
    decreases ways.len() - k,
{
    if k < ways.len() {
        let less = ways.drop_last();
        assert(less.take(k) =~= ways.take(k));
        lemma_plain_prefix(less, k);
    } else {
        assert(ways.take(k) =~= ways);
    }
}

proof fn lemma_points_of_one(ways: Seq<WayView>, k: int)
    requires
        0 <= k < ways.len(),
    ensures
        ways[k].points.len() <= tile_laws::total_points(ways),
    decreases k,
{
    if k > 0 {
        lemma_points_of_one(ways.skip(1), k - 1);
    }
}

/// An area reaches from its north-west corner to its south-east corner, both of
/// them in it.
pub proof fn law_an_area_reaches_from_corner_to_corner(nw: TileId, se: TileId, t: TileId)
    requires
        nw.x <= se.x,
        nw.y <= se.y,
    ensures
        covering(nw, se).contains(t) <==> nw.x <= t.x <= se.x && nw.y <= t.y <= se.y,
        covering(nw, se).len() == (se.x - nw.x + 1) * (se.y - nw.y + 1),
{
    law_covering(nw, se, t);
    lemma_columns_len(nw.x as int, nw.y as int, span(nw.x, se.x), span(nw.y, se.y));
}

proof fn lemma_columns_len(x: int, y: int, m: nat, n: nat)
    ensures
        columns(x, y, m, n).len() == m * n,
    decreases m,
{
    if m > 0 {
        lemma_columns_len(x, y, (m - 1) as nat, n);
        lemma_column_len(x + m - 1, y, n);
        assert(m * n == (m - 1) * n + n) by (nonlinear_arith)
            requires
                m > 0,
        ;
    } else {
        assert(m * n == 0) by (nonlinear_arith)
            requires
                m == 0,
        ;
    }
}

proof fn lemma_column_len(x: int, y: int, n: nat)
    ensures
        column(x, y, n).len() == n,
    decreases n,
{
    if n > 0 {
        lemma_column_len(x, y, (n - 1) as nat);
    }
}

/// What is kept of a directory is what is found of it, and of no other.
pub proof fn law_directories_are_kept_apart(dirs: Seq<DirView>, d: DirView, name: Seq<char>)
    ensures
        dir_at(with_dir(dirs, d), d.name) == d,
        name != d.name ==> dir_at(with_dir(dirs, d), name) == dir_at(dirs, name),
        dir_at(Seq::<DirView>::empty(), name) == unknown_dir(name),
{
    lemma_dir_kept(dirs, d);
    if name != d.name {
        lemma_dir_place(dirs, d.name);
        match dir_place(dirs, d.name) {
            Some(i) => {
                lemma_other_place(dirs, i, d, name);
                lemma_dir_place(dirs, name);
            },
            None => {
                assert(dirs.push(d).drop_last() =~= dirs);
                lemma_dir_place(dirs, name);
            },
        }
    }
}

proof fn lemma_other_place(dirs: Seq<DirView>, i: int, d: DirView, name: Seq<char>)
    requires
        0 <= i < dirs.len(),
        dirs[i].name == d.name,
        name != d.name,
    ensures
        dir_place(dirs.update(i, d), name) == dir_place(dirs, name),
    decreases dirs.len(),
{
    let all = dirs.update(i, d);
    if i < dirs.len() - 1 {
        assert(all.drop_last() =~= dirs.drop_last().update(i, d));
        lemma_other_place(dirs.drop_last(), i, d, name);
    } else {
        assert(all.drop_last() =~= dirs.drop_last());
    }
}

/// The manifest is fetched first, and once: from the base address, when something
/// is wanted and it was not asked for before.
pub proof fn law_the_manifest_comes_first(
    s: ArchiveState,
    center: LatLon,
    nw: TileId,
    se: TileId,
)
    ensures
        s.manifest_state == Fetch::Idle ==> {
            &&& s.requests(center, nw, se).len() > 0
            &&& s.requests(center, nw, se)[0] == RequestView::Manifest(s.base + "regions.json"@)
            &&& s.wanting(center, nw, se).manifest_state == Fetch::InFlight
        },
        s.manifest_state != Fetch::Idle ==> {
            &&& s.wanting(center, nw, se).manifest_state == s.manifest_state
            &&& forall|i: int|
                0 <= i < s.requests(center, nw, se).len() ==> !((#[trigger] s.requests(
                    center,
                    nw,
                    se,
                )[i]) is Manifest)
        },
        manifest::region_at(s.regions, center) is None ==> s.requests(center, nw, se).len() <= 1,
{
    let all = s.requests(center, nw, se);
    if s.manifest_state == Fetch::Idle {
        assert(all[0] == RequestView::Manifest(s.base + MANIFEST_FILE@));
    }
}

/// An index is fetched before any tile of its region, from the region's directory,
/// and once.
pub proof fn law_an_index_comes_before_its_tiles(
    s: ArchiveState,
    center: LatLon,
    nw: TileId,
    se: TileId,
)
    requires
        s.manifest_state == Fetch::Done,
        manifest::region_at(s.regions, center) is Some,
    ensures
        ({
            let region = s.regions[manifest::region_at(s.regions, center)->0];
            let d = dir_at(s.dirs, region.dir);
            let asked = s.requests(center, nw, se);
            let after = dir_at(s.wanting(center, nw, se).dirs, region.dir);
            match d.state {
                Fetch::Idle => {
                    &&& asked == seq![
                        RequestView::Index(region.dir, s.base + region.dir + "/"@ + "index.tfi"@),
                    ]
                    &&& after.state == Fetch::InFlight
                },
                Fetch::InFlight => asked.len() == 0,
                Fetch::Failed => asked.len() == 0,
                Fetch::Done => forall|k: int|
                    0 <= k < asked.len() ==> (#[trigger] asked[k] matches RequestView::Tile(
                        dir,
                        t,
                        _,
                    ) && dir == region.dir && covering(nw, se).contains(t) && d.index is Some
                        && index::listed((d.index->0).1, t)),
            }
        }),
{
    let i = manifest::region_at(s.regions, center)->0;
    let name = s.regions[i].dir;
    let d = dir_at(s.dirs, name);
    let asked = s.requests(center, nw, se);
    lemma_dir_place(s.dirs, name);
    if d.state == Fetch::Idle {
        lemma_dir_kept(s.dirs, DirView { state: Fetch::InFlight, ..d });
        assert(asked =~= seq![
            RequestView::Index(name, s.base + name + "/"@ + "index.tfi"@),
        ]);
    } else if d.state == Fetch::Done && d.index is Some {
        let wanted = swept(d, covering(nw, se)).1;
        assert(asked =~= tile_requests(s.base, name, wanted));
        assert forall|k: int| 0 <= k < asked.len() implies (#[trigger] asked[k] matches
            RequestView::Tile(dir, t, _) && dir == name && covering(nw, se).contains(t)
            && index::listed((d.index->0).1, t)) by {
            assert(wanted.contains(wanted[k]));
            law_sweep(d, covering(nw, se), wanted[k]);
        }
    }
}

/// What arrives is used: an index that decodes is that of its directory from then
/// on, a manifest that decodes gives the regions, and what does not come leaves
/// them as they were, with a word on why.
pub proof fn law_what_arrives_is_used(
    s: ArchiveState,
    name: Seq<char>,
    other: Seq<char>,
    r: Result<Seq<u8>, Seq<char>>,
    body: Result<Seq<char>, Seq<char>>,
)
    requires
        other != name,
    ensures
        ({
            let after = s.with_index(name, r);
            let d = dir_at(after.dirs, name);
            &&& after.regions == s.regions
            &&& dir_at(after.dirs, other) == dir_at(s.dirs, other)
            &&& match r {
                Ok(bytes) => match index::index_of_bytes(bytes) {
                    Ok(v) => d.state == Fetch::Done && d.index == Some(v),
                    Err(_) => d.state == Fetch::Failed && after.last_error is Some,
                },
                Err(e) => d.state == Fetch::Failed && after.last_error == Some("index: "@ + e),
            }
        }),
        ({
            let after = s.with_manifest(body);
            &&& after.dirs == s.dirs
            &&& match body {
                Ok(text) => match manifest::manifest_of(json::parsed(text)) {
                    Ok(regions) => after.regions == regions && after.manifest_state == Fetch::Done
                        && after.last_error == s.last_error,
                    Err(e) => after.regions == s.regions && after.manifest_state == Fetch::Failed
                        && after.last_error == Some(e),
                },
                Err(e) => after.regions == s.regions && after.manifest_state == Fetch::Failed
                    && after.last_error == Some("manifest: "@ + e),
            }
        }),
{
    lemma_dir_place(s.dirs, name);
    let d = dir_at(s.dirs, name);
    law_directories_are_kept_apart(s.dirs, DirView { state: Fetch::Failed, ..d }, other);
    if let Ok(bytes) = r {
        if let Ok(v) = index::index_of_bytes(bytes) {
            law_directories_are_kept_apart(
                s.dirs,
                DirView { state: Fetch::Done, index: Some(v), ..d },
                other,
            );
        }
    }
}

/// A tile hands out as many identities as it has plain points, downwards, so that
/// no two tiles hand out the same.
pub proof fn law_tiles_hand_out_their_own_identities(
    s: ArchiveState,
    name: Seq<char>,
    t: TileId,
    bytes: Seq<u8>,
    ways: Seq<WayView>,
    more: Seq<WayView>,
)
    ensures
        tile::tile_of_bytes(bytes) == Ok::<_, crate::trailfmt::FormatError>(ways) ==> s.with_tile(
            name,
            t,
            Ok(bytes),
        ).synthetic == s.synthetic - plain_total(ways),
        tile::tile_of_bytes(bytes) is Err ==> s.with_tile(name, t, Ok(bytes)).synthetic
            == s.synthetic,
        plain_total(ways + more) == plain_total(ways) + plain_total(more),
    decreases more.len(),
{
    let all = ways + more;
    if more.len() == 0 {
        assert(all =~= ways);
    } else {
        assert(all.drop_last() =~= ways + more.drop_last());
        law_tiles_hand_out_their_own_identities(s, name, t, bytes, ways, more.drop_last());
    }
}

/// A tile is fetched from its region's directory, by zoom, column and row, and in
/// the order in which tiles were found wanting.
pub proof fn law_a_tile_is_fetched_by_column_and_row(
    base: Seq<char>,
    dir: Seq<char>,
    tiles: Seq<TileId>,
    i: int,
)
    requires
        0 <= i < tiles.len(),
    ensures
        tile_requests(base, dir, tiles).len() == tiles.len(),
        tile_requests(base, dir, tiles)[i] == RequestView::Tile(
            dir,
            tiles[i],
            base + dir + "/"@ + (text::decimal(11) + "/"@ + text::decimal(tiles[i].x as nat) + "/"@
                + text::decimal(tiles[i].y as nat) + ".tft"@),
        ),
{
}

/// A way is made from its archive form point by point: each is placed from its own
/// latitude and longitude, in that order, and shared points keep their ids.
pub proof fn law_a_way_is_made_point_by_point<F: Fn(i64, i64) -> (LatLon, Cell)>(
    added: Seq<(Way, Seq<Cell>)>,
    ways: Seq<WayView>,
    counter: int,
    place: F,
    i: int,
    k: int,
)
    requires
        all_made(added, ways, counter, place),
        0 <= i < ways.len(),
        0 <= k < ways[i].points.len(),
        ways[i].valid(),
    ensures
        added.len() == ways.len(),
        added[i].0.id == ways[i].id,
        way::text_of(added[i].0.name) == ways[i].name,
        added[i].0.kind == way::kind_of_code(ways[i].kind),
        added[i].0.points@.len() == ways[i].points.len(),
        added[i].0.nodes@.len() == ways[i].points.len(),
        call_ensures(
            place,
            (ways[i].points[k].0, ways[i].points[k].1),
            (added[i].0.points@[k], added[i].1[k]),
        ),
        ways[i].shared[k] matches Some(id) ==> added[i].0.nodes@[k] == id,
        1 <= ways[i].sac <= 6 ==> way::text_of(added[i].0.sac_scale) == Some(
            vocabulary::sac_values()[ways[i].sac - 1],
        ),
        ways[i].sac == 0 ==> added[i].0.sac_scale is None,
{
    assert(made_from(
        added[i].0,
        added[i].1,
        ways[i],
        counter - plain_total(ways.take(i)),
        place,
    ));
}

/// A message brings ways where it is a tile that decodes, and only then.
pub proof fn law_only_tiles_bring_ways<F: Fn(i64, i64) -> (LatLon, Cell)>(
    s: ArchiveState,
    n: NetView,
    m: Message,
    s2: ArchiveState,
    n2: NetView,
    place: F,
)
    requires
        stepped(s, n, m, s2, n2, place),
    ensures
        m matches Message::Tile(dir, t, Ok(bytes)) ==> (match tile::tile_of_bytes(bytes@) {
            Ok(ways) => exists|added: Seq<(Way, Seq<Cell>)>| #[trigger]
                all_made(added, ways, s.synthetic, place) && n2 == network::all_admitted(n, added),
            Err(_) => n2 == n,
        }),
        m matches Message::Tile(_, _, Err(_)) ==> n2 == n,
        m is Manifest || m is Index ==> n2 == n,
{
    let added = choose|added: Seq<(Way, Seq<Cell>)>| #[trigger]
        all_made(added, brought(m), s.synthetic, place) && n2 == network::all_admitted(n, added);
    if brought(m).len() == 0 {
        assert(added =~= seq![]);
        assert(network::all_admitted(n, added) == n);
    }
}

/// Tiles are counted over all directories.
pub proof fn law_tiles_are_counted_over_all_directories(dirs: Seq<DirView>, d: DirView)
    ensures
        settled_total(dirs.push(d)) == settled_total(dirs) + d.settled.len(),
        flying_total(dirs.push(d)) == flying_total(dirs) + d.in_flight.len(),
        settled_total(Seq::<DirView>::empty()) == 0,
        flying_total(Seq::<DirView>::empty()) == 0,
{
    assert(dirs.push(d).drop_last() =~= dirs);
}

/// Tiles are found wanting one after the other: a tile more goes behind the others, if
/// it is to be fetched at all.
pub proof fn law_tiles_are_wanted_in_their_order(d: DirView, tiles: Seq<TileId>, t: TileId)
    ensures
        swept(d, tiles.push(t)).1 == swept(d, tiles).1 || swept(d, tiles.push(t)).1 == swept(
            d,
            tiles,
        ).1.push(t),
        swept(d, Seq::<TileId>::empty()).1.len() == 0,
{
    assert(tiles.push(t).drop_last() =~= tiles);
}

} // verus!
