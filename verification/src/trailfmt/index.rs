//! The index of a region: which tiles it holds.
use vstd::prelude::*;

use super::tile::{put_bytes, VERSION};
use super::varint;
use super::varint::{put_u32le, Reader};
use super::FormatError;
use crate::text;
use crate::text::put_decimal;

verus! {

/// Index magic. Distinct from a tile's, so that mixing the two files up is an
/// error rather than a confusing decode failure.
pub const INDEX_MAGIC: [u8; 8] = [84, 70, 73, 68, 88, 48, 48, 49];

/// Zoom of the data grid. At 45 degrees north a tile is about 13.7 km across, so
/// a working radius of 30 km is a block of five by five tiles.
pub const TILE_ZOOM: u8 = 11;

/// A tile of the data grid, on the Web Mercator pyramid.
#[derive(Clone, Copy, Debug, PartialEq, Eq, PartialOrd, Ord, Hash, Structural)]
pub struct TileId {
    pub x: u32,
    pub y: u32,
}

impl TileId {
    /// By column, then by row.
    pub open spec fn before(self, other: TileId) -> bool {
        self.x < other.x || (self.x == other.x && self.y < other.y)
    }

    /// Whether this tile comes first, by column and then by row.
    pub fn comes_before(self, other: TileId) -> (b: bool)
        ensures
            b == self.before(other),
    {
        self.x < other.x || (self.x == other.x && self.y < other.y)
    }
}

/// Every tile comes before the ones behind it, so none occurs twice.
pub open spec fn ascending(tiles: Seq<TileId>) -> bool {
    forall|i: int, j: int|
        0 <= i < j < tiles.len() ==> (#[trigger] tiles[i]).before(#[trigger] tiles[j])
}

/// No tile comes before one that stands ahead of it; one may occur more than once.
pub open spec fn in_order(tiles: Seq<TileId>) -> bool {
    forall|i: int, j: int|
        0 <= i < j < tiles.len() ==> !(#[trigger] tiles[j]).before(#[trigger] tiles[i])
}

/// The tiles in ascending order, each once.
pub open spec fn sorted_once(tiles: Seq<TileId>) -> Seq<TileId>
    decreases tiles.len(),
{
    if tiles.len() == 0 {
        seq![]
    } else {
        put_in(sorted_once(tiles.drop_last()), tiles.last())
    }
}

/// How many tiles of an ascending run come before a tile.
pub open spec fn rank(tiles: Seq<TileId>, t: TileId) -> int
    decreases tiles.len(),
{
    if tiles.len() == 0 || !tiles[0].before(t) {
        0
    } else {
        1 + rank(tiles.skip(1), t)
    }
}

/// An ascending run with one more tile at its place, unless it is there already.
pub open spec fn put_in(tiles: Seq<TileId>, t: TileId) -> Seq<TileId> {
    if tiles.contains(t) {
        tiles
    } else {
        tiles.insert(rank(tiles, t), t)
    }
}

/// Column and row of one tile.
pub open spec fn entry_bytes(t: TileId) -> Seq<u8> {
    varint::u32le_bytes(t.x) + varint::u32le_bytes(t.y)
}

/// The tiles of an index, one behind the other.
pub open spec fn entries_bytes(tiles: Seq<TileId>) -> Seq<u8>
    decreases tiles.len(),
{
    if tiles.len() == 0 {
        seq![]
    } else {
        entries_bytes(tiles.drop_last()) + entry_bytes(tiles.last())
    }
}

/// A whole index: magic, zoom, version, two spare bytes, the number of tiles in
/// thirty-two bits, and the tiles.
pub open spec fn index_bytes(zoom: u8, tiles: Seq<TileId>) -> Seq<u8> {
    INDEX_MAGIC@ + seq![zoom, VERSION, 0, 0] + varint::u32le_bytes(
        (tiles.len() % 0x1_0000_0000) as u32,
    ) + entries_bytes(tiles)
}

/// The tile whose entry stands at `pos`.
pub open spec fn entry_at(bytes: Seq<u8>, pos: int) -> TileId {
    TileId {
        x: varint::u32le_of(bytes.subrange(pos, pos + 4)),
        y: varint::u32le_of(bytes.subrange(pos + 4, pos + 8)),
    }
}

/// What a file decodes to, zoom and tiles. Bytes behind the last tile are not
/// looked at.
pub open spec fn index_of_bytes(bytes: Seq<u8>) -> Result<(u8, Seq<TileId>), FormatError> {
    if bytes.len() < 8 {
        Err(FormatError::Truncated)
    } else if bytes.take(8) != INDEX_MAGIC@ {
        Err(FormatError::BadMagic)
    } else if bytes.len() < 10 {
        Err(FormatError::Truncated)
    } else if bytes[9] != VERSION {
        Err(FormatError::BadVersion(bytes[9]))
    } else if bytes.len() < 16 {
        Err(FormatError::Truncated)
    } else {
        let count = varint::u32le_of(bytes.subrange(12, 16));
        if bytes.len() < 16 + 8 * count {
            Err(FormatError::Truncated)
        } else {
            Ok((bytes[8], Seq::new(count as nat, |i: int| entry_at(bytes, 16 + 8 * i))))
        }
    }
}

spec fn bisect(tiles: Seq<TileId>, lo: int, hi: int, t: TileId) -> bool
    decreases hi - lo,
{
    if lo >= hi {
        false
    } else {
        let mid = lo + (hi - lo) / 2;
        if tiles[mid].before(t) {
            bisect(tiles, mid + 1, hi, t)
        } else if t.before(tiles[mid]) {
            bisect(tiles, lo, mid, t)
        } else {
            true
        }
    }
}

/// Whether a lookup by bisection finds a tile. On tiles in order that is whether
/// it is among them.
pub closed spec fn listed(tiles: Seq<TileId>, t: TileId) -> bool {
    bisect(tiles, 0, tiles.len() as int, t)
}

/// A lookup makes no tile up, and misses none of tiles in order, even where one
/// occurs twice.
pub proof fn law_listed(tiles: Seq<TileId>, t: TileId)
    ensures
        listed(tiles, t) ==> tiles.contains(t),
        in_order(tiles) ==> listed(tiles, t) == tiles.contains(t),
        ascending(tiles) ==> in_order(tiles),
{
    lemma_bisect(tiles, 0, tiles.len() as int, t);
}

proof fn lemma_bisect(tiles: Seq<TileId>, lo: int, hi: int, t: TileId)
    requires
        0 <= lo <= hi <= tiles.len(),
    ensures
        bisect(tiles, lo, hi, t) ==> tiles.contains(t),
        in_order(tiles) && (exists|i: int| lo <= i < hi && #[trigger] tiles[i] == t) ==> bisect(
            tiles,
            lo,
            hi,
            t,
        ),
    decreases hi - lo,
{
    if lo < hi {
        let mid = lo + (hi - lo) / 2;
        if tiles[mid].before(t) {
            lemma_bisect(tiles, mid + 1, hi, t);
        } else if t.before(tiles[mid]) {
            lemma_bisect(tiles, lo, mid, t);
        } else {
            assert(tiles[mid] == t);
        }
    }
}

/// Which tiles a region holds.
///
/// Empty tiles are never published, and this is what lets a reader skip them in
/// place of collecting failed requests.
#[derive(Clone, Debug)]
pub struct Index {
    pub zoom: u8,
    /// Ascending, so that lookups bisect.
    pub tiles: Vec<TileId>,
}

impl Default for Index {
    fn default() -> (index: Self)
        ensures
            index.zoom == 0,
            index.tiles@ == Seq::<TileId>::empty(),
    {
        Index { zoom: 0, tiles: Vec::new() }
    }
}

impl Index {
    /// Whether a tile is listed. On an index out of order a tile may be missed,
    /// but none is made up.
    pub fn has(&self, tile: TileId) -> (b: bool)
        ensures
            b == listed(self.tiles@, tile),
            b ==> self.tiles@.contains(tile),
            in_order(self.tiles@) ==> b == self.tiles@.contains(tile),
    {
        let mut lo: usize = 0;
        let mut hi: usize = self.tiles.len();
        proof {
            law_listed(self.tiles@, tile);
        }
        while lo < hi
            invariant
                lo <= hi <= self.tiles@.len(),
                listed(self.tiles@, tile) == bisect(self.tiles@, lo as int, hi as int, tile),
            decreases hi - lo,
        {
            let mid: usize = lo + (hi - lo) / 2;
            let here: TileId = self.tiles[mid];
            if here.comes_before(tile) {
                lo = mid + 1;
            } else if tile.comes_before(here) {
                hi = mid;
            } else {
                return true;
            }
        }
        false
    }
}

/// Puts a tile at its place in an ascending run.
fn insert_tile(tiles: &mut Vec<TileId>, t: TileId)
    requires
        ascending(old(tiles)@),
    ensures
        final(tiles)@ == put_in(old(tiles)@, t),
        ascending(final(tiles)@),
{
    let ghost before = tiles@;
    let mut lo: usize = 0;
    let mut hi: usize = tiles.len();
    while lo < hi
        invariant
            tiles@ == before,
            ascending(before),
            lo <= hi <= before.len(),
            forall|i: int| 0 <= i < lo ==> (#[trigger] before[i]).before(t),
            forall|i: int| hi <= i < before.len() ==> t.before(#[trigger] before[i]),
        decreases hi - lo,
    {
        let mid: usize = lo + (hi - lo) / 2;
        let here: TileId = tiles[mid];
        if here.comes_before(t) {
            lo = mid + 1;
        } else if t.comes_before(here) {
            hi = mid;
        } else {
            assert(before[mid as int] == t);
            return ;
        }
    }
    proof {
        assert(!before.contains(t));
        lemma_rank(before, t, lo as int);
    }
    tiles.insert(lo, t);
}

/// Encodes an index. The tiles are listed in ascending order, each once,
/// whatever their order and however often they were given.
pub fn write_index(zoom: u8, tiles: &[TileId]) -> (out: Vec<u8>)
    ensures
        out@ == index_bytes(zoom, sorted_once(tiles@)),
{
    let mut sorted: Vec<TileId> = Vec::new();
    let mut i: usize = 0;
    while i < tiles.len()
        invariant
            i <= tiles@.len(),
            ascending(sorted@),
            sorted@ == sorted_once(tiles@.take(i as int)),
        decreases tiles@.len() - i,
    {
        assert(tiles@.take(i + 1).drop_last() =~= tiles@.take(i as int));
        insert_tile(&mut sorted, tiles[i]);
        i = i + 1;
    }
    assert(tiles@.take(i as int) =~= tiles@);
    let mut out: Vec<u8> = Vec::new();
    put_bytes(&mut out, &INDEX_MAGIC);
    out.push(zoom);
    out.push(VERSION);
    out.push(0);
    out.push(0);
    assert(out@ =~= INDEX_MAGIC@ + seq![zoom, VERSION, 0, 0]);
    put_u32le(&mut out, (sorted.len() as u64 % 0x1_0000_0000) as u32);
    let ghost head = out@;
    let mut j: usize = 0;
    while j < sorted.len()
        invariant
            j <= sorted@.len(),
            out@ == head + entries_bytes(sorted@.take(j as int)),
        decreases sorted@.len() - j,
    {
        let ghost held = out@;
        let t: TileId = sorted[j];
        put_u32le(&mut out, t.x);
        put_u32le(&mut out, t.y);
        assert(sorted@.take(j + 1).drop_last() =~= sorted@.take(j as int));
        assert(out@ =~= head + entries_bytes(sorted@.take(j + 1)));
        j = j + 1;
    }
    assert(sorted@.take(j as int) =~= sorted@);
    out
}

/// Decodes an index.
pub fn read_index(bytes: &[u8]) -> (res: Result<Index, FormatError>)
    ensures
        match res {
            Ok(index) => index_of_bytes(bytes@) == Ok::<_, FormatError>((index.zoom, index.tiles@)),
            Err(e) => index_of_bytes(bytes@) == Err::<(u8, Seq<TileId>), FormatError>(e),
        },
{
    let mut r = Reader::new(bytes);
    let magic = match r.take(8) {
        Ok(m) => m,
        Err(e) => {
            return Err(e);
        },
    };
    assert(bytes@.take(8) =~= magic@);
    let mut k: usize = 0;
    while k < 8
        invariant
            k <= 8,
            magic@.len() == 8,
            bytes@.len() >= 8,
            bytes@.take(8) == magic@,
            forall|i: int| 0 <= i < k ==> magic@[i] == INDEX_MAGIC@[i],
        decreases 8 - k,
    {
        if magic[k] != INDEX_MAGIC[k] {
            return Err(FormatError::BadMagic);
        }
        k = k + 1;
    }
    assert(magic@ =~= INDEX_MAGIC@);
    let zoom: u8 = match r.u8() {
        Ok(b) => b,
        Err(e) => {
            return Err(e);
        },
    };
    let version: u8 = match r.u8() {
        Ok(b) => b,
        Err(e) => {
            return Err(e);
        },
    };
    if version != VERSION {
        return Err(FormatError::BadVersion(version));
    }
    match r.take(2) {
        Ok(_) => {},
        Err(e) => {
            return Err(e);
        },
    }
    let count: u32 = match r.u32le() {
        Ok(v) => v,
        Err(e) => {
            return Err(e);
        },
    };
    let mut tiles: Vec<TileId> = Vec::new();
    let mut i: u32 = 0;
    while i < count
        invariant
            r.wf(),
            r.bytes@ == bytes@,
            r.pos == 16 + 8 * i,
            bytes@.len() >= 16,
            bytes@.take(8) == INDEX_MAGIC@,
            bytes@[9] == VERSION,
            count == varint::u32le_of(bytes@.subrange(12, 16)),
            i <= count,
            tiles@ == Seq::new(i as nat, |k: int| entry_at(bytes@, 16 + 8 * k)),
        decreases count - i,
    {
        let x: u32 = match r.u32le() {
            Ok(v) => v,
            Err(e) => {
                return Err(e);
            },
        };
        let y: u32 = match r.u32le() {
            Ok(v) => v,
            Err(e) => {
                return Err(e);
            },
        };
        tiles.push(TileId { x, y });
        assert(tiles@ =~= Seq::new((i + 1) as nat, |k: int| entry_at(bytes@, 16 + 8 * k)));
        i = i + 1;
    }
    Ok(Index { zoom, tiles })
}

/// Path of one tile inside a region's directory: zoom, column and row.
///
/// The conventional tile layout, so that the address is derived rather than
/// looked up.
pub fn tile_path(zoom: u8, tile: TileId) -> (path: String)
    ensures
        path@ == text::decimal(zoom as nat) + "/"@ + text::decimal(tile.x as nat) + "/"@
            + text::decimal(tile.y as nat) + ".tft"@,
{
    let mut path = String::new();
    put_decimal(&mut path, zoom as u64);
    assert(path@ =~= text::decimal(zoom as nat));
    path.append("/");
    put_decimal(&mut path, tile.x as u64);
    path.append("/");
    put_decimal(&mut path, tile.y as u64);
    path.append(".tft");
    path
}

/// The listed tiles are the given ones, in ascending order and each once.
pub proof fn law_sorted_once(tiles: Seq<TileId>)
    ensures
        ascending(sorted_once(tiles)),
        forall|t: TileId| #[trigger] sorted_once(tiles).contains(t) <==> tiles.contains(t),
    decreases tiles.len(),
{
    if tiles.len() > 0 {
        let less = tiles.drop_last();
        law_sorted_once(less);
        let sorted = sorted_once(less);
        let t = tiles.last();
        assert forall|u: TileId| tiles.contains(u) <==> less.contains(u) || u == t by {
            if tiles.contains(u) {
                let k = tiles.index_of(u);
                if k < less.len() {
                    assert(less[k] == u);
                }
            }
            if less.contains(u) {
                let k = less.index_of(u);
                assert(tiles[k] == u);
            }
            assert(tiles[tiles.len() - 1] == t);
        }
        if !sorted.contains(t) {
            let at = rank(sorted, t);
            lemma_rank_bounds(sorted, t);
            let all = sorted.insert(at, t);
            assert forall|i: int, j: int| 0 <= i < j < all.len() implies (
            #[trigger] all[i]).before(#[trigger] all[j]) by {
                if j < at {
                    assert(sorted[i].before(sorted[j]));
                } else if i > at {
                    assert(sorted[i - 1].before(sorted[j - 1]));
                } else if i == at {
                    assert(all[j] == sorted[j - 1]);
                } else if j > at {
                    assert(sorted[i].before(sorted[j - 1]));
                }
            }
            assert forall|u: TileId| #[trigger] all.contains(u) <==> sorted.contains(u) || u
                == t by {
                if all.contains(u) {
                    let k = all.index_of(u);
                    if k < at {
                        assert(sorted[k] == u);
                    } else if k > at {
                        assert(sorted[k - 1] == u);
                    }
                }
                if sorted.contains(u) {
                    let k = sorted.index_of(u);
                    if k < at {
                        assert(all[k] == u);
                    } else {
                        assert(all[k + 1] == u);
                    }
                }
                assert(all[at] == t);
            }
        }
    }
}

/// An index reads back as it was written: the zoom, and the tiles in ascending
/// order, each once.
pub proof fn law_index_roundtrip(zoom: u8, tiles: Seq<TileId>)
    requires
        sorted_once(tiles).len() < 0x1_0000_0000,
    ensures
        index_of_bytes(index_bytes(zoom, sorted_once(tiles))) == Ok::<_, FormatError>(
            (zoom, sorted_once(tiles)),
        ),
{
    lemma_index_read(zoom, sorted_once(tiles));
}

/// The tiles of an index are read as they were written.
#[verifier::spinoff_prover]
#[verifier::rlimit(40)]
proof fn lemma_index_read(zoom: u8, sorted: Seq<TileId>)
    requires
        sorted.len() < 0x1_0000_0000,
    ensures
        index_of_bytes(index_bytes(zoom, sorted)) == Ok::<_, FormatError>((zoom, sorted)),
{
    let bytes = index_bytes(zoom, sorted);
    let body = entries_bytes(sorted);
    lemma_entries(sorted);
    varint::law_u32le_roundtrip(sorted.len() as u32);
    assert(bytes.take(8) =~= INDEX_MAGIC@);
    assert(bytes.subrange(12, 16) =~= varint::u32le_bytes(sorted.len() as u32));
    assert(bytes.subrange(16, bytes.len() as int) =~= body);
    let read = Seq::new(sorted.len(), |i: int| entry_at(bytes, 16 + 8 * i));
    assert forall|i: int| 0 <= i < sorted.len() implies #[trigger] read[i] == sorted[i] by {
        lemma_entry_moved(bytes, body, 8 * i);
        assert(entry_at(body, 8 * i) == sorted[i]);
    }
    assert(read =~= sorted);
}

proof fn lemma_entry_moved(bytes: Seq<u8>, body: Seq<u8>, at: int)
    requires
        bytes.len() >= 16,
        bytes.subrange(16, bytes.len() as int) == body,
        0 <= at,
        at + 8 <= body.len(),
    ensures
        entry_at(bytes, 16 + at) == entry_at(body, at),
{
    assert(bytes.subrange(16 + at, 16 + at + 4) =~= body.subrange(at, at + 4));
    assert(bytes.subrange(16 + at + 4, 16 + at + 8) =~= body.subrange(at + 4, at + 8));
}

/// An index costs sixteen bytes and eight more for each tile it lists.
pub proof fn law_index_size(zoom: u8, tiles: Seq<TileId>)
    ensures
        index_bytes(zoom, sorted_once(tiles)).len() == 16 + 8 * sorted_once(tiles).len(),
        sorted_once(tiles).len() <= tiles.len(),
{
    lemma_sorted_len(tiles);
    lemma_entries(sorted_once(tiles));
}

/// A tile is never taken for an index, nor an index for a tile.
pub proof fn law_files_are_told_apart(
    zoom: u8,
    tiles: Seq<TileId>,
    ways: Seq<super::tile::WayView>,
)
    ensures
        super::tile::tile_of_bytes(index_bytes(zoom, tiles)) == Err::<
            Seq<super::tile::WayView>,
            FormatError,
        >(FormatError::BadMagic),
        super::tile::tile_bytes(ways).len() >= 8 ==> index_of_bytes(super::tile::tile_bytes(ways))
            == Err::<(u8, Seq<TileId>), FormatError>(FormatError::BadMagic),
        super::tile::tile_bytes(ways).len() < 8 ==> index_of_bytes(super::tile::tile_bytes(ways))
            == Err::<(u8, Seq<TileId>), FormatError>(FormatError::Truncated),
{
    let index = index_bytes(zoom, tiles);
    assert(index.take(4)[2] == INDEX_MAGIC@[2]);
    let blob = super::tile::tile_bytes(ways);
    if blob.len() >= 8 {
        assert(blob.take(8)[2] == super::tile::TILE_MAGIC@[2]);
    }
}

proof fn lemma_rank(tiles: Seq<TileId>, t: TileId, at: int)
    requires
        0 <= at <= tiles.len(),
        forall|i: int| 0 <= i < at ==> (#[trigger] tiles[i]).before(t),
        forall|i: int| at <= i < tiles.len() ==> t.before(#[trigger] tiles[i]),
    ensures
        rank(tiles, t) == at,
    decreases tiles.len(),
{
    if tiles.len() > 0 {
        if at > 0 {
            let rest = tiles.skip(1);
            assert forall|i: int| 0 <= i < at - 1 implies (#[trigger] rest[i]).before(t) by {
                assert(rest[i] == tiles[i + 1]);
            }
            assert forall|i: int| at - 1 <= i < rest.len() implies t.before(#[trigger] rest[i]) by {
                assert(rest[i] == tiles[i + 1]);
            }
            lemma_rank(rest, t, at - 1);
        } else {
            assert(t.before(tiles[0]));
        }
    }
}

/// The place of a tile that an ascending run does not hold.
proof fn lemma_rank_bounds(tiles: Seq<TileId>, t: TileId)
    requires
        ascending(tiles),
        !tiles.contains(t),
    ensures
        0 <= rank(tiles, t) <= tiles.len(),
        forall|i: int| 0 <= i < rank(tiles, t) ==> (#[trigger] tiles[i]).before(t),
        forall|i: int| rank(tiles, t) <= i < tiles.len() ==> t.before(#[trigger] tiles[i]),
    decreases tiles.len(),
{
    if tiles.len() > 0 {
        assert(tiles[0] != t);
        let rest = tiles.skip(1);
        if tiles[0].before(t) {
            assert forall|i: int, j: int| 0 <= i < j < rest.len() implies (
            #[trigger] rest[i]).before(#[trigger] rest[j]) by {
                assert(tiles[i + 1].before(tiles[j + 1]));
            }
            assert(!rest.contains(t)) by {
                if rest.contains(t) {
                    let k = rest.index_of(t);
                    assert(tiles[k + 1] == t);
                }
            }
            lemma_rank_bounds(rest, t);
            assert forall|i: int| 0 <= i < rank(tiles, t) implies (#[trigger] tiles[i]).before(
                t,
            ) by {
                if i > 0 {
                    assert(tiles[i] == rest[i - 1]);
                }
            }
            assert forall|i: int| rank(tiles, t) <= i < tiles.len() implies t.before(
                #[trigger] tiles[i],
            ) by {
                assert(tiles[i] == rest[i - 1]);
            }
        } else {
            assert forall|i: int| 0 <= i < tiles.len() implies t.before(#[trigger] tiles[i]) by {
                if i > 0 {
                    assert(tiles[0].before(tiles[i]));
                }
            }
        }
    }
}

proof fn lemma_sorted_len(tiles: Seq<TileId>)
    ensures
        sorted_once(tiles).len() <= tiles.len(),
    decreases tiles.len(),
{
    if tiles.len() > 0 {
        lemma_sorted_len(tiles.drop_last());
        law_sorted_once(tiles.drop_last());
        let sorted = sorted_once(tiles.drop_last());
        if !sorted.contains(tiles.last()) {
            lemma_rank_bounds(sorted, tiles.last());
        }
    }
}

proof fn lemma_entries(tiles: Seq<TileId>)
    ensures
        entries_bytes(tiles).len() == 8 * tiles.len(),
        forall|i: int| #![trigger tiles[i]]
            0 <= i < tiles.len() ==> entry_at(entries_bytes(tiles), 8 * i) == tiles[i],
    decreases tiles.len(),
{
    if tiles.len() > 0 {
        let less = tiles.drop_last();
        let body = entries_bytes(tiles);
        let head = entries_bytes(less);
        lemma_entries(less);
        varint::law_u32le_roundtrip(tiles.last().x);
        varint::law_u32le_roundtrip(tiles.last().y);
        assert forall|i: int| #![trigger tiles[i]] 0 <= i < tiles.len() implies entry_at(
            body,
            8 * i,
        ) == tiles[i] by {
            if i < less.len() {
                assert(less[i] == tiles[i]);
                assert(body.subrange(8 * i, 8 * i + 4) =~= head.subrange(8 * i, 8 * i + 4));
                assert(body.subrange(8 * i + 4, 8 * i + 8) =~= head.subrange(8 * i + 4, 8 * i + 8));
            } else {
                assert(body.subrange(8 * i, 8 * i + 4) =~= varint::u32le_bytes(tiles.last().x));
                assert(body.subrange(8 * i + 4, 8 * i + 8) =~= varint::u32le_bytes(
                    tiles.last().y,
                ));
            }
        }
    }
}

/// What stands where in an index: eight letters, the zoom, the version, two spare
/// bytes, the number of tiles, and from the sixteenth byte on eight bytes for each
/// tile, its column before its row, each with the lowest byte first.
pub proof fn law_layout_of_an_index(zoom: u8, tiles: Seq<TileId>, i: int)
    requires
        tiles.len() <= u32::MAX,
        0 <= i < tiles.len(),
    ensures
        ({
            let bytes = index_bytes(zoom, tiles);
            &&& bytes.len() == 16 + 8 * tiles.len()
            &&& bytes.take(8) == seq![84u8, 70, 73, 68, 88, 48, 48, 49]
            &&& bytes[8] == zoom
            &&& bytes[9] == 1
            &&& bytes[10] == 0
            &&& bytes[11] == 0
            &&& tiles.len() == bytes[12] + 256 * bytes[13] + 0x1_0000 * bytes[14] + 0x100_0000
                * bytes[15]
            &&& tiles[i].x == bytes[16 + 8 * i] + 256 * bytes[17 + 8 * i] + 0x1_0000 * bytes[18 + 8
                * i] + 0x100_0000 * bytes[19 + 8 * i]
            &&& tiles[i].y == bytes[20 + 8 * i] + 256 * bytes[21 + 8 * i] + 0x1_0000 * bytes[22 + 8
                * i] + 0x100_0000 * bytes[23 + 8 * i]
        }),
{
    let bytes = index_bytes(zoom, tiles);
    let body = entries_bytes(tiles);
    let count = varint::u32le_bytes(tiles.len() as u32);
    lemma_entry_bytes(tiles, i);
    assert(bytes.take(8) =~= INDEX_MAGIC@);
    assert(INDEX_MAGIC@ =~= seq![84u8, 70, 73, 68, 88, 48, 48, 49]);
    assert(bytes.subrange(12, 16) =~= count);
    lemma_four(bytes, 12, tiles.len() as u32);
    let e = entry_bytes(tiles[i]);
    assert(bytes.subrange(16 + 8 * i, 24 + 8 * i) =~= body.subrange(8 * i, 8 * i + 8));
    assert(bytes.subrange(16 + 8 * i, 20 + 8 * i) =~= bytes.subrange(
        16 + 8 * i,
        24 + 8 * i,
    ).subrange(0, 4));
    assert(bytes.subrange(20 + 8 * i, 24 + 8 * i) =~= bytes.subrange(
        16 + 8 * i,
        24 + 8 * i,
    ).subrange(4, 8));
    assert(e.subrange(0, 4) =~= varint::u32le_bytes(tiles[i].x));
    assert(e.subrange(4, 8) =~= varint::u32le_bytes(tiles[i].y));
    lemma_four(bytes, 16 + 8 * i, tiles[i].x);
    lemma_four(bytes, 20 + 8 * i, tiles[i].y);
}

proof fn lemma_four(bytes: Seq<u8>, pos: int, v: u32)
    requires
        0 <= pos,
        pos + 4 <= bytes.len(),
        bytes.subrange(pos, pos + 4) == varint::u32le_bytes(v),
    ensures
        v == bytes[pos] + 256 * bytes[pos + 1] + 0x1_0000 * bytes[pos + 2] + 0x100_0000 * bytes[pos
            + 3],
{
    let b = varint::u32le_bytes(v);
    varint::law_u32le_roundtrip(v);
    varint::law_four_bytes_with_the_lowest_first(b);
    assert(b[0] == bytes[pos] && b[1] == bytes[pos + 1] && b[2] == bytes[pos + 2] && b[3]
        == bytes[pos + 3]);
}

proof fn lemma_entry_bytes(tiles: Seq<TileId>, i: int)
    requires
        0 <= i < tiles.len(),
    ensures
        entries_bytes(tiles).len() == 8 * tiles.len(),
        entries_bytes(tiles).subrange(8 * i, 8 * i + 8) == entry_bytes(tiles[i]),
    decreases tiles.len(),
{
    let less = tiles.drop_last();
    let all = entries_bytes(tiles);
    let some = entries_bytes(less);
    if less.len() > 0 {
        lemma_entry_bytes(
            less,
            if i < less.len() {
                i
            } else {
                0
            },
        );
    }
    assert(some.len() == 8 * less.len());
    if i < less.len() {
        assert(all.subrange(8 * i, 8 * i + 8) =~= some.subrange(8 * i, 8 * i + 8));
    } else {
        assert(all.subrange(8 * i, 8 * i + 8) =~= entry_bytes(tiles[i]));
    }
}

/// Tiles are ordered by column, and by row within a column.
pub proof fn law_tiles_are_ordered_by_column(a: TileId, b: TileId)
    ensures
        a.before(b) <==> a.x * 0x1_0000_0000 + a.y < b.x * 0x1_0000_0000 + b.y,
        a.before(b) || b.before(a) || a == b,
{
}

} // verus!
