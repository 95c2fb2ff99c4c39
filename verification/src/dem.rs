//! Elevations: tiles of 256 by 256 numbers of thirty-two bits, little-endian,
//! either as they are or deflated.
use vstd::prelude::*;
use vstd::std_specs::hash::*;

use crate::geo::TILE_PX;
use crate::number::Single;
use crate::text;
use crate::text::put_decimal;
use crate::tiles::cache;
use crate::tiles::cache::{CacheState, TileBytes, TileCache};
use crate::tiles::source::{Dataset, TileDesc};
use crate::trailfmt::varint;

verus! {

broadcast use vstd::std_specs::hash::group_hash_axioms;

/// Zoom of the elevation profile: about five metres per pixel.
pub const DEM_ZOOM: u8 = 14;

/// Zoom that the graph is weighted with: about 38 metres per pixel, but a tile
/// spans some ten kilometres.
pub const GRAPH_DEM_ZOOM: u8 = 11;

/// Elevation requests on the wire. A bound of its own: a long profile asks for
/// hundreds of tiles at once and must not starve the map.
pub const MAX_DEM_REQUESTS: usize = 8;

/// Elevation tiles kept.
pub const DEM_CAPACITY: usize = 128;

/// Elevation tiles decoded in a frame.
pub const DEM_DECODE_BUDGET: usize = 12;

/// The pattern of minus a thousand metres. Tiles on the edge of coverage carry
/// values far below it.
pub const NODATA_BITS: u32 = 0xc47a_0000;

/// Numbers in a tile.
pub const DEM_VALUES: usize = 65_536;

/// Bytes in a tile.
pub const DEM_BYTES: usize = 262_144;

#[derive(Clone, Copy, Debug, PartialEq, Eq, Hash, Structural)]
pub struct DemKey {
    pub z: u8,
    pub col: u32,
    pub row: u32,
}

impl DemKey {
    /// A key as one number.
    pub open spec fn code_of(self) -> u128 {
        (self.z * 0x1_0000_0000_0000_0000 + self.col * 0x1_0000_0000 + self.row) as u128
    }

    /// A key as one number.
    pub fn code(self) -> (c: u128)
        ensures
            c == self.code_of(),
    {
        self.z as u128 * 0x1_0000_0000_0000_0000 + self.col as u128 * 0x1_0000_0000
            + self.row as u128
    }

    /// The tile of a key.
    pub open spec fn desc_of(self) -> TileDesc {
        TileDesc { dataset: Dataset::Elevation, z: self.z, x: self.col, y: self.row }
    }
}

/// Different keys are different numbers.
pub proof fn law_codes_differ(a: DemKey, b: DemKey)
    ensures
        a.code_of() == b.code_of() ==> a == b,
{
}

/// A decoded elevation tile.
#[derive(Clone, Debug)]
pub struct DemTile {
    /// Elevations in metres, row by row from north to south.
    pub values: Vec<Single>,
}

/// An elevation that is no gap in the data.
pub open spec fn is_data(v: Single) -> bool {
    v.finite() && (Single { bits: NODATA_BITS }).below(v)
}

/// The elevation of a pixel, nothing outside the tile or in a gap.
pub open spec fn sample_of(values: Seq<Single>, px: u32, py: u32) -> Option<Single> {
    let i = py * TILE_PX + px;
    if i < values.len() && is_data(values[i]) {
        Some(values[i])
    } else {
        None
    }
}

/// The numbers in some bytes.
pub open spec fn values_of(raw: Seq<u8>) -> Seq<Single> {
    Seq::new(
        raw.len() / 4,
        |i: int| Single { bits: varint::u32le_of(raw.subrange(4 * i, 4 * i + 4)) },
    )
}

/// What is said of a tile of another size.
pub open spec fn size_text(len: nat) -> Seq<char> {
    "unexpected DEM size: "@ + text::decimal(len) + " bytes instead of "@ + text::decimal(
        DEM_BYTES as nat,
    )
}

/// What bytes that were inflated, or not, are worth.
pub open spec fn tile_of_raw(raw: Result<Seq<u8>, Seq<char>>) -> Result<Seq<Single>, Seq<char>> {
    match raw {
        Ok(bytes) => if bytes.len() == DEM_BYTES {
            Ok(values_of(bytes))
        } else {
            Err(size_text(bytes.len()))
        },
        Err(e) => Err("zlib inflate: "@ + e),
    }
}

/// What zlib data inflates to, or what is said of data that does not.
pub uninterp spec fn inflated(bytes: Seq<u8>) -> Result<Seq<u8>, Seq<char>>;

/// What the bytes of a reply are worth.
pub open spec fn bil_of(bytes: Seq<u8>) -> Result<Seq<Single>, Seq<char>> {
    if bytes.len() == DEM_BYTES {
        tile_of_raw(Ok(bytes))
    } else {
        tile_of_raw(inflated(bytes))
    }
}

/// A result by its content.
pub open spec fn tile_view(r: Result<DemTile, String>) -> Result<Seq<Single>, Seq<char>> {
    match r {
        Ok(t) => Ok(t.values@),
        Err(e) => Err(e@),
    }
}

/// `miniz_oxide::inflate::decompress_to_vec_zlib`: the data that a zlib stream
/// holds, or the debug text of the error where it is none. Only that the result
/// is one of the bytes alone is claimed.
#[verifier::external_body]
fn inflate(bytes: &[u8]) -> (r: Result<Vec<u8>, String>)
    ensures
        match r {
            Ok(v) => inflated(bytes@) == Ok::<Seq<u8>, Seq<char>>(v@),
            Err(e) => inflated(bytes@) == Err::<Seq<u8>, Seq<char>>(e@),
        },
{
    miniz_oxide::inflate::decompress_to_vec_zlib(bytes).map_err(|e| format!("{e:?}"))
}

impl DemTile {
    /// The elevation of a pixel, nothing outside the tile or in a gap.
    pub fn sample(&self, px: u32, py: u32) -> (r: Option<Single>)
        ensures
            r == sample_of(self.values@, px, py),
    {
        let i: u64 = py as u64 * 256 + px as u64;
        if i < self.values.len() as u64 {
            let v: Single = self.values[i as usize];
            let floor = Single { bits: NODATA_BITS };
            if floor.lt(v) && v.is_finite() {
                return Some(v);
            }
        }
        None
    }
}

/// Reads a tile from bytes that were inflated, or tells why there is none.
pub fn read_bil(raw: Result<Vec<u8>, String>) -> (r: Result<DemTile, String>)
    ensures
        tile_view(r) == tile_of_raw(
            match raw {
                Ok(v) => Ok(v@),
                Err(e) => Err(e@),
            },
        ),
{
    match raw {
        Ok(bytes) => read_raw(bytes.as_slice()),
        Err(e) => {
            let mut s = "zlib inflate: ".to_owned();
            s.append(e.as_str());
            Err(s)
        },
    }
}

/// Reads a tile from bytes as they are.
fn read_raw(bytes: &[u8]) -> (r: Result<DemTile, String>)
    ensures
        tile_view(r) == tile_of_raw(Ok(bytes@)),
{
    if bytes.len() != DEM_BYTES {
        let mut s = "unexpected DEM size: ".to_owned();
        put_decimal(&mut s, bytes.len() as u64);
        s.append(" bytes instead of ");
        put_decimal(&mut s, DEM_BYTES as u64);
        return Err(s);
    }
    let mut values: Vec<Single> = Vec::new();
    let mut i: usize = 0;
    while i < DEM_VALUES
        invariant
            bytes@.len() == DEM_BYTES,
            i <= DEM_VALUES,
            values@ == values_of(bytes@).take(i as int),
        decreases DEM_VALUES - i,
    {
        let at: usize = 4 * i;
        let bits: u32 = bytes[at] as u32 + 0x100 * bytes[at + 1] as u32 + 0x1_0000
            * bytes[at + 2] as u32 + 0x100_0000 * bytes[at + 3] as u32;
        assert(bits == varint::u32le_of(bytes@.subrange(4 * i, 4 * i + 4)));
        values.push(Single { bits });
        assert(values@ =~= values_of(bytes@).take(i + 1));
        i = i + 1;
    }
    assert(values_of(bytes@).take(i as int) =~= values_of(bytes@));
    Ok(DemTile { values })
}

/// Decodes the bytes of a reply. Bytes of the size of a tile are taken as they
/// are, for some transports inflate on their own. Others are inflated first.
pub fn decode_bil(bytes: &[u8]) -> (r: Result<DemTile, String>)
    ensures
        tile_view(r) == bil_of(bytes@),
{
    if bytes.len() == DEM_BYTES {
        read_raw(bytes)
    } else {
        read_bil(inflate(bytes))
    }
}

/// A decoded tile has a number for each of its pixels.
pub proof fn law_decoded_tiles_are_whole(bytes: Seq<u8>)
    ensures
        bil_of(bytes) matches Ok(values) ==> values.len() == TILE_PX * TILE_PX,
{
}

/// The tile of a pixel that is counted over the whole pyramid.
pub open spec fn key_at(gi: i64, gj: i64, zoom: u8) -> DemKey {
    DemKey {
        z: zoom,
        col: (gi as int / 256 % 0x1_0000_0000) as u32,
        row: (gj as int / 256 % 0x1_0000_0000) as u32,
    }
}

/// The tile index of a pixel, and its place in the tile.
fn split_pixel(g: i64) -> (r: (u32, u32))
    ensures
        r.0 == g as int / 256 % 0x1_0000_0000,
        r.1 == g as int % 256,
{
    if g >= 0 {
        let u: u64 = g as u64;
        ((u / 256 % 0x1_0000_0000) as u32, (u % 256) as u32)
    } else {
        let u: u64 = (-(g + 1)) as u64;
        let q: u64 = u / 256;
        let r: u64 = u % 256;
        proof {
            assert(g as int == -(q as int) * 256 - r - 1);
            assert(g as int / 256 == -(q as int) - 1);
            let m = (q % 0x1_0000_0000) as int;
            let k = (q / 0x1_0000_0000) as int;
            assert(q == k * 0x1_0000_0000 + m);
            assert((-(q as int) - 1) % 0x1_0000_0000 == 0x1_0000_0000 - 1 - m) by (nonlinear_arith)
                requires
                    q == k * 0x1_0000_0000 + m,
                    0 <= m < 0x1_0000_0000,
            ;
        }
        ((0xffff_ffff - q % 0x1_0000_0000) as u32, (255 - r) as u32)
    }
}

/// Decodes an elevation tile for the cache.
fn decode_for_cache(_key: &u128, bytes: &[u8]) -> (r: Result<DemTile, String>)
    ensures
        tile_view(r) == bil_of(bytes@),
{
    decode_bil(bytes)
}

/// The elevation tiles at hand.
pub struct DemStore {
    pub cache: TileCache<u128, DemTile>,
}

/// A frame began: the first replies were decoded, and nothing else has changed
/// but the clock.
pub open spec fn frame_begun(
    before: CacheState<u128, DemTile>,
    after: CacheState<u128, DemTile>,
) -> bool {
    let n = vstd::math::min(DEM_DECODE_BUDGET as int, before.landed.len() as int);
    &&& after.clock == before.clock + 1
    &&& after.asked == Set::<u128>::empty()
    &&& after.landed == before.landed.skip(n)
    &&& after.on_wire == before.on_wire
    &&& after.outbox == before.outbox
    &&& after.capacity == before.capacity
    &&& after.max_in_flight == before.max_in_flight
    &&& forall|i: int| 0 <= i < n ==> reply_settled(after, #[trigger] before.landed[i])
    &&& forall|k: u128|
        (forall|i: int| 0 <= i < n ==> (#[trigger] before.landed[i]).0 != k)
            ==> #[trigger] cache::same_of(before, after, k)
}

/// A reply became a tile, or a failure, as its bytes are worth.
pub open spec fn reply_settled(
    after: CacheState<u128, DemTile>,
    reply: (u128, TileBytes),
) -> bool {
    match reply.1 {
        Ok(bytes) => match bil_of(bytes@) {
            Ok(values) => after.ready.contains_key(reply.0) && after.ready[reply.0].values@
                == values && after.last_used[reply.0] == after.clock,
            Err(e) => after.failed.contains_key(reply.0) && after.failed[reply.0]@ == e,
        },
        Err(e) => after.failed.contains_key(reply.0) && after.failed[reply.0] == e,
    }
}

/// The elevation of a pixel, with what it does to the cache.
pub open spec fn pixel_of(
    s: CacheState<u128, DemTile>,
    gi: i64,
    gj: i64,
    zoom: u8,
) -> (CacheState<u128, DemTile>, Option<Single>) {
    if gj < 0 {
        (s, None)
    } else {
        let key = key_at(gi, gj, zoom);
        (
            s.wanted(key.code_of(), key.desc_of()),
            if s.ready.contains_key(key.code_of()) {
                sample_of(
                    s.ready[key.code_of()].values@,
                    (gi as int % 256) as u32,
                    (gj as int % 256) as u32,
                )
            } else {
                None
            },
        )
    }
}

/// The four pixels from one on, as far as there are any, with what that does to
/// the cache: the first one missing ends it.
pub open spec fn corners_of(
    s: CacheState<u128, DemTile>,
    i: i64,
    j: i64,
    zoom: u8,
) -> (CacheState<u128, DemTile>, Option<(Single, Single, Single, Single)>) {
    let (s1, v00) = pixel_of(s, i, j, zoom);
    if v00 is None {
        (s1, None)
    } else {
        let (s2, v10) = pixel_of(s1, (i + 1) as i64, j, zoom);
        if v10 is None {
            (s2, None)
        } else {
            let (s3, v01) = pixel_of(s2, i, (j + 1) as i64, zoom);
            if v01 is None {
                (s3, None)
            } else {
                let (s4, v11) = pixel_of(s3, (i + 1) as i64, (j + 1) as i64, zoom);
                (
                    s4,
                    match v11 {
                        Some(v) => Some((v00->0, v10->0, v01->0, v)),
                        None => None,
                    },
                )
            }
        }
    }
}

impl DemStore {
    pub open spec fn wf(&self) -> bool {
        self.cache.wf()
    }

    pub fn new() -> (s: Self)
        ensures
            s.wf(),
            s.cache@ == cache::empty_cache::<u128, DemTile>(
                DEM_CAPACITY as nat,
                MAX_DEM_REQUESTS as nat,
            ),
    {
        DemStore { cache: TileCache::new(DEM_CAPACITY, MAX_DEM_REQUESTS) }
    }

    /// Begins a frame and decodes some of the replies. Tells whether any are
    /// left.
    pub fn begin_frame(&mut self) -> (more: bool)
        requires
            old(self).wf(),
            old(self).cache@.clock < u64::MAX,
        ensures
            final(self).wf(),
            frame_begun(old(self).cache@, final(self).cache@),
            more == (old(self).cache@.landed.len() > DEM_DECODE_BUDGET),
    {
        let ghost before = self.cache@;
        self.cache.tick();
        let ghost ticked = self.cache@;
        let more: bool = self.cache.pump(DEM_DECODE_BUDGET, decode_for_cache);
        proof {
            let after = self.cache@;
            let n = vstd::math::min(DEM_DECODE_BUDGET as int, before.landed.len() as int);
            assert forall|i: int| 0 <= i < n implies reply_settled(
                after,
                #[trigger] before.landed[i],
            ) by {
                assert(cache::decoded(after, ticked.landed[i], decode_for_cache));
                let reply = ticked.landed[i];
                if let Ok(bytes) = reply.1 {
                    let (s, r) = choose|s: &[u8], r: Result<DemTile, String>|
                        s@ == bytes@ && #[trigger] call_ensures(
                            decode_for_cache,
                            (&reply.0, s),
                            r,
                        ) && cache::outcome(after, reply.0, r);
                    assert(tile_view(r) == bil_of(bytes@));
                }
            }
            assert forall|k: u128|
                (forall|i: int| 0 <= i < n ==> (#[trigger] before.landed[i]).0
                    != k) implies #[trigger] cache::same_of(before, after, k) by {
                assert forall|i: int| 0 <= i < n implies (#[trigger] ticked.landed[i]).0 != k by {
                    assert(before.landed[i].0 != k);
                }
                assert(cache::same_of(ticked, after, k));
            }
        }
        more
    }

    /// Ends a frame: drops the tiles that were not used for longest.
    pub fn end_frame(&mut self)
        requires
            old(self).wf(),
        ensures
            final(self).wf(),
            cache::evicted(old(self).cache@, final(self).cache@),
    {
        self.cache.evict();
    }

    /// Tiles at hand, pending, and given up.
    pub fn stats(&self) -> (r: (usize, usize, usize))
        requires
            self.wf(),
        ensures
            r.0 == self.cache@.ready.dom().len(),
            r.1 == self.cache@.on_wire.len() + self.cache@.landed.len(),
            r.2 == self.cache@.failed.dom().len(),
    {
        self.cache.stats()
    }

    /// Requests on the wire.
    pub fn in_flight(&self) -> (n: usize)
        requires
            self.wf(),
        ensures
            n == self.cache@.on_wire.len(),
    {
        self.cache.in_flight()
    }

    /// The elevation of one pixel, counted over the whole pyramid. Asks for a
    /// missing tile.
    pub fn pixel(&mut self, gi: i64, gj: i64, zoom: u8) -> (r: Option<Single>)
        requires
            old(self).wf(),
        ensures
            final(self).wf(),
            (final(self).cache@, r) == pixel_of(old(self).cache@, gi, gj, zoom),
    {
        if gj < 0 {
            return None;
        }
        let (col, px) = split_pixel(gi);
        let (row, py) = split_pixel(gj);
        let key = DemKey { z: zoom, col, row };
        let ghost before = self.cache@;
        let code: u128 = key.code();
        let desc = TileDesc { dataset: Dataset::Elevation, z: key.z, x: key.col, y: key.row };
        if !self.cache.ensure(&code, desc) {
            return None;
        }
        let ghost seen = self.cache@;
        match self.cache.peek(&code) {
            Some(tile) => {
                proof {
                    assert(seen.touched(code).last_used =~= seen.last_used);
                }
                tile.sample(px, py)
            },
            None => None,
        }
    }

    /// The four pixels around a place, for an elevation between them. Nothing
    /// where one of them is missing: its tile is asked for, and the caller tries
    /// again in the next frame.
    pub fn corners(&mut self, i: i64, j: i64, zoom: u8) -> (r: Option<
        (Single, Single, Single, Single),
    >)
        requires
            old(self).wf(),
            i < i64::MAX,
            j < i64::MAX,
        ensures
            final(self).wf(),
            (final(self).cache@, r) == corners_of(old(self).cache@, i, j, zoom),
    {
        let v00: Single = match self.pixel(i, j, zoom) {
            Some(v) => v,
            None => {
                return None;
            },
        };
        let v10: Single = match self.pixel(i + 1, j, zoom) {
            Some(v) => v,
            None => {
                return None;
            },
        };
        let v01: Single = match self.pixel(i, j + 1, zoom) {
            Some(v) => v,
            None => {
                return None;
            },
        };
        let v11: Single = match self.pixel(i + 1, j + 1, zoom) {
            Some(v) => v,
            None => {
                return None;
            },
        };
        Some((v00, v10, v01, v11))
    }
}

/// A pixel of a whole tile is the number at its column in its row, rows of two
/// hundred and fifty-six from the north on; it is a gap where that is no finite
/// number or not above minus a thousand metres.
pub proof fn law_a_pixel_stands_in_its_row(values: Seq<Single>, px: u32, py: u32)
    requires
        values.len() == 65_536,
        px < 256,
        py < 256,
    ensures
        match sample_of(values, px, py) {
            Some(v) => v == values[256 * py + px] && v.magnitude() < 0x7f80_0000 && v.place()
                > -0x447a_0000,
            None => {
                let v = values[256 * py + px];
                v.magnitude() >= 0x7f80_0000 || v.place() <= -0x447a_0000
            },
        },
{
}

/// The numbers of a tile are four bytes each, the lowest one first.
pub proof fn law_numbers_have_their_lowest_byte_first(raw: Seq<u8>, i: int)
    requires
        0 <= i,
        4 * i + 4 <= raw.len(),
    ensures
        i < values_of(raw).len(),
        values_of(raw)[i].bits as int % 256 == raw[4 * i],
        values_of(raw)[i].bits as int / 256 % 256 == raw[4 * i + 1],
        values_of(raw)[i].bits as int / 0x1_0000 % 256 == raw[4 * i + 2],
        values_of(raw)[i].bits as int / 0x100_0000 == raw[4 * i + 3],
{
    let b = raw.subrange(4 * i, 4 * i + 4);
    assert(b[0] == raw[4 * i] && b[1] == raw[4 * i + 1] && b[2] == raw[4 * i + 2] && b[3] == raw[4
        * i + 3]);
}

/// Bytes are a tile where they are a quarter of a mebibyte, or inflate to as many;
/// nothing else is. The tile then holds the numbers of those bytes.
pub proof fn law_what_is_a_tile(bytes: Seq<u8>)
    ensures
        bil_of(bytes) is Ok <==> bytes.len() == 262_144 || (inflated(bytes) matches Ok(raw)
            && raw.len() == 262_144),
        bytes.len() == 262_144 ==> bil_of(bytes) == Ok::<_, Seq<char>>(values_of(bytes)),
        bytes.len() != 262_144 && bil_of(bytes) is Ok ==> bil_of(bytes) == Ok::<_, Seq<char>>(
            values_of(inflated(bytes)->Ok_0),
        ),
        bytes.len() != 262_144 ==> (inflated(bytes) matches Err(e) ==> bil_of(bytes)
            == Err::<Seq<Single>, _>("zlib inflate: "@ + e)),
{
}

/// A pixel of the pyramid is looked up in the tile of its column and row, at its
/// place there; a tile that is not at hand is wanted, and gives nothing yet.
pub proof fn law_a_pixel_is_looked_up_in_its_tile(
    s: CacheState<u128, DemTile>,
    zoom: u8,
    col: u32,
    row: u32,
    px: u32,
    py: u32,
)
    requires
        px < 256,
        py < 256,
    ensures
        ({
            let gi = (256 * col + px) as i64;
            let gj = (256 * row + py) as i64;
            let code = (DemKey { z: zoom, col, row }).code_of();
            let desc = TileDesc { dataset: Dataset::Elevation, z: zoom, x: col, y: row };
            let (after, v) = pixel_of(s, gi, gj, zoom);
            &&& after == s.wanted(code, desc)
            &&& v == if s.ready.contains_key(code) {
                sample_of(s.ready[code].values@, px, py)
            } else {
                None
            }
        }),
{
    let gi = (256 * col + px) as i64;
    let gj = (256 * row + py) as i64;
    assert(gi == 256 * col + px && gj == 256 * row + py);
    assert(gi as int / 256 == col && gj as int / 256 == row);
    assert(gi as int % 256 == px && gj as int % 256 == py);
}

/// Four corners are a pixel, the one east of it, the one south of it and the one
/// south-east of it, each as it stands in the tiles at hand; there are none where
/// one of the four is missing.
pub proof fn law_corners_are_four_neighbours(
    s: CacheState<u128, DemTile>,
    i: i64,
    j: i64,
    zoom: u8,
)
    requires
        i < i64::MAX,
        j < i64::MAX,
    ensures
        ({
            let here = pixel_of(s, i, j, zoom).1;
            let east = pixel_of(s, (i + 1) as i64, j, zoom).1;
            let south = pixel_of(s, i, (j + 1) as i64, zoom).1;
            let both = pixel_of(s, (i + 1) as i64, (j + 1) as i64, zoom).1;
            corners_of(s, i, j, zoom).1 == if here is Some && east is Some && south is Some
                && both is Some {
                Some((here->0, east->0, south->0, both->0))
            } else {
                None
            }
        }),
        corners_of(s, i, j, zoom).0.ready == s.ready,
{
    lemma_looking_keeps_tiles(s, i, j, zoom);
    let s1 = pixel_of(s, i, j, zoom).0;
    lemma_looking_keeps_tiles(s1, (i + 1) as i64, j, zoom);
    let s2 = pixel_of(s1, (i + 1) as i64, j, zoom).0;
    lemma_looking_keeps_tiles(s2, i, (j + 1) as i64, zoom);
    let s3 = pixel_of(s2, i, (j + 1) as i64, zoom).0;
    lemma_looking_keeps_tiles(s3, (i + 1) as i64, (j + 1) as i64, zoom);
}

/// Looking for a pixel leaves the tiles at hand as they are.
proof fn lemma_looking_keeps_tiles(s: CacheState<u128, DemTile>, gi: i64, gj: i64, zoom: u8)
    ensures
        pixel_of(s, gi, gj, zoom).0.ready == s.ready,
{
}

/// A frame takes in twelve replies, the oldest first, and leaves the others as they
/// came.
pub proof fn law_a_frame_takes_in_twelve_replies(
    before: CacheState<u128, DemTile>,
    after: CacheState<u128, DemTile>,
    i: int,
)
    requires
        frame_begun(before, after),
        0 <= i < before.landed.len(),
    ensures
        i < 12 ==> (match before.landed[i].1 {
            Ok(bytes) => match bil_of(bytes@) {
                Ok(values) => after.ready.contains_key(before.landed[i].0)
                    && after.ready[before.landed[i].0].values@ == values,
                Err(e) => after.failed.contains_key(before.landed[i].0),
            },
            Err(e) => after.failed.contains_key(before.landed[i].0)
                && after.failed[before.landed[i].0] == e,
        }),
        i >= 12 ==> after.landed[i - 12] == before.landed[i],
        after.landed.len() == before.landed.len() - vstd::math::min(12, before.landed.len() as int),
        after.on_wire == before.on_wire,
{
    if i < 12 {
        assert(reply_settled(after, before.landed[i]));
    }
}

} // verus!
