//! Whether what was written reads back: archives are published without anyone
//! opening them, and a lost way looks like a region without paths.
use vstd::prelude::*;

use super::collect;
use crate::trailfmt::index;
use crate::trailfmt::tile;
use crate::trailfmt::tile::WayView;
use crate::trailfmt::tile_laws;
use crate::trailfmt::{decode_tile, read_index, ArchiveWay, FormatError, Index};

verus! {

/// Why an archive is not published.
#[derive(Debug, PartialEq, Eq, Structural)]
pub enum Defect {
    /// The index does not decode.
    IndexUnreadable(FormatError),
    /// The index is of another zoom.
    WrongZoom,
    /// The index lists another number of tiles than were written.
    TilesMissing,
    /// A tile does not decode.
    TileUnreadable(FormatError),
    /// Ways were lost between encoding and decoding.
    WaysLost,
    /// Points were lost between encoding and decoding.
    PointsLost,
}

/// What an index that was written is worth.
pub open spec fn index_verdict(bytes: Seq<u8>, zoom: u8, published: nat) -> Result<
    (u8, Seq<index::TileId>),
    Defect,
> {
    match index::index_of_bytes(bytes) {
        Err(e) => Err(Defect::IndexUnreadable(e)),
        Ok((z, tiles)) => if z != zoom {
            Err(Defect::WrongZoom)
        } else if tiles.len() != published {
            Err(Defect::TilesMissing)
        } else {
            Ok((z, tiles))
        },
    }
}

/// Reads the index back.
pub fn verify_index(bytes: &[u8], zoom: u8, published: usize) -> (r: Result<Index, Defect>)
    ensures
        match r {
            Ok(i) => index_verdict(bytes@, zoom, published as nat) == Ok::<_, Defect>(
                (i.zoom, i.tiles@),
            ),
            Err(e) => index_verdict(bytes@, zoom, published as nat) == Err::<
                (u8, Seq<index::TileId>),
                Defect,
            >(e),
        },
{
    let found: Index = match read_index(bytes) {
        Ok(i) => i,
        Err(e) => {
            return Err(Defect::IndexUnreadable(e));
        },
    };
    if found.zoom != zoom {
        return Err(Defect::WrongZoom);
    }
    if found.tiles.len() != published {
        return Err(Defect::TilesMissing);
    }
    Ok(found)
}

/// How many ways and points a tile holds, or why it does not decode.
#[verifier::opaque]
pub open spec fn tile_tally(blob: Seq<u8>) -> Result<(nat, nat), FormatError> {
    match tile::tile_of_bytes(blob) {
        Err(e) => Err(e),
        Ok(v) => Ok((v.len(), tile_laws::total_points(v))),
    }
}

/// How many ways and points some tiles hold, or the first that does not decode.
pub open spec fn tally(blobs: Seq<Seq<u8>>) -> Result<(nat, nat), FormatError>
    decreases blobs.len(),
{
    if blobs.len() == 0 {
        Ok((0, 0))
    } else {
        match tally(blobs.drop_last()) {
            Err(e) => Err(e),
            Ok((w, p)) => match tile_tally(blobs.last()) {
                Err(e) => Err(e),
                Ok((v, q)) => Ok((w + v, p + q)),
            },
        }
    }
}

/// What tiles that were written are worth.
pub open spec fn tiles_verdict(blobs: Seq<Seq<u8>>, ways: nat, points: nat) -> Result<(), Defect> {
    match tally(blobs) {
        Err(e) => Err(Defect::TileUnreadable(e)),
        Ok((w, p)) => if w != ways {
            Err(Defect::WaysLost)
        } else if p != points {
            Err(Defect::PointsLost)
        } else {
            Ok(())
        },
    }
}

/// Blobs as plain bytes.
pub open spec fn blob_bytes(blobs: Seq<Vec<u8>>) -> Seq<Seq<u8>> {
    Seq::new(blobs.len(), |i: int| blobs[i]@)
}

/// Counts the points of some ways.
fn count_points(ways: &Vec<ArchiveWay>) -> (n: u128)
    ensures
        n == tile_laws::total_points(tile::views(ways@)),
{
    let ghost all = tile::views(ways@);
    let mut n: u128 = 0;
    let mut i: usize = 0;
    assert(all.skip(0) =~= all);
    while i < ways.len()
        invariant
            i <= ways@.len(),
            all == tile::views(ways@),
            n + tile_laws::total_points(all.skip(i as int)) == tile_laws::total_points(all),
            n <= i * usize::MAX,
        decreases ways@.len() - i,
    {
        assert(all.skip(i as int).skip(1) =~= all.skip(i + 1));
        assert(i * usize::MAX + usize::MAX == (i + 1) * usize::MAX) by (nonlinear_arith);
        assert((i + 1) * usize::MAX <= u64::MAX * u64::MAX) by (nonlinear_arith)
            requires
                i + 1 <= u64::MAX,
                usize::MAX <= u64::MAX,
        ;
        n = n + ways[i].points.len() as u128;
        i = i + 1;
    }
    n
}

/// Reads a tile back, and counts.
fn count_tile(blob: &[u8]) -> (r: Result<(usize, u128), FormatError>)
    ensures
        match r {
            Ok((w, p)) => tile_tally(blob@) == Ok::<(nat, nat), FormatError>(
                (w as nat, p as nat),
            ) && w + 2 * p <= usize::MAX,
            Err(e) => tile_tally(blob@) == Err::<(nat, nat), FormatError>(e),
        },
{
    match decode_tile(blob) {
        Ok(v) => {
            proof {
                lemma_tile_tally(blob@, Ok(tile::views(v@)));
            }
            assert(blob@.len() <= usize::MAX) by {
                vstd::slice::axiom_spec_len(blob);
            }
            let n: usize = v.len();
            Ok((n, count_points(&v)))
        },
        Err(e) => {
            proof {
                lemma_tile_tally(blob@, Err(e));
            }
            Err(e)
        },
    }
}

proof fn lemma_tile_tally(blob: Seq<u8>, ways: Result<Seq<WayView>, FormatError>)
    requires
        tile::tile_of_bytes(blob) == ways,
    ensures
        match ways {
            Ok(v) => tile_tally(blob) == Ok::<(nat, nat), FormatError>(
                (v.len(), tile_laws::total_points(v)),
            ) && v.len() + 2 * tile_laws::total_points(v) <= blob.len(),
            Err(e) => tile_tally(blob) == Err::<(nat, nat), FormatError>(e),
        },
{
    reveal(tile_tally);
    tile_laws::law_tile_size(blob);
}

/// Reads every tile back, and counts.
pub fn verify_tiles(blobs: &Vec<Vec<u8>>, ways: usize, points: u128) -> (r: Result<(), Defect>)
    ensures
        r == tiles_verdict(blob_bytes(blobs@), ways as nat, points as nat),
{
    let ghost all = blob_bytes(blobs@);
    let mut w: u128 = 0;
    let mut p: u128 = 0;
    let mut i: usize = 0;
    while i < blobs.len()
        invariant
            i <= blobs@.len(),
            all == blob_bytes(blobs@),
            tally(all.take(i as int)) == Ok::<(nat, nat), FormatError>((w as nat, p as nat)),
            w + 2 * p <= i * usize::MAX,
        decreases blobs@.len() - i,
    {
        assert(all.take(i + 1).drop_last() =~= all.take(i as int));
        assert(all.take(i + 1).last() == blobs@[i as int]@);
        let (v, q): (usize, u128) = match count_tile(blobs[i].as_slice()) {
            Ok(t) => t,
            Err(e) => {
                proof {
                    lemma_tally_stops(all, i + 1);
                }
                return Err(Defect::TileUnreadable(e));
            },
        };
        proof {
            assert(i * usize::MAX + usize::MAX == (i + 1) * usize::MAX) by (nonlinear_arith);
            assert((i + 1) * usize::MAX <= u64::MAX * u64::MAX) by (nonlinear_arith)
                requires
                    i + 1 <= u64::MAX,
                    usize::MAX <= u64::MAX,
            ;
        }
        w = w + v as u128;
        p = p + q;
        i = i + 1;
    }
    assert(all.take(i as int) =~= all);
    if w != ways as u128 {
        return Err(Defect::WaysLost);
    }
    if p != points {
        return Err(Defect::PointsLost);
    }
    Ok(())
}

proof fn lemma_tally_stops(blobs: Seq<Seq<u8>>, n: int)
    requires
        0 <= n <= blobs.len(),
        tally(blobs.take(n)) is Err,
    ensures
        tally(blobs) == tally(blobs.take(n)),
    decreases blobs.len() - n,
{
    if n == blobs.len() {
        assert(blobs.take(n) =~= blobs);
    } else {
        assert(blobs.take(n + 1).drop_last() =~= blobs.take(n));
        lemma_tally_stops(blobs, n + 1);
    }
}

/// The blobs of tiles, one for each.
pub open spec fn encoded(tiles: Seq<(index::TileId, Seq<WayView>)>) -> Seq<Seq<u8>> {
    Seq::new(tiles.len(), |i: int| tile::tile_bytes(tile::usable(tiles[i].1)))
}

/// Ways that were sorted into tiles and encoded read back without a defect: no
/// way and no point is lost between what was collected and what is published.
pub proof fn law_what_was_assembled_reads_back(
    tiles: Seq<(index::TileId, Seq<WayView>)>,
    kept: Seq<(index::TileId, WayView)>,
)
    requires
        collect::grouped(tiles, kept),
        forall|i: int| 0 <= i < tiles.len() ==> tile_laws::fits((#[trigger] tiles[i]).1),
        forall|j: int| 0 <= j < kept.len() ==> (#[trigger] kept[j]).1.valid(),
    ensures
        tiles_verdict(encoded(tiles), kept.len(), collect::points_in(kept)) == Ok::<(), Defect>(()),
{
    lemma_tally_of_encoded(tiles, kept, tiles.len() as int);
    assert(encoded(tiles).take(tiles.len() as int) =~= encoded(tiles));
    lemma_held(tiles, kept);
}

/// Ways of the first `n` tiles.
spec fn held(
    tiles: Seq<(index::TileId, Seq<WayView>)>,
    kept: Seq<(index::TileId, WayView)>,
    n: int,
) -> (nat, nat)
    decreases n,
{
    if n <= 0 {
        (0, 0)
    } else {
        let (w, p) = held(tiles, kept, n - 1);
        let ways = collect::ways_in(kept, tiles[n - 1].0);
        (w + ways.len(), p + tile_laws::total_points(ways))
    }
}

proof fn lemma_tally_of_encoded(
    tiles: Seq<(index::TileId, Seq<WayView>)>,
    kept: Seq<(index::TileId, WayView)>,
    n: int,
)
    requires
        0 <= n <= tiles.len(),
        collect::grouped(tiles, kept),
        forall|i: int| 0 <= i < tiles.len() ==> tile_laws::fits((#[trigger] tiles[i]).1),
        forall|j: int| 0 <= j < kept.len() ==> (#[trigger] kept[j]).1.valid(),
    ensures
        tally(encoded(tiles).take(n)) == Ok::<(nat, nat), FormatError>(held(tiles, kept, n)),
    decreases n,
{
    if n > 0 {
        lemma_tally_of_encoded(tiles, kept, n - 1);
        assert(encoded(tiles).take(n).drop_last() =~= encoded(tiles).take(n - 1));
        let ways = tiles[n - 1].1;
        lemma_ways_in_are_valid(kept, tiles[n - 1].0);
        lemma_all_usable(ways);
        reveal(tile_tally);
        tile_laws::law_tile_roundtrip(ways);
        lemma_received_points(ways);
    }
}

proof fn lemma_ways_in_are_valid(kept: Seq<(index::TileId, WayView)>, t: index::TileId)
    requires
        forall|j: int| 0 <= j < kept.len() ==> (#[trigger] kept[j]).1.valid(),
    ensures
        forall|i: int|
            0 <= i < collect::ways_in(kept, t).len() ==> (#[trigger] collect::ways_in(
                kept,
                t,
            )[i]).valid(),
    decreases kept.len(),
{
    if kept.len() > 0 {
        assert forall|j: int| 0 <= j < kept.drop_last().len() implies (
        #[trigger] kept.drop_last()[j]).1.valid() by {
            assert(kept.drop_last()[j] == kept[j]);
        }
        let before = collect::ways_in(kept.drop_last(), t);
        lemma_ways_in_are_valid(kept.drop_last(), t);
        assert(kept[kept.len() - 1].1.valid());
        assert forall|i: int| 0 <= i < collect::ways_in(kept, t).len() implies (
        #[trigger] collect::ways_in(kept, t)[i]).valid() by {
            if i < before.len() {
                assert(collect::ways_in(kept, t)[i] == before[i]);
            }
        }
    }
}

proof fn lemma_all_usable(ways: Seq<WayView>)
    requires
        forall|i: int| 0 <= i < ways.len() ==> (#[trigger] ways[i]).valid(),
    ensures
        tile::usable(ways) == ways,
    decreases ways.len(),
{
    if ways.len() > 0 {
        assert forall|i: int| 0 <= i < ways.skip(1).len() implies (#[trigger] ways.skip(
            1,
        )[i]).valid() by {
            assert(ways.skip(1)[i] == ways[i + 1]);
        }
        lemma_all_usable(ways.skip(1));
        assert(ways =~= seq![ways[0]] + ways.skip(1));
    } else {
        assert(ways =~= seq![]);
    }
}

proof fn lemma_received_points(ways: Seq<WayView>)
    ensures
        tile_laws::total_points(tile_laws::received(ways)) == tile_laws::total_points(ways),
    decreases ways.len(),
{
    if ways.len() > 0 {
        lemma_received_points(ways.skip(1));
        assert(tile_laws::received(ways).skip(1) =~= tile_laws::received(ways.skip(1)));
    }
}

proof fn lemma_points_push(ways: Seq<WayView>, w: WayView)
    ensures
        tile_laws::total_points(ways.push(w)) == tile_laws::total_points(ways) + w.points.len(),
    decreases ways.len(),
{
    if ways.len() > 0 {
        lemma_points_push(ways.skip(1), w);
        assert(ways.push(w).skip(1) =~= ways.skip(1).push(w));
        assert(ways.push(w)[0] == ways[0]);
    } else {
        assert(ways.push(w).skip(1) =~= seq![]);
        assert(tile_laws::total_points(ways.push(w).skip(1)) == 0);
    }
}

/// The tiles hold every way once.
proof fn lemma_held(
    tiles: Seq<(index::TileId, Seq<WayView>)>,
    kept: Seq<(index::TileId, WayView)>,
)
    requires
        forall|i: int, j: int|
            0 <= i < j < tiles.len() ==> (#[trigger] tiles[i]).0.before((#[trigger] tiles[j]).0),
        forall|j: int| 0 <= j < kept.len() ==> collect::has_tile(tiles, (#[trigger] kept[j]).0),
    ensures
        held(tiles, kept, tiles.len() as int) == (kept.len(), collect::points_in(kept)),
    decreases kept.len(),
{
    let n = tiles.len() as int;
    if kept.len() == 0 {
        lemma_held_of_none(tiles, kept, n);
    } else {
        let less = kept.drop_last();
        assert forall|j: int| 0 <= j < less.len() implies collect::has_tile(
            tiles,
            (#[trigger] less[j]).0,
        ) by {
            assert(less[j] == kept[j]);
        }
        lemma_held(tiles, less);
        let t = kept.last().0;
        assert(collect::has_tile(tiles, kept[kept.len() - 1].0));
        let at = choose|i: int| 0 <= i < tiles.len() && (#[trigger] tiles[i]).0 == t;
        lemma_held_step(tiles, kept, at, n);
    }
}

proof fn lemma_held_of_none(
    tiles: Seq<(index::TileId, Seq<WayView>)>,
    kept: Seq<(index::TileId, WayView)>,
    n: int,
)
    requires
        kept.len() == 0,
        0 <= n <= tiles.len(),
    ensures
        held(tiles, kept, n) == (0nat, 0nat),
    decreases n,
{
    if n > 0 {
        lemma_held_of_none(tiles, kept, n - 1);
    }
}

/// One more way adds to the one tile that is its own.
proof fn lemma_held_step(
    tiles: Seq<(index::TileId, Seq<WayView>)>,
    kept: Seq<(index::TileId, WayView)>,
    at: int,
    n: int,
)
    requires
        forall|i: int, j: int|
            0 <= i < j < tiles.len() ==> (#[trigger] tiles[i]).0.before((#[trigger] tiles[j]).0),
        kept.len() > 0,
        0 <= at < tiles.len(),
        tiles[at].0 == kept.last().0,
        0 <= n <= tiles.len(),
    ensures
        ({
            let (w, p) = held(tiles, kept.drop_last(), n);
            held(tiles, kept, n) == if at < n {
                (w + 1, p + kept.last().1.points.len())
            } else {
                (w, p)
            }
        }),
    decreases n,
{
    if n > 0 {
        lemma_held_step(tiles, kept, at, n - 1);
        let here = tiles[n - 1].0;
        if n - 1 == at {
            lemma_points_push(collect::ways_in(kept.drop_last(), here), kept.last().1);
        } else {
            assert(here != tiles[at].0);
        }
    }
}

/// What is lost is found: tiles pass only where every one of them decodes and they
/// hold as many ways and points together as were meant to be there.
pub proof fn law_a_loss_is_found(blobs: Seq<Seq<u8>>, more: Seq<Seq<u8>>, ways: nat, points: nat)
    ensures
        tiles_verdict(blobs, ways, points) is Ok <==> tally(blobs) == Ok::<_, FormatError>(
            (ways, points),
        ),
        tally(blobs + more) is Ok <==> tally(blobs) is Ok && tally(more) is Ok,
        tally(blobs + more) matches Ok((w, p)) ==> w == (tally(blobs)->Ok_0).0 + (tally(
            more,
        )->Ok_0).0 && p == (tally(blobs)->Ok_0).1 + (tally(more)->Ok_0).1,
    decreases more.len(),
{
    let all = blobs + more;
    if more.len() == 0 {
        assert(all =~= blobs);
    } else {
        assert(all.drop_last() =~= blobs + more.drop_last());
        law_a_loss_is_found(blobs, more.drop_last(), ways, points);
    }
}

/// An index passes where it reads back with the zoom and as many tiles as were
/// published; one that was just written does.
pub proof fn law_a_written_index_passes(zoom: u8, tiles: Seq<index::TileId>, bytes: Seq<u8>)
    requires
        index::sorted_once(tiles).len() <= u32::MAX,
    ensures
        index_verdict(
            index::index_bytes(zoom, index::sorted_once(tiles)),
            zoom,
            index::sorted_once(tiles).len(),
        ) == Ok::<_, Defect>((zoom, index::sorted_once(tiles))),
        index_verdict(bytes, zoom, tiles.len()) matches Ok((z, t)) ==> z == zoom && t.len()
            == tiles.len() && index::index_of_bytes(bytes) == Ok::<_, FormatError>((z, t)),
        index::index_of_bytes(bytes) matches Ok((z, t)) ==> (z == zoom && t.len() == tiles.len()
            ==> index_verdict(bytes, zoom, tiles.len()) is Ok),
{
    index::law_index_roundtrip(zoom, tiles);
}

/// What a tile counts for: its ways and their points, where it decodes.
pub proof fn law_what_a_tile_counts_for(blob: Seq<u8>)
    ensures
        match tile::tile_of_bytes(blob) {
            Ok(ways) => tile_tally(blob) == Ok::<_, FormatError>(
                (ways.len(), tile_laws::total_points(ways)),
            ),
            Err(e) => tile_tally(blob) == Err::<(nat, nat), _>(e),
        },
        tally(seq![blob]) == tile_tally(blob),
{
    reveal(tile_tally);
    reveal_with_fuel(tally, 2);
    assert(seq![blob].drop_last() =~= Seq::<Seq<u8>>::empty());
}

} // verus!
