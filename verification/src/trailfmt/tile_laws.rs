//! What holds of tile blobs as a whole: nothing is lost on the way, and a blob
//! that is cut short is never taken for another.
use vstd::arithmetic::power2::*;
use vstd::prelude::*;
use vstd::utf8::*;

use super::tile;
use super::tile::WayView;
use super::varint;
use super::FormatError;

verus! {

/// The lengths of a way fit the numbers that carry them.
pub open spec fn way_fits(w: WayView) -> bool {
    &&& tile::name_bytes(w.name).len() <= u64::MAX
    &&& w.points.len() <= u64::MAX
}

/// The lengths of all ways, and their number, fit the numbers that carry them.
pub open spec fn fits(ways: Seq<WayView>) -> bool {
    &&& ways.len() <= u64::MAX
    &&& forall|i: int| 0 <= i < ways.len() ==> way_fits(#[trigger] ways[i])
}

/// The ways as they come out at the other end.
pub open spec fn received(ways: Seq<WayView>) -> Seq<WayView> {
    Seq::new(ways.len(), |i: int| ways[i].on_wire())
}

/// A tile decodes to the valid ways that were encoded, in their order, each
/// whole but for what the wire does not carry.
pub proof fn law_tile_roundtrip(ways: Seq<WayView>)
    requires
        fits(ways),
    ensures
        tile::tile_of_bytes(tile::tile_bytes(tile::usable(ways))) == Ok::<_, FormatError>(
            received(tile::usable(ways)),
        ),
{
    let kept = tile::usable(ways);
    lemma_usable(ways);
    let bytes = tile::tile_bytes(kept);
    lemma_header(kept);
    let start = 5 + varint::uvarint_bytes(kept.len()).len();
    lemma_ways_roundtrip(bytes, start as int, kept, 0);
}

/// Every proper prefix of an encoded tile is refused as truncated: a cut never
/// yields ways, neither the right ones nor others.
pub proof fn law_cut_tile_is_truncated(ways: Seq<WayView>, cut: int)
    requires
        fits(ways),
        0 <= cut < tile::tile_bytes(tile::usable(ways)).len(),
    ensures
        tile::tile_of_bytes(tile::tile_bytes(tile::usable(ways)).take(cut)) == Err::<
            Seq<WayView>,
            FormatError,
        >(FormatError::Truncated),
{
    let kept = tile::usable(ways);
    lemma_usable(ways);
    let bytes = tile::tile_bytes(kept);
    lemma_header(kept);
    let start = 5 + varint::uvarint_bytes(kept.len()).len();
    lemma_ways_roundtrip(bytes, start as int, kept, 0);
    if cut >= 4 {
        assert(bytes.take(cut).take(4) =~= bytes.take(4));
        if cut >= 5 {
            assert(bytes.take(cut)[4] == bytes[4]);
            varint::law_uvarint_prefix(bytes, 5, cut);
            if cut >= start {
                lemma_ways_prefix(bytes, start as int, kept, 0, cut);
            }
        }
    }
}

/// Whatever the bytes, a way that comes out of a tile has its points and
/// identities lined up, and at least two of them.
pub proof fn law_decoded_ways_are_valid(bytes: Seq<u8>)
    ensures
        tile::tile_of_bytes(bytes) matches Ok(ways) ==> forall|i: int|
            0 <= i < ways.len() ==> (#[trigger] ways[i]).valid() && ways[i].kind < 16
                && ways[i].sac < 16,
{
    if tile::tile_of_bytes(bytes) is Ok {
        let (count, start) = varint::uvarint_at(bytes, 5)->0;
        lemma_ways_valid(bytes, start, count as nat, 0);
    }
}

/// A tile without ways is its header alone, six bytes, and any way makes it
/// longer.
pub proof fn law_empty_tile(ways: Seq<WayView>)
    ensures
        tile::tile_bytes(seq![]).len() == 6,
        tile::usable(ways).len() > 0 ==> tile::tile_bytes(tile::usable(ways)).len() > 6,
{
    let kept = tile::usable(ways);
    assert(tile::ways_bytes(seq![], 0) =~= seq![]);
    assert(varint::uvarint_bytes(0).len() == 1);
    if kept.len() > 0 {
        assert(tile::way_bytes(kept[0], 0).len() >= 1);
        assert(varint::uvarint_bytes(kept.len()).len() >= 1);
    }
}

/// A name costs its bytes, and the bytes of its length: nothing else of the way
/// changes.
pub proof fn law_name_cost(w: WayView, prev_id: i64)
    ensures
        tile::way_bytes(w, prev_id).len() - tile::way_bytes(
            WayView { name: None, ..w },
            prev_id,
        ).len() == tile::name_bytes(w.name).len() + varint::uvarint_bytes(
            tile::name_bytes(w.name).len(),
        ).len() - 1,
{
    assert(varint::uvarint_bytes(0).len() == 1);
}

/// How many points some ways have.
pub open spec fn total_points(ways: Seq<WayView>) -> nat
    decreases ways.len(),
{
    if ways.len() == 0 {
        0
    } else {
        ways[0].points.len() + total_points(ways.skip(1))
    }
}

/// A tile has no more ways, and no more points, than bytes.
pub proof fn law_tile_size(bytes: Seq<u8>)
    ensures
        tile::tile_of_bytes(bytes) matches Ok(ways) ==> ways.len() + 2 * total_points(ways)
            <= bytes.len(),
{
    if tile::tile_of_bytes(bytes) is Ok {
        let (count, start) = varint::uvarint_at(bytes, 5)->0;
        varint::law_uvarint_prefix(bytes, 5, bytes.len() as int);
        lemma_ways_size(bytes, start, count as nat, 0);
    }
}

proof fn lemma_ways_size(bytes: Seq<u8>, pos: int, count: nat, prev_id: i64)
    requires
        0 <= pos <= bytes.len(),
    ensures
        tile::ways_at(bytes, pos, count, prev_id) matches Ok(ways) ==> ways.len() + 2
            * total_points(ways) <= bytes.len() - pos,
    decreases count,
{
    if count > 0 {
        if let Ok((w, next)) = tile::way_at(bytes, pos, prev_id) {
            let full = bytes.len() as int;
            lemma_way_prefix(bytes, pos, prev_id, full);
            let p1 = (varint::ivarint_at(bytes, pos)->0).1;
            varint::law_ivarint_prefix(bytes, pos, full);
            let p4 = (tile::name_at(bytes, p1 + 1)->0).1;
            let p3 = (varint::uvarint_at(bytes, p1 + 1)->0).1;
            varint::law_uvarint_prefix(bytes, p1 + 1, full);
            let (n, p5) = varint::uvarint_at(bytes, p4)->0;
            varint::law_uvarint_prefix(bytes, p4, full);
            let p6 = p5 + (n + 7) / 8;
            let mask = bytes.subrange(p5, p6);
            let p7 = (tile::shared_at(bytes, p6, mask, 0, n as int, 0)->0).1;
            lemma_shared_prefix(bytes, p6, mask, 0, n as int, 0, full);
            lemma_points_len(bytes, p7, n as int, (0, 0));
            lemma_points_size(bytes, p7, n as int, (0, 0));
            lemma_ways_size(bytes, next, (count - 1) as nat, w.id);
            if let Ok(rest) = tile::ways_at(bytes, next, (count - 1) as nat, w.id) {
                assert((seq![w] + rest).skip(1) =~= rest);
            }
        }
    }
}

proof fn lemma_points_size(bytes: Seq<u8>, pos: int, n: int, prev: (i64, i64))
    requires
        0 <= pos <= bytes.len(),
        0 <= n,
    ensures
        tile::points_at(bytes, pos, n, prev) matches Some((s, next)) ==> pos + 2 * n <= next
            <= bytes.len(),
    decreases n,
{
    if n > 0 {
        if let Some((p, next)) = tile::point_at(bytes, pos, prev) {
            let full = bytes.len() as int;
            varint::law_ivarint_prefix(bytes, pos, full);
            varint::law_ivarint_prefix(bytes, (varint::ivarint_at(bytes, pos)->0).1, full);
            lemma_points_size(bytes, next, n - 1, p);
        }
    }
}

proof fn lemma_usable(ways: Seq<WayView>)
    requires
        fits(ways),
    ensures
        fits(tile::usable(ways)),
        tile::usable(ways).len() <= ways.len(),
        forall|i: int|
            0 <= i < tile::usable(ways).len() ==> (#[trigger] tile::usable(ways)[i]).valid(),
    decreases ways.len(),
{
    if ways.len() > 0 {
        assert forall|i: int| 0 <= i < ways.skip(1).len() implies way_fits(
            #[trigger] ways.skip(1)[i],
        ) by {
            assert(ways.skip(1)[i] == ways[i + 1]);
        }
        lemma_usable(ways.skip(1));
        let rest = tile::usable(ways.skip(1));
        if ways[0].valid() {
            assert forall|i: int| 0 <= i < tile::usable(ways).len() implies (
            #[trigger] tile::usable(ways)[i]).valid() && way_fits(tile::usable(ways)[i]) by {
                if i > 0 {
                    assert(tile::usable(ways)[i] == rest[i - 1]);
                }
            }
        }
    }
}

/// The header of a tile is what a reader looks for.
proof fn lemma_header(ways: Seq<WayView>)
    requires
        ways.len() <= u64::MAX,
    ensures
        ({
            let bytes = tile::tile_bytes(ways);
            let start = 5 + varint::uvarint_bytes(ways.len()).len();
            &&& bytes.len() >= 5
            &&& bytes.take(4) == tile::TILE_MAGIC@
            &&& bytes[4] == tile::VERSION
            &&& varint::uvarint_at(bytes, 5) == Some((ways.len() as u64, start as int))
            &&& varint::holds_at(bytes, start as int, tile::ways_bytes(ways, 0))
            &&& start + tile::ways_bytes(ways, 0).len() == bytes.len()
        }),
{
    let bytes = tile::tile_bytes(ways);
    let count = varint::uvarint_bytes(ways.len());
    let body = tile::ways_bytes(ways, 0);
    assert(bytes.take(4) =~= tile::TILE_MAGIC@);
    assert(bytes.subrange(5, bytes.len() as int) =~= count + body);
    assert(varint::holds_at(bytes, 5, count + body));
    varint::lemma_holds_split(bytes, 5, count, body);
    varint::law_uvarint_roundtrip(bytes, 5, ways.len() as u64);
}

/// A bit of a mask is set where the point is shared.
proof fn lemma_mask(shared: Seq<Option<i64>>, i: int)
    requires
        0 <= i < shared.len(),
    ensures
        tile::mask_has(tile::mask_bytes(shared), i) == (shared[i] is Some),
{
    let j = i / 8;
    let b = i % 8;
    reveal_with_fuel(tile::mask_bits, 9);
    assert(i == 8 * j + b);
    let v = tile::mask_bits(shared, j, 8);
    let m = tile::mask_bytes(shared);
    assert(0 <= j < (shared.len() + 7) / 8);
    assert(m[j] == v);
    let s0 = tile::shared_bit(shared, 8 * j);
    let s1 = tile::shared_bit(shared, 8 * j + 1);
    let s2 = tile::shared_bit(shared, 8 * j + 2);
    let s3 = tile::shared_bit(shared, 8 * j + 3);
    let s4 = tile::shared_bit(shared, 8 * j + 4);
    let s5 = tile::shared_bit(shared, 8 * j + 5);
    let s6 = tile::shared_bit(shared, 8 * j + 6);
    let s7 = tile::shared_bit(shared, 8 * j + 7);
    assert(v == s0 + 2 * s1 + 4 * s2 + 8 * s3 + 16 * s4 + 32 * s5 + 64 * s6 + 128 * s7);
    if b == 0 {
        assert(v % 2 == s0);
    } else if b == 1 {
        assert(v / 2 % 2 == s1);
    } else if b == 2 {
        assert(v / 4 % 2 == s2);
    } else if b == 3 {
        assert(v / 8 % 2 == s3);
    } else if b == 4 {
        assert(v / 16 % 2 == s4);
    } else if b == 5 {
        assert(v / 32 % 2 == s5);
    } else if b == 6 {
        assert(v / 64 % 2 == s6);
    } else {
        assert(v / 128 % 2 == s7);
    }
}

proof fn lemma_shared_roundtrip(
    bytes: Seq<u8>,
    pos: int,
    shared: Seq<Option<i64>>,
    i: int,
    prev: i64,
)
    requires
        0 <= i <= shared.len(),
        varint::holds_at(bytes, pos, tile::shared_bytes(shared.skip(i), prev)),
    ensures
        tile::shared_at(bytes, pos, tile::mask_bytes(shared), i, shared.len() as int, prev) == Some(
            (shared.skip(i), pos + tile::shared_bytes(shared.skip(i), prev).len()),
        ),
    decreases shared.len() - i,
{
    let rest = shared.skip(i);
    if i < shared.len() {
        lemma_mask(shared, i);
        assert(rest.skip(1) =~= shared.skip(i + 1));
        assert(rest[0] == shared[i]);
        match shared[i] {
            Some(id) => {
                let d = id.wrapping_sub(prev);
                varint::lemma_holds_split(
                    bytes,
                    pos,
                    varint::ivarint_bytes(d),
                    tile::shared_bytes(rest.skip(1), id),
                );
                varint::law_ivarint_roundtrip(bytes, pos, d);
                assert(prev.wrapping_add(d) == id);
                lemma_shared_roundtrip(
                    bytes,
                    pos + varint::ivarint_bytes(d).len(),
                    shared,
                    i + 1,
                    id,
                );
                assert(seq![Some(id)] + shared.skip(i + 1) =~= rest);
            },
            None => {
                lemma_shared_roundtrip(bytes, pos, shared, i + 1, prev);
                assert(seq![None] + shared.skip(i + 1) =~= rest);
            },
        }
    } else {
        assert(rest =~= seq![]);
    }
}

proof fn lemma_points_roundtrip(
    bytes: Seq<u8>,
    pos: int,
    points: Seq<(i64, i64)>,
    prev: (i64, i64),
)
    requires
        varint::holds_at(bytes, pos, tile::point_bytes(points, prev)),
    ensures
        tile::points_at(bytes, pos, points.len() as int, prev) == Some(
            (points, pos + tile::point_bytes(points, prev).len()),
        ),
    decreases points.len(),
{
    if points.len() > 0 {
        let q = points[0];
        let dlat = q.0.wrapping_sub(prev.0);
        let dlon = q.1.wrapping_sub(prev.1);
        let lat = varint::ivarint_bytes(dlat);
        let lon = varint::ivarint_bytes(dlon);
        let tail = tile::point_bytes(points.skip(1), q);
        varint::lemma_holds_split(bytes, pos, lat, lon + tail);
        varint::lemma_holds_split(bytes, pos + lat.len(), lon, tail);
        varint::law_ivarint_roundtrip(bytes, pos, dlat);
        varint::law_ivarint_roundtrip(bytes, pos + lat.len(), dlon);
        assert(prev.0.wrapping_add(dlat) == q.0);
        assert(prev.1.wrapping_add(dlon) == q.1);
        lemma_points_roundtrip(bytes, pos + lat.len() + lon.len(), points.skip(1), q);
        assert(seq![q] + points.skip(1) =~= points);
    } else {
        assert(points =~= seq![]);
    }
}

proof fn lemma_way_roundtrip(bytes: Seq<u8>, pos: int, w: WayView, prev_id: i64)
    requires
        varint::holds_at(bytes, pos, tile::way_bytes(w, prev_id)),
        w.valid(),
        way_fits(w),
    ensures
        tile::way_at(bytes, pos, prev_id) == Ok::<_, FormatError>(
            (w.on_wire(), pos + tile::way_bytes(w, prev_id).len()),
        ),
{
    let d = w.id.wrapping_sub(prev_id);
    let id = varint::ivarint_bytes(d);
    let class = seq![tile::packed(w.kind, w.sac)];
    let name = tile::name_bytes(w.name);
    let name_len = varint::uvarint_bytes(name.len());
    let len = varint::uvarint_bytes(w.points.len());
    let mask = tile::mask_bytes(w.shared);
    let ids = tile::shared_bytes(w.shared, 0);
    let points = tile::point_bytes(w.points, (0, 0));
    let p1 = pos + id.len();
    let p2 = p1 + 1;
    let p3 = p2 + name_len.len();
    let p4 = p3 + name.len();
    let p5 = p4 + len.len();
    let p6 = p5 + mask.len();
    let p7 = p6 + ids.len();
    varint::lemma_holds_split(
        bytes,
        pos,
        id,
        class + (name_len + (name + (len + (mask + (ids + points))))),
    );
    varint::lemma_holds_split(
        bytes,
        p1,
        class,
        name_len + (name + (len + (mask + (ids + points)))),
    );
    varint::lemma_holds_split(bytes, p2, name_len, name + (len + (mask + (ids + points))));
    varint::lemma_holds_split(bytes, p3, name, len + (mask + (ids + points)));
    varint::lemma_holds_split(bytes, p4, len, mask + (ids + points));
    varint::lemma_holds_split(bytes, p5, mask, ids + points);
    varint::lemma_holds_split(bytes, p6, ids, points);
    varint::law_ivarint_roundtrip(bytes, pos, d);
    assert(prev_id.wrapping_add(d) == w.id);
    assert(bytes[p1] == bytes.subrange(p1, p1 + 1)[0]);
    assert(bytes[p1] == tile::packed(w.kind, w.sac));
    varint::law_uvarint_roundtrip(bytes, p2, name.len() as u64);
    varint::law_uvarint_roundtrip(bytes, p4, w.points.len() as u64);
    assert(w.shared.skip(0) =~= w.shared);
    lemma_shared_roundtrip(bytes, p6, w.shared, 0, 0);
    lemma_points_roundtrip(bytes, p7, w.points, (0, 0));
    lemma_name_roundtrip(bytes, p2, w.name);
    assert(mask.len() == (w.points.len() + 7) / 8);
    assert(bytes.subrange(p5, p6) == mask);
    assert(tile::shape_at(bytes, p4) == Ok::<_, FormatError>(
        (w.shared, w.points, p7 + points.len()),
    ));
}

proof fn lemma_name_roundtrip(bytes: Seq<u8>, pos: int, name: Option<Seq<char>>)
    requires
        ({
            let text = tile::name_bytes(name);
            let len = varint::uvarint_bytes(text.len());
            &&& text.len() <= u64::MAX
            &&& varint::uvarint_at(bytes, pos) == Some((text.len() as u64, pos + len.len()))
            &&& varint::holds_at(bytes, pos + len.len(), text)
        }),
    ensures
        tile::name_at(bytes, pos) == Some(
            (
                match name {
                    Some(s) => if s.len() == 0 {
                        None
                    } else {
                        Some(s)
                    },
                    None => None,
                },
                pos + varint::uvarint_bytes(tile::name_bytes(name).len()).len()
                    + tile::name_bytes(name).len(),
            ),
        ),
{
    if let Some(s) = name {
        encode_utf8_valid_utf8(s);
        encode_utf8_decode_utf8(s);
        if s.len() > 0 {
            encode_utf8_first_scalar(s);
            if encode_utf8(s).len() == 0 {
                assert(decode_utf8(encode_utf8(s)) =~= seq![]);
            }
        }
    }
}

proof fn lemma_ways_roundtrip(bytes: Seq<u8>, pos: int, ways: Seq<WayView>, prev_id: i64)
    requires
        varint::holds_at(bytes, pos, tile::ways_bytes(ways, prev_id)),
        fits(ways),
        forall|i: int| 0 <= i < ways.len() ==> (#[trigger] ways[i]).valid(),
    ensures
        tile::ways_at(bytes, pos, ways.len(), prev_id) == Ok::<_, FormatError>(received(ways)),
    decreases ways.len(),
{
    if ways.len() > 0 {
        let w = ways[0];
        let rest = ways.skip(1);
        let piece = tile::way_bytes(w, prev_id);
        varint::lemma_holds_split(bytes, pos, piece, tile::ways_bytes(rest, w.id));
        lemma_way_roundtrip(bytes, pos, w, prev_id);
        assert forall|i: int| 0 <= i < rest.len() implies (#[trigger] rest[i]).valid() && way_fits(
            rest[i],
        ) by {
            assert(rest[i] == ways[i + 1]);
        }
        lemma_ways_roundtrip(bytes, pos + piece.len(), rest, w.id);
        assert(seq![w.on_wire()] + received(rest) =~= received(ways)) by {
            assert forall|i: int| 0 < i < ways.len() implies ways[i] == #[trigger] rest[i - 1] by {
            }
        }
    } else {
        assert(received(ways) =~= seq![]);
    }
}

proof fn lemma_shared_prefix(
    bytes: Seq<u8>,
    pos: int,
    mask: Seq<u8>,
    i: int,
    n: int,
    prev: i64,
    len: int,
)
    requires
        0 <= pos <= len <= bytes.len(),
        tile::shared_at(bytes, pos, mask, i, n, prev) is Some,
    ensures
        pos <= (tile::shared_at(bytes, pos, mask, i, n, prev)->0).1 <= bytes.len(),
        len >= (tile::shared_at(bytes, pos, mask, i, n, prev)->0).1 ==> tile::shared_at(
            bytes.take(len),
            pos,
            mask,
            i,
            n,
            prev,
        ) == tile::shared_at(bytes, pos, mask, i, n, prev),
        len < (tile::shared_at(bytes, pos, mask, i, n, prev)->0).1 ==> tile::shared_at(
            bytes.take(len),
            pos,
            mask,
            i,
            n,
            prev,
        ) is None,
    decreases n - i,
{
    if i < n {
        if tile::mask_has(mask, i) {
            let (d, next) = varint::ivarint_at(bytes, pos)->0;
            varint::law_ivarint_prefix(bytes, pos, len);
            if next <= len {
                lemma_shared_prefix(bytes, next, mask, i + 1, n, prev.wrapping_add(d), len);
            } else {
                lemma_shared_prefix(
                    bytes,
                    next,
                    mask,
                    i + 1,
                    n,
                    prev.wrapping_add(d),
                    bytes.len() as int,
                );
            }
        } else {
            lemma_shared_prefix(bytes, pos, mask, i + 1, n, prev, len);
        }
    }
}

proof fn lemma_points_prefix(bytes: Seq<u8>, pos: int, n: int, prev: (i64, i64), len: int)
    requires
        0 <= pos <= len <= bytes.len(),
        tile::points_at(bytes, pos, n, prev) is Some,
    ensures
        pos <= (tile::points_at(bytes, pos, n, prev)->0).1 <= bytes.len(),
        len >= (tile::points_at(bytes, pos, n, prev)->0).1 ==> tile::points_at(
            bytes.take(len),
            pos,
            n,
            prev,
        ) == tile::points_at(bytes, pos, n, prev),
        len < (tile::points_at(bytes, pos, n, prev)->0).1 ==> tile::points_at(
            bytes.take(len),
            pos,
            n,
            prev,
        ) is None,
    decreases n,
{
    if n > 0 {
        let (p, next) = tile::point_at(bytes, pos, prev)->0;
        let mid = (varint::ivarint_at(bytes, pos)->0).1;
        varint::law_ivarint_prefix(bytes, pos, len);
        varint::law_ivarint_prefix(bytes, mid, len);
        if next <= len {
            lemma_points_prefix(bytes, next, n - 1, p, len);
        } else {
            lemma_points_prefix(bytes, next, n - 1, p, bytes.len() as int);
        }
    }
}

/// A way that was read whole is read the same with less behind it, and is
/// truncated where less than itself is left.
proof fn lemma_way_prefix(bytes: Seq<u8>, pos: int, prev_id: i64, len: int)
    requires
        0 <= pos <= len <= bytes.len(),
        tile::way_at(bytes, pos, prev_id) is Ok,
    ensures
        pos < (tile::way_at(bytes, pos, prev_id)->Ok_0).1 <= bytes.len(),
        len >= (tile::way_at(bytes, pos, prev_id)->Ok_0).1 ==> tile::way_at(
            bytes.take(len),
            pos,
            prev_id,
        ) == tile::way_at(bytes, pos, prev_id),
        len < (tile::way_at(bytes, pos, prev_id)->Ok_0).1 ==> tile::way_at(
            bytes.take(len),
            pos,
            prev_id,
        ) == Err::<(WayView, int), FormatError>(FormatError::Truncated),
{
    let short = bytes.take(len);
    let full = bytes.len() as int;
    let (d, p1) = varint::ivarint_at(bytes, pos)->0;
    varint::law_ivarint_prefix(bytes, pos, len);
    let (name, p4) = tile::name_at(bytes, p1 + 1)->0;
    let (name_len, p3) = varint::uvarint_at(bytes, p1 + 1)->0;
    varint::law_uvarint_prefix(bytes, p1 + 1, len);
    if name_len > 0 && p4 <= len {
        assert(short.subrange(p3, p4) =~= bytes.subrange(p3, p4));
    }
    let (n, p5) = varint::uvarint_at(bytes, p4)->0;
    varint::law_uvarint_prefix(bytes, p4, len);
    let p6 = p5 + (n + 7) / 8;
    let mask = bytes.subrange(p5, p6);
    let (shared, p7) = tile::shared_at(bytes, p6, mask, 0, n as int, 0)->0;
    lemma_shared_prefix(bytes, p6, mask, 0, n as int, 0, full);
    lemma_points_prefix(bytes, p7, n as int, (0, 0), full);
    if p1 < len {
        assert(short[p1] == bytes[p1]);
        if p6 <= len {
            assert(short.subrange(p5, p6) =~= mask);
            lemma_shared_prefix(bytes, p6, mask, 0, n as int, 0, len);
            if p7 <= len {
                lemma_points_prefix(bytes, p7, n as int, (0, 0), len);
            }
        }
    }
}

proof fn lemma_ways_prefix(
    bytes: Seq<u8>,
    pos: int,
    ways: Seq<WayView>,
    prev_id: i64,
    len: int,
)
    requires
        varint::holds_at(bytes, pos, tile::ways_bytes(ways, prev_id)),
        fits(ways),
        forall|i: int| 0 <= i < ways.len() ==> (#[trigger] ways[i]).valid(),
        pos <= len < pos + tile::ways_bytes(ways, prev_id).len(),
    ensures
        tile::ways_at(bytes.take(len), pos, ways.len(), prev_id) == Err::<
            Seq<WayView>,
            FormatError,
        >(FormatError::Truncated),
    decreases ways.len(),
{
    if ways.len() > 0 {
        let w = ways[0];
        let rest = ways.skip(1);
        let piece = tile::way_bytes(w, prev_id);
        varint::lemma_holds_split(bytes, pos, piece, tile::ways_bytes(rest, w.id));
        lemma_way_roundtrip(bytes, pos, w, prev_id);
        lemma_way_prefix(bytes, pos, prev_id, len);
        assert forall|i: int| 0 <= i < rest.len() implies (#[trigger] rest[i]).valid() && way_fits(
            rest[i],
        ) by {
            assert(rest[i] == ways[i + 1]);
        }
        if pos + piece.len() <= len {
            lemma_ways_prefix(bytes, pos + piece.len(), rest, w.id, len);
        }
    }
}

proof fn lemma_shared_len(bytes: Seq<u8>, pos: int, mask: Seq<u8>, i: int, n: int, prev: i64)
    requires
        0 <= i <= n,
    ensures
        tile::shared_at(bytes, pos, mask, i, n, prev) matches Some((s, _)) ==> s.len() == n - i,
    decreases n - i,
{
    if i < n {
        if tile::mask_has(mask, i) {
            if let Some((d, next)) = varint::ivarint_at(bytes, pos) {
                lemma_shared_len(bytes, next, mask, i + 1, n, prev.wrapping_add(d));
            }
        } else {
            lemma_shared_len(bytes, pos, mask, i + 1, n, prev);
        }
    }
}

proof fn lemma_points_len(bytes: Seq<u8>, pos: int, n: int, prev: (i64, i64))
    requires
        0 <= n,
    ensures
        tile::points_at(bytes, pos, n, prev) matches Some((s, _)) ==> s.len() == n,
    decreases n,
{
    if n > 0 {
        if let Some((p, next)) = tile::point_at(bytes, pos, prev) {
            lemma_points_len(bytes, next, n - 1, p);
        }
    }
}

proof fn lemma_ways_valid(bytes: Seq<u8>, pos: int, count: nat, prev_id: i64)
    ensures
        tile::ways_at(bytes, pos, count, prev_id) matches Ok(ways) ==> forall|i: int|
            0 <= i < ways.len() ==> (#[trigger] ways[i]).valid() && ways[i].kind < 16
                && ways[i].sac < 16,
    decreases count,
{
    if count > 0 {
        if let Ok((w, next)) = tile::way_at(bytes, pos, prev_id) {
            let p1 = (varint::ivarint_at(bytes, pos)->0).1;
            let p4 = (tile::name_at(bytes, p1 + 1)->0).1;
            let (n, p5) = varint::uvarint_at(bytes, p4)->0;
            let p6 = p5 + (n + 7) / 8;
            let mask = bytes.subrange(p5, p6);
            let p7 = (tile::shared_at(bytes, p6, mask, 0, n as int, 0)->0).1;
            lemma_shared_len(bytes, p6, mask, 0, n as int, 0);
            lemma_points_len(bytes, p7, n as int, (0, 0));
            assert(w.valid());
            lemma_ways_valid(bytes, next, (count - 1) as nat, w.id);
            if let Ok(rest) = tile::ways_at(bytes, next, (count - 1) as nat, w.id) {
                let ways = seq![w] + rest;
                assert forall|i: int| 0 <= i < ways.len() implies (#[trigger] ways[i]).valid()
                    && ways[i].kind < 16 && ways[i].sac < 16 by {
                    if i > 0 {
                        assert(ways[i] == rest[i - 1]);
                    }
                }
            }
        }
    }
}

/// What stands where in the bytes of a way: the step from the id before, class
/// and difficulty in one byte with the class low, the name with its length in
/// front, the number of points, the mask, the ids of shared points, and the
/// points.
pub proof fn law_layout_of_a_way(w: WayView, prev_id: i64)
    requires
        way_fits(w),
    ensures
        ({
            let bytes = tile::way_bytes(w, prev_id);
            let name = tile::name_bytes(w.name);
            let (step, at_class) = varint::ivarint_at(bytes, 0)->0;
            let (name_len, at_name) = varint::uvarint_at(bytes, at_class + 1)->0;
            let (count, at_mask) = varint::uvarint_at(bytes, at_name + name_len)->0;
            let at_ids = at_mask + (w.shared.len() + 7) / 8;
            let ids = tile::shared_bytes(w.shared, 0);
            let points = tile::point_bytes(w.points, (0, 0));
            &&& prev_id.wrapping_add(step) == w.id
            &&& bytes[at_class] as int % 16 == w.kind as int % 16
            &&& bytes[at_class] as int / 16 == w.sac as int % 16
            &&& name_len == name.len()
            &&& bytes.subrange(at_name, at_name + name_len) == name
            &&& count == w.points.len()
            &&& bytes.subrange(at_mask, at_ids) == tile::mask_bytes(w.shared)
            &&& bytes.subrange(at_ids, at_ids + ids.len()) == ids
            &&& bytes.skip(at_ids + ids.len()) == points
        }),
{
    let bytes = tile::way_bytes(w, prev_id);
    let d = w.id.wrapping_sub(prev_id);
    let id = varint::ivarint_bytes(d);
    let class = seq![tile::packed(w.kind, w.sac)];
    let name = tile::name_bytes(w.name);
    let name_len = varint::uvarint_bytes(name.len());
    let len = varint::uvarint_bytes(w.points.len());
    let mask = tile::mask_bytes(w.shared);
    let ids = tile::shared_bytes(w.shared, 0);
    let points = tile::point_bytes(w.points, (0, 0));
    let p1 = id.len() as int;
    let p2 = p1 + 1;
    let p3 = p2 + name_len.len();
    let p4 = p3 + name.len();
    let p5 = p4 + len.len();
    let p6 = p5 + mask.len();
    let p7 = p6 + ids.len();
    assert(bytes.subrange(0, bytes.len() as int) =~= bytes);
    assert(varint::holds_at(bytes, 0, bytes));
    varint::lemma_holds_split(
        bytes,
        0,
        id,
        class + (name_len + (name + (len + (mask + (ids + points))))),
    );
    varint::lemma_holds_split(
        bytes,
        p1,
        class,
        name_len + (name + (len + (mask + (ids + points)))),
    );
    varint::lemma_holds_split(bytes, p2, name_len, name + (len + (mask + (ids + points))));
    varint::lemma_holds_split(bytes, p3, name, len + (mask + (ids + points)));
    varint::lemma_holds_split(bytes, p4, len, mask + (ids + points));
    varint::lemma_holds_split(bytes, p5, mask, ids + points);
    varint::lemma_holds_split(bytes, p6, ids, points);
    varint::law_ivarint_roundtrip(bytes, 0, d);
    assert(prev_id.wrapping_add(d) == w.id);
    assert(bytes[p1] == bytes.subrange(p1, p1 + 1)[0]);
    varint::law_uvarint_roundtrip(bytes, p2, name.len() as u64);
    varint::law_uvarint_roundtrip(bytes, p4, w.points.len() as u64);
    assert(bytes.len() == p7 + points.len());
    assert(bytes.skip(p7) =~= bytes.subrange(p7, p7 + points.len()));
}

/// A shared point sets a bit of the mask: the points of eight go into a byte, the
/// first one into its lowest bit.
pub proof fn law_the_mask_starts_with_the_lowest_bit(shared: Seq<Option<i64>>, i: int)
    requires
        0 <= i < shared.len(),
    ensures
        tile::mask_bytes(shared).len() == (shared.len() + 7) / 8,
        tile::mask_bytes(shared)[i / 8] as int / pow2((i % 8) as nat) as int % 2 == if shared[i] is Some {
            1int
        } else {
            0
        },
{
    lemma_mask(shared, i);
    lemma2_to64();
}

/// Points that follow others are written as steps from the last of them, and a
/// point as two steps, that of its latitude first.
pub proof fn law_points_are_written_as_steps(
    points: Seq<(i64, i64)>,
    more: Seq<(i64, i64)>,
    prev: (i64, i64),
    p: (i64, i64),
)
    ensures
        tile::point_bytes(points + more, prev) == tile::point_bytes(points, prev)
            + tile::point_bytes(
            more,
            if points.len() > 0 {
                points.last()
            } else {
                prev
            },
        ),
        tile::point_bytes(seq![p], prev) == varint::ivarint_bytes(p.0.wrapping_sub(prev.0))
            + varint::ivarint_bytes(p.1.wrapping_sub(prev.1)),
    decreases points.len(),
{
    assert(seq![p].skip(1) =~= Seq::<(i64, i64)>::empty());
    assert(tile::point_bytes(seq![p].skip(1), p) =~= Seq::<u8>::empty());
    assert(tile::point_bytes(seq![p], prev) =~= varint::ivarint_bytes(p.0.wrapping_sub(prev.0))
        + varint::ivarint_bytes(p.1.wrapping_sub(prev.1)));
    let all = points + more;
    if points.len() == 0 {
        assert(all =~= more);
        assert(tile::point_bytes(points, prev) =~= Seq::<u8>::empty());
        assert(Seq::<u8>::empty() + tile::point_bytes(more, prev) =~= tile::point_bytes(more, prev));
    } else {
        let rest = points.skip(1);
        law_points_are_written_as_steps(rest, more, points[0], p);
        assert(all.skip(1) =~= rest + more);
        if rest.len() > 0 {
            assert(rest.last() == points.last());
        }
        let tail = tile::point_bytes(more, points.last());
        assert(tile::point_bytes(rest + more, points[0]) == tile::point_bytes(rest, points[0])
            + tail);
        assert(tile::point_bytes(all, prev) =~= tile::point_bytes(points, prev) + tail);
    }
}

/// A tile starts with the letters of its format, its version, and the number of
/// its ways; then they come, each as a step from the one before.
pub proof fn law_layout_of_a_tile(ways: Seq<WayView>)
    requires
        ways.len() <= u64::MAX,
    ensures
        ({
            let bytes = tile::tile_bytes(ways);
            &&& bytes.take(5) == seq![84u8, 70, 84, 49, 1]
            &&& varint::uvarint_at(bytes, 5) matches Some((count, body)) && count == ways.len()
                && bytes.skip(body) == tile::ways_bytes(ways, 0)
        }),
{
    let bytes = tile::tile_bytes(ways);
    let count = varint::uvarint_bytes(ways.len());
    let body = tile::ways_bytes(ways, 0);
    assert(tile::TILE_MAGIC@ =~= seq![84u8, 70, 84, 49]);
    assert(bytes.take(5) =~= seq![84u8, 70, 84, 49, 1]);
    assert(bytes.subrange(5, 5 + count.len() as int) =~= count);
    varint::law_uvarint_roundtrip(bytes, 5, ways.len() as u64);
    assert(bytes.skip(5 + count.len() as int) =~= body);
}

/// Ways that follow others are written as steps from the last of them.
pub proof fn law_ways_are_written_as_steps(
    ways: Seq<WayView>,
    more: Seq<WayView>,
    prev_id: i64,
)
    ensures
        tile::ways_bytes(ways + more, prev_id) == tile::ways_bytes(ways, prev_id)
            + tile::ways_bytes(
            more,
            if ways.len() > 0 {
                ways.last().id
            } else {
                prev_id
            },
        ),
    decreases ways.len(),
{
    let all = ways + more;
    if ways.len() == 0 {
        assert(all =~= more);
        assert(tile::ways_bytes(ways, prev_id) =~= Seq::<u8>::empty());
        assert(Seq::<u8>::empty() + tile::ways_bytes(more, prev_id) =~= tile::ways_bytes(
            more,
            prev_id,
        ));
    } else {
        let rest = ways.skip(1);
        law_ways_are_written_as_steps(rest, more, ways[0].id);
        assert(all.skip(1) =~= rest + more);
        if rest.len() > 0 {
            assert(rest.last() == ways.last());
        }
        let tail = tile::ways_bytes(more, ways.last().id);
        assert(tile::ways_bytes(rest + more, ways[0].id) == tile::ways_bytes(rest, ways[0].id)
            + tail);
        assert(tile::ways_bytes(all, prev_id) =~= tile::ways_bytes(ways, prev_id) + tail);
    }
}

/// Only ways of two points or more whose points and identities line up are written,
/// in the order they were given.
pub proof fn law_which_ways_are_written(ways: Seq<WayView>, more: Seq<WayView>, w: WayView)
    ensures
        tile::usable(ways + more) == tile::usable(ways) + tile::usable(more),
        w.points.len() >= 2 && w.points.len() == w.shared.len() ==> tile::usable(seq![w]) == seq![w],
        w.points.len() < 2 || w.points.len() != w.shared.len() ==> tile::usable(seq![w]).len() == 0,
    decreases ways.len(),
{
    assert(seq![w].skip(1) =~= Seq::<WayView>::empty());
    assert(tile::usable(seq![w].skip(1)) =~= Seq::<WayView>::empty());
    if w.valid() {
        assert(tile::usable(seq![w]) =~= seq![w]);
    }
    let all = ways + more;
    if ways.len() == 0 {
        assert(all =~= more);
        assert(tile::usable(ways) + tile::usable(more) =~= tile::usable(more));
    } else {
        assert(all.skip(1) =~= ways.skip(1) + more);
        law_which_ways_are_written(ways.skip(1), more, w);
        assert(tile::usable(all) =~= tile::usable(ways) + tile::usable(more));
    }
}

/// What the wire carries of a way: all of it but the upper bits of class and difficulty,
/// and a name only where it has a letter.
pub proof fn law_what_the_wire_carries(ways: Seq<WayView>, i: int)
    requires
        0 <= i < ways.len(),
    ensures
        received(ways).len() == ways.len(),
        ({
            let w = ways[i];
            let r = received(ways)[i];
            &&& r.id == w.id
            &&& r.points == w.points
            &&& r.shared == w.shared
            &&& r.kind < 16 && (w.kind < 16 ==> r.kind == w.kind)
            &&& r.sac < 16 && (w.sac < 16 ==> r.sac == w.sac)
            &&& w.name is None ==> r.name is None
            &&& w.name matches Some(s) ==> if s.len() > 0 {
                r.name == Some(s)
            } else {
                r.name is None
            }
        }),
{
}

/// The ids of shared points are written as steps too, and plain points write nothing.
pub proof fn law_shared_ids_are_written_as_steps(
    shared: Seq<Option<i64>>,
    id: i64,
    prev: i64,
)
    ensures
        tile::shared_bytes(seq![Some(id)] + shared, prev) == varint::ivarint_bytes(
            id.wrapping_sub(prev),
        ) + tile::shared_bytes(shared, id),
        tile::shared_bytes(seq![None::<i64>] + shared, prev) == tile::shared_bytes(shared, prev),
        tile::shared_bytes(Seq::<Option<i64>>::empty(), prev).len() == 0,
{
    assert((seq![Some(id)] + shared).skip(1) =~= shared);
    assert((seq![None::<i64>] + shared).skip(1) =~= shared);
}

/// The points of some ways are counted way by way.
pub proof fn law_points_are_counted_way_by_way(w: WayView, more: Seq<WayView>)
    ensures
        total_points(seq![w] + more) == w.points.len() + total_points(more),
        total_points(Seq::<WayView>::empty()) == 0,
{
    assert((seq![w] + more).skip(1) =~= more);
}

} // verus!
