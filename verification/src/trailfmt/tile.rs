//! Tile blobs: the ways of one tile, quantised and delta-encoded.
use vstd::prelude::*;
use vstd::utf8::*;

use super::varint;
use super::varint::{put_ivarint, put_uvarint, Reader};
use super::FormatError;

verus! {

/// Magic at the head of every tile blob.
pub const TILE_MAGIC: [u8; 4] = [84, 70, 84, 49];

/// The version of the format, for tiles and indexes alike.
pub const VERSION: u8 = 1;

/// One way as it travels on the wire.
///
/// Coordinates are whole quanta, a millionth of a degree each: about eleven
/// centimetres of latitude, which stays below a screen pixel at every zoom.
#[derive(Clone, Debug, PartialEq)]
pub struct ArchiveWay {
    pub id: i64,
    /// Way class, of which four bits travel.
    pub kind: u8,
    /// Difficulty, 0 when absent and else 1 to 6, of which four bits travel.
    pub sac: u8,
    pub name: Option<String>,
    /// Latitude and longitude of each point, in quanta.
    pub points: Vec<(i64, i64)>,
    /// One entry per point: the global node id where the node is shared with
    /// another way (a potential junction), nothing for a plain shape point.
    pub shared: Vec<Option<i64>>,
}

/// What an [`ArchiveWay`] stands for.
#[verifier::ext_equal]
pub struct WayView {
    pub id: i64,
    pub kind: u8,
    pub sac: u8,
    pub name: Option<Seq<char>>,
    pub points: Seq<(i64, i64)>,
    pub shared: Seq<Option<i64>>,
}

impl View for ArchiveWay {
    type V = WayView;

    open spec fn view(&self) -> WayView {
        WayView {
            id: self.id,
            kind: self.kind,
            sac: self.sac,
            name: match self.name {
                Some(s) => Some(s@),
                None => None,
            },
            points: self.points@,
            shared: self.shared@,
        }
    }
}

impl WayView {
    /// Both arrays line up and the way has a length.
    pub open spec fn valid(self) -> bool {
        self.points.len() >= 2 && self.points.len() == self.shared.len()
    }

    /// What is left of a way after it has travelled: four bits of class, four of
    /// difficulty, and no name in place of an empty one.
    pub open spec fn on_wire(self) -> WayView {
        WayView {
            kind: self.kind % 16,
            sac: self.sac % 16,
            name: match self.name {
                Some(s) => if s.len() == 0 {
                    None
                } else {
                    Some(s)
                },
                None => None,
            },
            ..self
        }
    }
}

/// The views of a run of ways.
pub open spec fn views(ways: Seq<ArchiveWay>) -> Seq<WayView> {
    Seq::new(ways.len(), |i: int| ways[i]@)
}

/// The valid ways among some, in their order.
pub open spec fn usable(ways: Seq<WayView>) -> Seq<WayView>
    decreases ways.len(),
{
    if ways.len() == 0 {
        seq![]
    } else if ways[0].valid() {
        seq![ways[0]] + usable(ways.skip(1))
    } else {
        usable(ways.skip(1))
    }
}

// ---------------------------------------------------------------------------
// What is written
// ---------------------------------------------------------------------------

/// Class and difficulty in one byte, four bits each.
pub open spec fn packed(kind: u8, sac: u8) -> u8 {
    (kind % 16 + 16 * (sac % 16)) as u8
}

/// The bytes of a name, none where there is no name.
pub open spec fn name_bytes(name: Option<Seq<char>>) -> Seq<u8> {
    match name {
        Some(s) => encode_utf8(s),
        None => seq![],
    }
}

/// Weight of a bit in a byte.
pub open spec fn bit_weight(b: int) -> int {
    if b == 0 {
        1
    } else if b == 1 {
        2
    } else if b == 2 {
        4
    } else if b == 3 {
        8
    } else if b == 4 {
        16
    } else if b == 5 {
        32
    } else if b == 6 {
        64
    } else {
        128
    }
}

/// One where the point at `i` is shared, else zero.
pub open spec fn shared_bit(shared: Seq<Option<i64>>, i: int) -> int {
    if 0 <= i < shared.len() && shared[i] is Some {
        1
    } else {
        0
    }
}

/// The lowest `count` bits of a mask byte, one per point from the `j`-th group
/// of eight.
pub open spec fn mask_bits(shared: Seq<Option<i64>>, j: int, count: nat) -> int
    decreases count,
{
    if count == 0 {
        0
    } else {
        mask_bits(shared, j, (count - 1) as nat) + bit_weight(count - 1) * shared_bit(
            shared,
            8 * j + count - 1,
        )
    }
}

/// One bit per point, set where the point is shared.
pub open spec fn mask_bytes(shared: Seq<Option<i64>>) -> Seq<u8> {
    Seq::new((shared.len() + 7) / 8, |j: int| mask_bits(shared, j, 8) as u8)
}

/// The ids of the shared points, each as a difference to the one before.
pub open spec fn shared_bytes(shared: Seq<Option<i64>>, prev: i64) -> Seq<u8>
    decreases shared.len(),
{
    if shared.len() == 0 {
        seq![]
    } else {
        match shared[0] {
            Some(id) => varint::ivarint_bytes(id.wrapping_sub(prev)) + shared_bytes(
                shared.skip(1),
                id,
            ),
            None => shared_bytes(shared.skip(1), prev),
        }
    }
}

/// The points, each as a difference to the one before.
pub open spec fn point_bytes(points: Seq<(i64, i64)>, prev: (i64, i64)) -> Seq<u8>
    decreases points.len(),
{
    if points.len() == 0 {
        seq![]
    } else {
        varint::ivarint_bytes(points[0].0.wrapping_sub(prev.0)) + (varint::ivarint_bytes(
            points[0].1.wrapping_sub(prev.1),
        ) + point_bytes(points.skip(1), points[0]))
    }
}

/// One way behind another whose id was `prev_id`.
pub open spec fn way_bytes(w: WayView, prev_id: i64) -> Seq<u8> {
    varint::ivarint_bytes(w.id.wrapping_sub(prev_id)) + (seq![packed(w.kind, w.sac)] + (
    varint::uvarint_bytes(name_bytes(w.name).len()) + (name_bytes(w.name) + (varint::uvarint_bytes(
        w.points.len(),
    ) + (mask_bytes(w.shared) + (shared_bytes(w.shared, 0) + point_bytes(w.points, (0, 0))))))))
}

/// Ways in a row.
pub open spec fn ways_bytes(ways: Seq<WayView>, prev_id: i64) -> Seq<u8>
    decreases ways.len(),
{
    if ways.len() == 0 {
        seq![]
    } else {
        way_bytes(ways[0], prev_id) + ways_bytes(ways.skip(1), ways[0].id)
    }
}

/// A whole tile: magic, version, the number of ways, and the ways.
pub open spec fn tile_bytes(ways: Seq<WayView>) -> Seq<u8> {
    TILE_MAGIC@ + (seq![VERSION] + (varint::uvarint_bytes(ways.len()) + ways_bytes(ways, 0)))
}

// ---------------------------------------------------------------------------
// What is read
// ---------------------------------------------------------------------------

/// The text that a std lossy decoding makes of bytes that are not UTF-8.
pub uninterp spec fn replaced_text(bytes: Seq<u8>) -> Seq<char>;

/// The text of a name on the wire.
pub open spec fn name_text(bytes: Seq<u8>) -> Seq<char> {
    if valid_utf8(bytes) {
        decode_utf8(bytes)
    } else {
        replaced_text(bytes)
    }
}

/// Whether bit `i` of a mask is set.
pub open spec fn mask_has(mask: Seq<u8>, i: int) -> bool {
    mask[i / 8] as int / bit_weight(i % 8) % 2 == 1
}

/// Items in front of what a read yielded.
pub open spec fn behind<T>(head: Seq<T>, r: Option<(Seq<T>, int)>) -> Option<(Seq<T>, int)> {
    match r {
        Some((rest, next)) => Some((head + rest, next)),
        None => None,
    }
}

/// The identities of `n` points from the `i`-th on, read at `pos`.
pub open spec fn shared_at(
    bytes: Seq<u8>,
    pos: int,
    mask: Seq<u8>,
    i: int,
    n: int,
    prev: i64,
) -> Option<(Seq<Option<i64>>, int)>
    decreases n - i,
{
    if i >= n {
        Some((seq![], pos))
    } else if mask_has(mask, i) {
        match varint::ivarint_at(bytes, pos) {
            Some((d, next)) => behind(
                seq![Some(prev.wrapping_add(d))],
                shared_at(bytes, next, mask, i + 1, n, prev.wrapping_add(d)),
            ),
            None => None,
        }
    } else {
        behind(seq![None], shared_at(bytes, pos, mask, i + 1, n, prev))
    }
}

/// One point read at `pos`, behind `prev`.
pub open spec fn point_at(bytes: Seq<u8>, pos: int, prev: (i64, i64)) -> Option<
    ((i64, i64), int),
> {
    match varint::ivarint_at(bytes, pos) {
        Some((dlat, mid)) => match varint::ivarint_at(bytes, mid) {
            Some((dlon, next)) => Some(
                ((prev.0.wrapping_add(dlat), prev.1.wrapping_add(dlon)), next),
            ),
            None => None,
        },
        None => None,
    }
}

/// `n` points read at `pos`, behind `prev`.
pub open spec fn points_at(bytes: Seq<u8>, pos: int, n: int, prev: (i64, i64)) -> Option<
    (Seq<(i64, i64)>, int),
>
    decreases n,
{
    if n <= 0 {
        Some((seq![], pos))
    } else {
        match point_at(bytes, pos, prev) {
            Some((p, next)) => behind(seq![p], points_at(bytes, next, n - 1, p)),
            None => None,
        }
    }
}

/// The name of a way, read at `pos` with its length in front.
pub open spec fn name_at(bytes: Seq<u8>, pos: int) -> Option<(Option<Seq<char>>, int)> {
    match varint::uvarint_at(bytes, pos) {
        Some((len, start)) => if len == 0 {
            Some((None, start))
        } else if start + len > bytes.len() {
            None
        } else {
            Some((Some(name_text(bytes.subrange(start, start + len))), start + len))
        },
        None => None,
    }
}

/// The identities and the points of a way, read at `pos` with their number in
/// front.
pub open spec fn shape_at(bytes: Seq<u8>, pos: int) -> Result<
    (Seq<Option<i64>>, Seq<(i64, i64)>, int),
    FormatError,
> {
    match varint::uvarint_at(bytes, pos) {
        Some((n, start)) => if n < 2 {
            Err(FormatError::Misaligned)
        } else if start + (n + 7) / 8 > bytes.len() {
            Err(FormatError::Truncated)
        } else {
            let body = start + (n + 7) / 8;
            match shared_at(bytes, body, bytes.subrange(start, body), 0, n as int, 0) {
                Some((shared, mid)) => match points_at(bytes, mid, n as int, (0, 0)) {
                    Some((points, next)) => Ok((shared, points, next)),
                    None => Err(FormatError::Truncated),
                },
                None => Err(FormatError::Truncated),
            }
        },
        None => Err(FormatError::Truncated),
    }
}

/// One way read at `pos`, behind one whose id was `prev_id`.
pub open spec fn way_at(bytes: Seq<u8>, pos: int, prev_id: i64) -> Result<
    (WayView, int),
    FormatError,
> {
    match varint::ivarint_at(bytes, pos) {
        Some((d, at_packed)) => if at_packed >= bytes.len() {
            Err(FormatError::Truncated)
        } else {
            match name_at(bytes, at_packed + 1) {
                Some((name, at_shape)) => match shape_at(bytes, at_shape) {
                    Ok((shared, points, next)) => Ok(
                        (
                            WayView {
                                id: prev_id.wrapping_add(d),
                                kind: bytes[at_packed] % 16,
                                sac: bytes[at_packed] / 16,
                                name,
                                points,
                                shared,
                            },
                            next,
                        ),
                    ),
                    Err(e) => Err(e),
                },
                None => Err(FormatError::Truncated),
            }
        },
        None => Err(FormatError::Truncated),
    }
}

/// `count` ways read at `pos`, behind one whose id was `prev_id`.
pub open spec fn ways_at(bytes: Seq<u8>, pos: int, count: nat, prev_id: i64) -> Result<
    Seq<WayView>,
    FormatError,
>
    decreases count,
{
    if count == 0 {
        Ok(seq![])
    } else {
        match way_at(bytes, pos, prev_id) {
            Ok((w, next)) => match ways_at(bytes, next, (count - 1) as nat, w.id) {
                Ok(rest) => Ok(seq![w] + rest),
                Err(e) => Err(e),
            },
            Err(e) => Err(e),
        }
    }
}

/// What a blob decodes to. Bytes behind the last way are not looked at.
pub open spec fn tile_of_bytes(bytes: Seq<u8>) -> Result<Seq<WayView>, FormatError> {
    if bytes.len() < 4 {
        Err(FormatError::Truncated)
    } else if bytes.take(4) != TILE_MAGIC@ {
        Err(FormatError::BadMagic)
    } else if bytes.len() < 5 {
        Err(FormatError::Truncated)
    } else if bytes[4] != VERSION {
        Err(FormatError::BadVersion(bytes[4]))
    } else {
        match varint::uvarint_at(bytes, 5) {
            Some((count, start)) => ways_at(bytes, start, count as nat, 0),
            None => Err(FormatError::Truncated),
        }
    }
}

// ---------------------------------------------------------------------------
// Encoding and decoding
// ---------------------------------------------------------------------------

impl ArchiveWay {
    /// A way is only meaningful if both arrays line up and it has a length.
    pub fn is_valid(&self) -> (b: bool)
        ensures
            b == self@.valid(),
    {
        self.points.len() >= 2 && self.points.len() == self.shared.len()
    }
}

/// `String::from_utf8_lossy`, as an owned text: UTF-8 is decoded as it stands.
/// Of other bytes the result is named, and there is some text wherever there are
/// bytes: what is not UTF-8 is replaced and never dropped.
#[verifier::external_body]
pub(crate) fn lossy_text(bytes: &[u8]) -> (s: String)
    ensures
        valid_utf8(bytes@) ==> s@ == decode_utf8(bytes@),
        !valid_utf8(bytes@) ==> s@ == replaced_text(bytes@),
        bytes@.len() > 0 ==> s@.len() > 0,
{
    String::from_utf8_lossy(bytes).into_owned()
}

/// Appends bytes as they stand.
pub fn put_bytes(out: &mut Vec<u8>, bytes: &[u8])
    ensures
        final(out)@ == old(out)@ + bytes@,
{
    let ghost before = out@;
    out.extend_from_slice(bytes);
    assert(out@ =~= before + bytes@);
}

/// Weight of a bit in a byte.
fn weight(b: u64) -> (w: u8)
    requires
        b < 8,
    ensures
        w == bit_weight(b as int),
        w > 0,
{
    match b {
        0 => 1,
        1 => 2,
        2 => 4,
        3 => 8,
        4 => 16,
        5 => 32,
        6 => 64,
        _ => 128,
    }
}

/// Appends one bit per point.
fn put_mask(out: &mut Vec<u8>, shared: &Vec<Option<i64>>)
    ensures
        final(out)@ == old(out)@ + mask_bytes(shared@),
{
    let ghost before = out@;
    let n: usize = shared.len();
    let groups: usize = n / 8 + (if n % 8 == 0 {
        0usize
    } else {
        1usize
    });
    let mut j: usize = 0;
    while j < groups
        invariant
            n == shared@.len(),
            groups == (n + 7) / 8,
            j <= groups,
            out@ == before + mask_bytes(shared@).take(j as int),
        decreases groups - j,
    {
        let mut byte: u8 = 0;
        let mut b: usize = 0;
        while b < 8
            invariant
                n == shared@.len(),
                groups == (n + 7) / 8,
                j < groups,
                b <= 8,
                byte == mask_bits(shared@, j as int, b as nat),
                byte < bit_weight(b as int) || b == 8,
            decreases 8 - b,
        {
            if b < n - 8 * j {
                let set: bool = match shared[8 * j + b] {
                    Some(_) => true,
                    None => false,
                };
                if set {
                    byte = byte + weight(b as u64);
                }
            }
            b = b + 1;
        }
        out.push(byte);
        assert(out@ =~= before + mask_bytes(shared@).take(j + 1));
        j = j + 1;
    }
    assert(mask_bytes(shared@).take(groups as int) =~= mask_bytes(shared@));
}

/// Appends the ids of the shared points.
fn put_shared(out: &mut Vec<u8>, shared: &Vec<Option<i64>>)
    ensures
        final(out)@ == old(out)@ + shared_bytes(shared@, 0),
{
    let ghost before = out@;
    let mut prev: i64 = 0;
    let mut i: usize = 0;
    assert(shared@.skip(0) =~= shared@);
    while i < shared.len()
        invariant
            i <= shared@.len(),
            out@ + shared_bytes(shared@.skip(i as int), prev) == before + shared_bytes(shared@, 0),
        decreases shared@.len() - i,
    {
        let ghost rest = shared@.skip(i as int);
        assert(rest.skip(1) =~= shared@.skip(i + 1));
        let ghost held = out@;
        match shared[i] {
            Some(id) => {
                put_ivarint(out, id.wrapping_sub(prev));
                proof {
                    let piece = varint::ivarint_bytes(id.wrapping_sub(prev));
                    assert(held + (piece + shared_bytes(rest.skip(1), id)) =~= (held + piece)
                        + shared_bytes(rest.skip(1), id));
                }
                prev = id;
            },
            None => {},
        }
        i = i + 1;
    }
    assert(out@ + shared_bytes(shared@.skip(i as int), prev) =~= out@);
}

/// Appends the points.
fn put_points(out: &mut Vec<u8>, points: &Vec<(i64, i64)>)
    ensures
        final(out)@ == old(out)@ + point_bytes(points@, (0, 0)),
{
    let ghost before = out@;
    let mut prev: (i64, i64) = (0, 0);
    let mut i: usize = 0;
    assert(points@.skip(0) =~= points@);
    while i < points.len()
        invariant
            i <= points@.len(),
            out@ + point_bytes(points@.skip(i as int), prev) == before + point_bytes(
                points@,
                (0, 0),
            ),
        decreases points@.len() - i,
    {
        let ghost rest = points@.skip(i as int);
        assert(rest.skip(1) =~= points@.skip(i + 1));
        let ghost held = out@;
        let q: (i64, i64) = points[i];
        put_ivarint(out, q.0.wrapping_sub(prev.0));
        put_ivarint(out, q.1.wrapping_sub(prev.1));
        proof {
            let lat = varint::ivarint_bytes(q.0.wrapping_sub(prev.0));
            let lon = varint::ivarint_bytes(q.1.wrapping_sub(prev.1));
            let tail = point_bytes(rest.skip(1), q);
            assert(held + (lat + (lon + tail)) =~= ((held + lat) + lon) + tail);
        }
        prev = q;
        i = i + 1;
    }
    assert(out@ + point_bytes(points@.skip(i as int), prev) =~= out@);
}

/// Appends one way.
fn put_way(out: &mut Vec<u8>, way: &ArchiveWay, prev_id: i64)
    ensures
        final(out)@ == old(out)@ + way_bytes(way@, prev_id),
{
    let ghost before = out@;
    put_ivarint(out, way.id.wrapping_sub(prev_id));
    let ghost with_id = out@;
    out.push(way.kind % 16 + 16 * (way.sac % 16));
    let ghost with_class = out@;
    assert(with_class =~= with_id + seq![packed(way.kind, way.sac)]);
    match &way.name {
        Some(name) => {
            let bytes = name.as_str().as_bytes();
            put_uvarint(out, bytes.len() as u64);
            put_bytes(out, bytes);
        },
        None => {
            put_uvarint(out, 0);
            assert(out@ =~= out@ + name_bytes(way@.name));
        },
    }
    let ghost with_name = out@;
    put_uvarint(out, way.points.len() as u64);
    put_mask(out, &way.shared);
    put_shared(out, &way.shared);
    put_points(out, &way.points);
    proof {
        let w = way@;
        let id = varint::ivarint_bytes(w.id.wrapping_sub(prev_id));
        let class = seq![packed(w.kind, w.sac)];
        let name_len = varint::uvarint_bytes(name_bytes(w.name).len());
        let name = name_bytes(w.name);
        let len = varint::uvarint_bytes(w.points.len());
        let mask = mask_bytes(w.shared);
        let ids = shared_bytes(w.shared, 0);
        let points = point_bytes(w.points, (0, 0));
        lemma_concat(before, id, class + (name_len + (name + (len + (mask + (ids + points))))));
        lemma_concat(before + id, class, name_len + (name + (len + (mask + (ids + points)))));
        lemma_concat(before + id + class, name_len, name + (len + (mask + (ids + points))));
        lemma_concat(before + id + class + name_len, name, len + (mask + (ids + points)));
        lemma_concat(before + id + class + name_len + name, len, mask + (ids + points));
        lemma_concat(before + id + class + name_len + name + len, mask, ids + points);
        lemma_concat(before + id + class + name_len + name + len + mask, ids, points);
        assert(with_class == before + id + class);
        assert(with_name == with_class + name_len + name);
        assert(out@ == with_name + len + mask + ids + points);
    }
}

/// Encodes the ways of one tile. Invalid ways are dropped rather than encoded:
/// the format never carries a record that a reader would have to guess at.
pub fn encode_tile(ways: &[ArchiveWay]) -> (out: Vec<u8>)
    ensures
        out@ == tile_bytes(usable(views(ways@))),
{
    let ghost all = views(ways@);
    let mut count: u64 = 0;
    let mut i: usize = 0;
    assert(all.skip(0) =~= all);
    while i < ways.len()
        invariant
            i <= ways@.len(),
            all == views(ways@),
            count + usable(all.skip(i as int)).len() == usable(all).len(),
            count <= i,
        decreases ways@.len() - i,
    {
        assert(all.skip(i as int).skip(1) =~= all.skip(i + 1));
        if ways[i].is_valid() {
            count = count + 1;
        }
        i = i + 1;
    }
    assert(all.skip(i as int) =~= seq![]);
    let mut out: Vec<u8> = Vec::new();
    put_bytes(&mut out, &TILE_MAGIC);
    out.push(VERSION);
    put_uvarint(&mut out, count);
    let ghost head = out@;
    let mut prev_id: i64 = 0;
    i = 0;
    while i < ways.len()
        invariant
            i <= ways@.len(),
            all == views(ways@),
            out@ + ways_bytes(usable(all.skip(i as int)), prev_id) == head + ways_bytes(
                usable(all),
                0,
            ),
        decreases ways@.len() - i,
    {
        let ghost rest = all.skip(i as int);
        assert(rest.skip(1) =~= all.skip(i + 1));
        let way = &ways[i];
        assert(rest[0] == way@);
        if way.is_valid() {
            let ghost held = out@;
            put_way(&mut out, way, prev_id);
            proof {
                let piece = way_bytes(way@, prev_id);
                assert(usable(rest).skip(1) =~= usable(rest.skip(1)));
                let tail = ways_bytes(usable(rest.skip(1)), way.id);
                assert(held + (piece + tail) =~= (held + piece) + tail);
            }
            prev_id = way.id;
        }
        i = i + 1;
    }
    assert(all.skip(i as int) =~= seq![]);
    assert(out@ + ways_bytes(usable(all.skip(i as int)), prev_id) =~= out@);
    assert(out@ =~= tile_bytes(usable(all)));
    out
}

/// Reads the identities of `n` points.
fn read_shared(r: &mut Reader<'_>, mask: &[u8], n: u64) -> (res: Result<
    Vec<Option<i64>>,
    FormatError,
>)
    requires
        old(r).wf(),
        mask@.len() == (n + 7) / 8,
    ensures
        final(r).wf(),
        final(r).bytes@ == old(r).bytes@,
        match res {
            Ok(v) => shared_at(old(r).bytes@, old(r).pos as int, mask@, 0, n as int, 0) == Some(
                (v@, final(r).pos as int),
            ),
            Err(e) => e == FormatError::Truncated && shared_at(
                old(r).bytes@,
                old(r).pos as int,
                mask@,
                0,
                n as int,
                0,
            ) is None,
        },
{
    let ghost bytes = r.bytes@;
    let ghost start = r.pos as int;
    let ghost whole = shared_at(bytes, start, mask@, 0, n as int, 0);
    let mut shared: Vec<Option<i64>> = Vec::new();
    let mut prev: i64 = 0;
    let mut i: u64 = 0;
    assert(whole == behind(shared@, whole)) by {
        if let Some((s, p)) = whole {
            assert(shared@ + s =~= s);
        }
    }
    while i < n
        invariant
            r.wf(),
            r.bytes@ == bytes,
            old(r).bytes@ == bytes,
            old(r).pos == start,
            whole == shared_at(bytes, start, mask@, 0, n as int, 0),
            i <= n,
            mask@.len() == (n + 7) / 8,
            whole == behind(
                shared@,
                shared_at(bytes, r.pos as int, mask@, i as int, n as int, prev),
            ),
        decreases n - i,
    {
        let ghost held = shared@;
        let ghost pos = r.pos as int;
        assert(i / 8 < (n + 7) / 8);
        let byte: u8 = mask[(i / 8) as usize];
        if byte / weight(i % 8) % 2 == 1 {
            assert(mask_has(mask@, i as int));
            match r.ivarint() {
                Ok(d) => {
                    prev = prev.wrapping_add(d);
                },
                Err(e) => {
                    return Err(e);
                },
            }
            shared.push(Some(prev));
            proof {
                lemma_behind_push(
                    held,
                    Some(prev),
                    shared_at(bytes, r.pos as int, mask@, i + 1, n as int, prev),
                );
            }
        } else {
            assert(!mask_has(mask@, i as int));
            shared.push(None);
            proof {
                lemma_behind_push(
                    held,
                    None,
                    shared_at(bytes, pos, mask@, i + 1, n as int, prev),
                );
            }
        }
        i = i + 1;
    }
    assert(shared@ + seq![] =~= shared@);
    Ok(shared)
}

/// Reads `n` points.
fn read_points(r: &mut Reader<'_>, n: u64) -> (res: Result<Vec<(i64, i64)>, FormatError>)
    requires
        old(r).wf(),
    ensures
        final(r).wf(),
        final(r).bytes@ == old(r).bytes@,
        match res {
            Ok(v) => points_at(old(r).bytes@, old(r).pos as int, n as int, (0, 0)) == Some(
                (v@, final(r).pos as int),
            ),
            Err(e) => e == FormatError::Truncated && points_at(
                old(r).bytes@,
                old(r).pos as int,
                n as int,
                (0, 0),
            ) is None,
        },
{
    let ghost bytes = r.bytes@;
    let ghost start = r.pos as int;
    let ghost whole = points_at(bytes, start, n as int, (0, 0));
    let mut points: Vec<(i64, i64)> = Vec::new();
    let mut prev: (i64, i64) = (0, 0);
    let mut i: u64 = 0;
    assert(whole == behind(points@, whole)) by {
        if let Some((s, p)) = whole {
            assert(points@ + s =~= s);
        }
    }
    while i < n
        invariant
            r.wf(),
            r.bytes@ == bytes,
            old(r).bytes@ == bytes,
            old(r).pos == start,
            whole == points_at(bytes, start, n as int, (0, 0)),
            i <= n,
            whole == behind(points@, points_at(bytes, r.pos as int, n - i, prev)),
        decreases n - i,
    {
        let ghost held = points@;
        let lat: i64 = match r.ivarint() {
            Ok(d) => prev.0.wrapping_add(d),
            Err(e) => {
                return Err(e);
            },
        };
        let lon: i64 = match r.ivarint() {
            Ok(d) => prev.1.wrapping_add(d),
            Err(e) => {
                return Err(e);
            },
        };
        prev = (lat, lon);
        points.push(prev);
        proof {
            lemma_behind_push(held, prev, points_at(bytes, r.pos as int, n - i - 1, prev));
        }
        i = i + 1;
    }
    assert(points@ + seq![] =~= points@);
    Ok(points)
}

/// Reads the name of a way.
fn read_name(r: &mut Reader<'_>) -> (res: Result<Option<String>, FormatError>)
    requires
        old(r).wf(),
    ensures
        final(r).wf(),
        final(r).bytes@ == old(r).bytes@,
        match res {
            Ok(v) => name_at(old(r).bytes@, old(r).pos as int) == Some(
                (
                    match v {
                        Some(s) => Some(s@),
                        None => None,
                    },
                    final(r).pos as int,
                ),
            ),
            Err(e) => e == FormatError::Truncated && name_at(old(r).bytes@, old(r).pos as int)
                is None,
        },
        res matches Ok(Some(s)) ==> s@.len() > 0,
{
    let len: u64 = match r.uvarint() {
        Ok(v) => v,
        Err(e) => {
            return Err(e);
        },
    };
    if len == 0 {
        return Ok(None);
    }
    if len > r.remaining() as u64 {
        return Err(FormatError::Truncated);
    }
    match r.take(len as usize) {
        Ok(bytes) => Ok(Some(lossy_text(bytes))),
        Err(e) => Err(e),
    }
}

/// Reads the identities and the points of a way.
fn read_shape(r: &mut Reader<'_>) -> (res: Result<
    (Vec<Option<i64>>, Vec<(i64, i64)>),
    FormatError,
>)
    requires
        old(r).wf(),
    ensures
        final(r).wf(),
        final(r).bytes@ == old(r).bytes@,
        match res {
            Ok(v) => shape_at(old(r).bytes@, old(r).pos as int) == Ok::<_, FormatError>(
                (v.0@, v.1@, final(r).pos as int),
            ),
            Err(e) => shape_at(old(r).bytes@, old(r).pos as int) == Err::<
                (Seq<Option<i64>>, Seq<(i64, i64)>, int),
                FormatError,
            >(e),
        },
{
    let n: u64 = match r.uvarint() {
        Ok(v) => v,
        Err(e) => {
            return Err(e);
        },
    };
    if n < 2 {
        return Err(FormatError::Misaligned);
    }
    let groups: u64 = n / 8 + (if n % 8 == 0 {
        0u64
    } else {
        1u64
    });
    if groups > r.remaining() as u64 {
        return Err(FormatError::Truncated);
    }
    let mask = match r.take(groups as usize) {
        Ok(m) => m,
        Err(e) => {
            return Err(e);
        },
    };
    let shared = match read_shared(r, mask, n) {
        Ok(v) => v,
        Err(e) => {
            return Err(e);
        },
    };
    let points = match read_points(r, n) {
        Ok(v) => v,
        Err(e) => {
            return Err(e);
        },
    };
    Ok((shared, points))
}

/// Reads one way.
fn read_way(r: &mut Reader<'_>, prev_id: i64) -> (res: Result<ArchiveWay, FormatError>)
    requires
        old(r).wf(),
    ensures
        final(r).wf(),
        final(r).bytes@ == old(r).bytes@,
        match res {
            Ok(w) => way_at(old(r).bytes@, old(r).pos as int, prev_id) == Ok::<_, FormatError>(
                (w@, final(r).pos as int),
            ),
            Err(e) => way_at(old(r).bytes@, old(r).pos as int, prev_id) == Err::<
                (WayView, int),
                FormatError,
            >(e),
        },
        res matches Ok(w) ==> named_or_not(w@),
{
    let id: i64 = match r.ivarint() {
        Ok(d) => prev_id.wrapping_add(d),
        Err(e) => {
            return Err(e);
        },
    };
    let packed: u8 = match r.u8() {
        Ok(b) => b,
        Err(e) => {
            return Err(e);
        },
    };
    let name = match read_name(r) {
        Ok(v) => v,
        Err(e) => {
            return Err(e);
        },
    };
    let (shared, points) = match read_shape(r) {
        Ok(v) => v,
        Err(e) => {
            return Err(e);
        },
    };
    Ok(ArchiveWay { id, kind: packed % 16, sac: packed / 16, name, points, shared })
}

/// A way has no name, or one that is not empty.
pub open spec fn named_or_not(w: WayView) -> bool {
    w.name matches Some(name) ==> name.len() > 0
}

/// Decodes one tile blob. A name that is there is never empty.
pub fn decode_tile(bytes: &[u8]) -> (res: Result<Vec<ArchiveWay>, FormatError>)
    ensures
        match res {
            Ok(v) => tile_of_bytes(bytes@) == Ok::<_, FormatError>(views(v@)),
            Err(e) => tile_of_bytes(bytes@) == Err::<Seq<WayView>, FormatError>(e),
        },
        res matches Ok(v) ==> forall|i: int|
            0 <= i < v@.len() ==> named_or_not((#[trigger] v@[i])@),
{
    let mut r = Reader::new(bytes);
    let magic = match r.take(4) {
        Ok(m) => m,
        Err(e) => {
            return Err(e);
        },
    };
    assert(bytes@.take(4) =~= magic@);
    if magic[0] != TILE_MAGIC[0] || magic[1] != TILE_MAGIC[1] || magic[2] != TILE_MAGIC[2]
        || magic[3] != TILE_MAGIC[3] {
        return Err(FormatError::BadMagic);
    }
    assert(magic@ =~= TILE_MAGIC@);
    let version: u8 = match r.u8() {
        Ok(v) => v,
        Err(e) => {
            return Err(e);
        },
    };
    if version != VERSION {
        return Err(FormatError::BadVersion(version));
    }
    let count: u64 = match r.uvarint() {
        Ok(v) => v,
        Err(e) => {
            return Err(e);
        },
    };
    let ghost whole = ways_at(bytes@, r.pos as int, count as nat, 0);
    let mut ways: Vec<ArchiveWay> = Vec::new();
    let mut prev_id: i64 = 0;
    let mut i: u64 = 0;
    assert(whole == in_front(views(ways@), whole)) by {
        if let Ok(s) = whole {
            assert(views(ways@) + s =~= s);
        }
    }
    while i < count
        invariant
            r.wf(),
            r.bytes@ == bytes@,
            tile_of_bytes(bytes@) == whole,
            i <= count,
            whole == in_front(
                views(ways@),
                ways_at(bytes@, r.pos as int, (count - i) as nat, prev_id),
            ),
            forall|k: int| 0 <= k < ways@.len() ==> named_or_not((#[trigger] ways@[k])@),
        decreases count - i,
    {
        let ghost held = views(ways@);
        match read_way(&mut r, prev_id) {
            Ok(w) => {
                prev_id = w.id;
                ways.push(w);
                proof {
                    assert(views(ways@) =~= held.push(w@));
                    if let Ok(rest) = ways_at(
                        bytes@,
                        r.pos as int,
                        (count - i - 1) as nat,
                        prev_id,
                    ) {
                        assert(held + (seq![w@] + rest) =~= held.push(w@) + rest);
                    }
                }
            },
            Err(e) => {
                return Err(e);
            },
        }
        i = i + 1;
    }
    assert(views(ways@) + seq![] =~= views(ways@));
    Ok(ways)
}

/// Ways in front of what a read yielded.
spec fn in_front(head: Seq<WayView>, r: Result<Seq<WayView>, FormatError>) -> Result<
    Seq<WayView>,
    FormatError,
> {
    match r {
        Ok(rest) => Ok(head + rest),
        Err(e) => Err(e),
    }
}

proof fn lemma_concat(s: Seq<u8>, a: Seq<u8>, t: Seq<u8>)
    ensures
        s + (a + t) == s + a + t,
{
    assert(s + (a + t) =~= s + a + t);
}

proof fn lemma_behind_push<T>(head: Seq<T>, x: T, r: Option<(Seq<T>, int)>)
    ensures
        behind(head, behind(seq![x], r)) == behind(head.push(x), r),
{
    if let Some((rest, next)) = r {
        assert(head + (seq![x] + rest) =~= head.push(x) + rest);
    }
}

} // verus!
