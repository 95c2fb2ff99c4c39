//! Variable-length integers, and a checked cursor over a byte slice.
use vstd::prelude::*;

use super::FormatError;
use vstd::arithmetic::power2::*;
use vstd::bits::*;

verus! {

/// Groups of seven bits that a number of sixty-four bits can take.
pub const MAX_GROUPS: usize = 10;

/// A number as little-endian groups of seven bits. Every byte but the last has
/// its top bit set.
pub open spec fn uvarint_bytes(v: nat) -> Seq<u8>
    decreases v,
{
    if v < 128 {
        seq![v as u8]
    } else {
        seq![(v % 128 + 128) as u8] + uvarint_bytes(v / 128)
    }
}

/// The number that little-endian groups of seven bits stand for.
pub open spec fn groups_value(groups: Seq<u8>) -> nat
    decreases groups.len(),
{
    if groups.len() == 0 {
        0
    } else {
        (groups[0] % 128) as nat + 128 * groups_value(groups.skip(1))
    }
}

/// Bytes up to and including the first one at or after `pos` whose top bit is
/// clear, or nothing when that byte is not among the next `limit` ones.
pub open spec fn group_count(bytes: Seq<u8>, pos: int, limit: nat) -> Option<nat>
    decreases limit,
{
    if limit == 0 || pos >= bytes.len() {
        None
    } else if bytes[pos] < 128 {
        Some(1)
    } else {
        match group_count(bytes, pos + 1, (limit - 1) as nat) {
            Some(n) => Some(n + 1),
            None => None,
        }
    }
}

/// What a checked read of an unsigned varint at `pos` yields: the value, kept
/// to sixty-four bits, and the position behind it.
pub open spec fn uvarint_at(bytes: Seq<u8>, pos: int) -> Option<(u64, int)> {
    match group_count(bytes, pos, MAX_GROUPS as nat) {
        Some(n) => Some(
            (
                (groups_value(bytes.subrange(pos, pos + n)) % 0x1_0000_0000_0000_0000) as u64,
                pos + n,
            ),
        ),
        None => None,
    }
}

/// Signed numbers interleaved with unsigned ones, so that small magnitudes stay
/// small: 0, -1, 1, -2, 2 and so on.
pub open spec fn zigzag_of(v: int) -> nat {
    if v >= 0 {
        (2 * v) as nat
    } else {
        (-2 * v - 1) as nat
    }
}

/// The inverse of [`zigzag_of`].
pub open spec fn unzigzag_of(v: nat) -> int {
    if v % 2 == 0 {
        (v / 2) as int
    } else {
        -((v / 2) as int) - 1
    }
}

/// A signed varint as bytes.
pub open spec fn ivarint_bytes(v: i64) -> Seq<u8> {
    uvarint_bytes(zigzag_of(v as int))
}

/// What a checked read of a signed varint at `pos` yields.
pub open spec fn ivarint_at(bytes: Seq<u8>, pos: int) -> Option<(i64, int)> {
    match uvarint_at(bytes, pos) {
        Some((v, next)) => Some((unzigzag_of(v as nat) as i64, next)),
        None => None,
    }
}

/// Four little-endian bytes as a number.
pub open spec fn u32le_of(b: Seq<u8>) -> u32 {
    (b[0] + 0x100 * b[1] + 0x1_0000 * b[2] + 0x100_0000 * b[3]) as u32
}

/// A number as four little-endian bytes.
pub open spec fn u32le_bytes(v: u32) -> Seq<u8> {
    seq![
        (v % 0x100) as u8,
        (v / 0x100 % 0x100) as u8,
        (v / 0x1_0000 % 0x100) as u8,
        (v / 0x100_0000) as u8,
    ]
}

/// Appends an unsigned varint.
pub fn put_uvarint(out: &mut Vec<u8>, v: u64)
    ensures
        final(out)@ == old(out)@ + uvarint_bytes(v as nat),
{
    let ghost before = out@;
    let mut rest: u64 = v;
    while rest >= 0x80
        invariant
            out@ + uvarint_bytes(rest as nat) == before + uvarint_bytes(v as nat),
        decreases rest,
    {
        let ghost held = out@;
        let low: u8 = (rest & 0x7f) as u8 | 0x80;
        assert((rest & 0x7f) as u8 | 0x80 == (rest % 128 + 128) as u8) by (bit_vector);
        assert(rest >> 7 == rest / 128) by (bit_vector);
        out.push(low);
        assert(out@ + uvarint_bytes((rest / 128) as nat) =~= held + uvarint_bytes(rest as nat));
        rest = rest >> 7;
    }
    out.push(rest as u8);
    assert(out@ =~= before + uvarint_bytes(v as nat));
}

/// Maps a signed number to an unsigned one of the same magnitude, doubled.
pub fn zigzag(v: i64) -> (z: u64)
    ensures
        z == zigzag_of(v as int),
{
    assert(v >= 0 ==> ((v << 1) ^ (v >> 63)) as u64 == 2 * v) by (bit_vector);
    assert(v < 0 ==> ((v << 1) ^ (v >> 63)) as u64 == -2 * v - 1) by (bit_vector);
    ((v << 1) ^ (v >> 63)) as u64
}

/// The inverse of [`zigzag`].
pub fn unzigzag(v: u64) -> (n: i64)
    ensures
        n == unzigzag_of(v as nat),
{
    let half: i64 = (v >> 1) as i64;
    assert(v >> 1 == v / 2 && v / 2 <= 0x7fff_ffff_ffff_ffff) by (bit_vector);
    assert(v & 1 == v % 2) by (bit_vector);
    if v & 1 == 0 {
        half
    } else {
        -half - 1
    }
}

/// Appends a signed varint.
pub fn put_ivarint(out: &mut Vec<u8>, v: i64)
    ensures
        final(out)@ == old(out)@ + ivarint_bytes(v),
{
    put_uvarint(out, zigzag(v));
}

/// Cursor over a byte slice. Every read is checked: a truncated file fails and
/// never yields plausible-looking numbers.
pub struct Reader<'a> {
    pub bytes: &'a [u8],
    pub pos: usize,
}

impl<'a> Reader<'a> {
    /// The cursor stands inside the slice or at its end.
    pub open spec fn wf(&self) -> bool {
        self.pos <= self.bytes@.len()
    }

    /// A cursor at the start of a slice.
    pub fn new(bytes: &'a [u8]) -> (r: Self)
        ensures
            r.wf(),
            r.bytes@ == bytes@,
            r.pos == 0,
    {
        Self { bytes, pos: 0 }
    }

    /// Bytes not read yet.
    pub fn remaining(&self) -> (n: usize)
        requires
            self.wf(),
        ensures
            n == self.bytes@.len() - self.pos,
    {
        self.bytes.len() - self.pos
    }

    /// Reads one byte.
    pub fn u8(&mut self) -> (r: Result<u8, FormatError>)
        requires
            old(self).wf(),
        ensures
            final(self).wf(),
            final(self).bytes@ == old(self).bytes@,
            match r {
                Ok(b) => old(self).pos < old(self).bytes@.len() && b == old(self).bytes@[old(
                    self,
                ).pos as int] && final(self).pos == old(self).pos + 1,
                Err(e) => e == FormatError::Truncated && old(self).pos == old(self).bytes@.len()
                    && final(self).pos == old(self).pos,
            },
    {
        if self.pos < self.bytes.len() {
            let b: u8 = self.bytes[self.pos];
            self.pos = self.pos + 1;
            Ok(b)
        } else {
            Err(FormatError::Truncated)
        }
    }

    /// Reads `n` bytes.
    pub fn take(&mut self, n: usize) -> (r: Result<&'a [u8], FormatError>)
        requires
            old(self).wf(),
        ensures
            final(self).wf(),
            final(self).bytes@ == old(self).bytes@,
            match r {
                Ok(s) => old(self).pos + n <= old(self).bytes@.len() && s@ == old(
                    self,
                ).bytes@.subrange(old(self).pos as int, old(self).pos + n) && final(self).pos
                    == old(self).pos + n,
                Err(e) => e == FormatError::Truncated && old(self).pos + n > old(self).bytes@.len()
                    && final(self).pos == old(self).pos,
            },
    {
        if n <= self.bytes.len() - self.pos {
            let end: usize = self.pos + n;
            let slice = vstd::slice::slice_subrange(self.bytes, self.pos, end);
            self.pos = end;
            Ok(slice)
        } else {
            Err(FormatError::Truncated)
        }
    }

    /// Reads an unsigned varint. A number of more groups than sixty-four bits
    /// can take is refused. A refused read stops behind the last byte it saw.
    pub fn uvarint(&mut self) -> (r: Result<u64, FormatError>)
        requires
            old(self).wf(),
        ensures
            final(self).wf(),
            final(self).bytes@ == old(self).bytes@,
            match r {
                Ok(v) => uvarint_at(old(self).bytes@, old(self).pos as int) == Some(
                    (v, final(self).pos as int),
                ),
                Err(e) => e == FormatError::Truncated && uvarint_at(
                    old(self).bytes@,
                    old(self).pos as int,
                ) is None && final(self).pos == vstd::math::min(
                    old(self).pos + MAX_GROUPS,
                    old(self).bytes@.len() as int,
                ),
            },
    {
        let ghost bytes = self.bytes@;
        let ghost start = self.pos as int;
        let mut result: u64 = 0;
        let mut shift: u32 = 0;
        let mut k: usize = 0;
        proof {
            lemma2_to64();
        }
        loop
            invariant
                self.wf(),
                self.bytes@ == bytes,
                k < MAX_GROUPS,
                shift == 7 * k,
                self.pos == start + k,
                0 <= start,
                start == old(self).pos,
                bytes == old(self).bytes@,
                result == groups_value(bytes.subrange(start, start + k)),
                groups_value(bytes.subrange(start, start + k)) < pow2(
                    (7 * k) as nat,
                ),
                forall|j: int| start <= j < start + k ==> bytes[j] >= 128,
            decreases MAX_GROUPS - k,
        {
            let b: u8 = match self.u8() {
                Ok(b) => b,
                Err(e) => {
                    proof {
                        lemma_no_end(bytes, start, k as nat, MAX_GROUPS as nat);
                    }
                    return Err(e);
                },
            };
            proof {
                lemma_group_step(bytes, start, k as nat, result, b);
            }
            result = result | (((b & 0x7f) as u64) << shift);
            assert(b & 0x80 == 0 <==> b < 128) by (bit_vector);
            if b & 0x80 == 0 {
                proof {
                    lemma_end(bytes, start, k as nat, MAX_GROUPS as nat);
                }
                return Ok(result);
            }
            shift = shift + 7;
            k = k + 1;
            if shift > 63 {
                proof {
                    lemma_no_end(bytes, start, k as nat, MAX_GROUPS as nat);
                }
                return Err(FormatError::Truncated);
            }
        }
    }

    /// Reads a signed varint.
    pub fn ivarint(&mut self) -> (r: Result<i64, FormatError>)
        requires
            old(self).wf(),
        ensures
            final(self).wf(),
            final(self).bytes@ == old(self).bytes@,
            match r {
                Ok(v) => ivarint_at(old(self).bytes@, old(self).pos as int) == Some(
                    (v, final(self).pos as int),
                ),
                Err(e) => e == FormatError::Truncated && ivarint_at(
                    old(self).bytes@,
                    old(self).pos as int,
                ) is None && final(self).pos == vstd::math::min(
                    old(self).pos + MAX_GROUPS,
                    old(self).bytes@.len() as int,
                ),
            },
    {
        match self.uvarint() {
            Ok(v) => Ok(unzigzag(v)),
            Err(e) => Err(e),
        }
    }

    /// Reads a number of four little-endian bytes.
    pub fn u32le(&mut self) -> (r: Result<u32, FormatError>)
        requires
            old(self).wf(),
        ensures
            final(self).wf(),
            final(self).bytes@ == old(self).bytes@,
            match r {
                Ok(v) => old(self).pos + 4 <= old(self).bytes@.len() && v == u32le_of(
                    old(self).bytes@.subrange(old(self).pos as int, old(self).pos + 4),
                ) && final(self).pos == old(self).pos + 4,
                Err(e) => e == FormatError::Truncated && old(self).pos + 4 > old(self).bytes@.len()
                    && final(self).pos == old(self).pos,
            },
    {
        match self.take(4) {
            Ok(b) => Ok(
                b[0] as u32 + 0x100 * b[1] as u32 + 0x1_0000 * b[2] as u32 + 0x100_0000
                    * b[3] as u32,
            ),
            Err(e) => Err(e),
        }
    }
}

/// Appends a number as four little-endian bytes.
pub fn put_u32le(out: &mut Vec<u8>, v: u32)
    ensures
        final(out)@ == old(out)@ + u32le_bytes(v),
{
    let ghost before = out@;
    out.push((v % 0x100) as u8);
    out.push((v / 0x100 % 0x100) as u8);
    out.push((v / 0x1_0000 % 0x100) as u8);
    out.push((v / 0x100_0000) as u8);
    assert(out@ =~= before + u32le_bytes(v));
}

/// The groups of a varint end at the first byte with a clear top bit.
proof fn lemma_end(bytes: Seq<u8>, start: int, k: nat, limit: nat)
    requires
        0 <= start,
        start + k < bytes.len(),
        k < limit,
        bytes[start + k] < 128,
        forall|j: int| start <= j < start + k ==> bytes[j] >= 128,
    ensures
        group_count(bytes, start, limit) == Some((k + 1) as nat),
    decreases k,
{
    if k > 0 {
        lemma_end(bytes, start + 1, (k - 1) as nat, (limit - 1) as nat);
    }
}

/// A run of set top bits that fills the limit or the slice never ends.
proof fn lemma_no_end(bytes: Seq<u8>, start: int, k: nat, limit: nat)
    requires
        0 <= start,
        start + k <= bytes.len(),
        k <= limit,
        k == limit || start + k == bytes.len(),
        forall|j: int| start <= j < start + k ==> bytes[j] >= 128,
    ensures
        group_count(bytes, start, limit) is None,
    decreases k,
{
    if k > 0 {
        lemma_no_end(bytes, start + 1, (k - 1) as nat, (limit - 1) as nat);
    }
}

/// A further group counts for its seven bits, times the weight of its place.
proof fn lemma_groups_push(groups: Seq<u8>, b: u8)
    ensures
        groups_value(groups.push(b)) == groups_value(groups) + (b % 128) * pow2(
            (7 * groups.len()) as nat,
        ),
    decreases groups.len(),
{
    lemma2_to64();
    let all = groups.push(b);
    let low = (b % 128) as int;
    if groups.len() == 0 {
        assert(all.skip(1) =~= Seq::<u8>::empty());
        assert(groups_value(all.skip(1)) == 0);
        assert(pow2((7 * groups.len()) as nat) == 1);
        assert(low * 1 == low);
    } else {
        let tail = groups.skip(1);
        assert(all.skip(1) =~= tail.push(b));
        lemma_groups_push(tail, b);
        lemma_pow2_adds(7, (7 * tail.len()) as nat);
        assert((7 + 7 * tail.len()) as nat == (7 * groups.len()) as nat);
        let p = pow2((7 * tail.len()) as nat) as int;
        assert(pow2((7 * groups.len()) as nat) == 128 * p);
        assert(128 * (low * p) == low * (128 * p)) by (nonlinear_arith);
        assert(all[0] == groups[0]);
    }
}

/// One step of reading a varint: a group lands on free bits of the result.
proof fn lemma_group_step(bytes: Seq<u8>, start: int, k: nat, result: u64, b: u8)
    requires
        0 <= start,
        start + k < bytes.len(),
        k < MAX_GROUPS,
        bytes[start + k] == b,
        result == groups_value(bytes.subrange(start, start + k)),
        result < pow2((7 * k) as nat),
    ensures
        (result | (((b & 0x7f) as u64) << ((7 * k) as u32))) == groups_value(
            bytes.subrange(start, start + k + 1),
        ) % 0x1_0000_0000_0000_0000,
        k + 1 < MAX_GROUPS ==> groups_value(bytes.subrange(start, start + k + 1)) < pow2(
            (7 * (k + 1)) as nat,
        ) && groups_value(bytes.subrange(start, start + k + 1)) <= u64::MAX,
{
    let groups = bytes.subrange(start, start + k);
    assert(bytes.subrange(start, start + k + 1) =~= groups.push(b));
    lemma_groups_push(groups, b);
    lemma2_to64();
    lemma2_to64_rest();
    let w: u64 = (b & 0x7f) as u64;
    assert(w == b % 128 && w < 128) by (bit_vector)
        requires
            w == (b & 0x7f) as u64,
    ;
    let s: u64 = (7 * k) as u64;
    let s32: u32 = (7 * k) as u32;
    let p = pow2((7 * k) as nat) as int;
    assert(w << s == w << s32) by (bit_vector)
        requires
            s == s32,
    ;
    lemma_pow2_pos((7 * k) as nat);
    assert(0 <= w * p) by (nonlinear_arith)
        requires
            0 <= w,
            0 < p,
    ;
    if k + 1 < MAX_GROUPS {
        lemma_pow2_adds((7 * k) as nat, 7);
        let q = pow2((7 * (k + 1)) as nat) as int;
        assert((7 * k + 7) as nat == (7 * (k + 1)) as nat);
        assert(q == p * 128);
        assert(w * p <= 127 * p) by (nonlinear_arith)
            requires
                w <= 127,
                0 < p,
        ;
        if 7 * (k + 1) < 63 {
            lemma_pow2_strictly_increases((7 * (k + 1)) as nat, 63);
        }
        lemma_u64_shl_is_mul(w, s);
        lemma_pow2_strictly_increases((7 * k) as nat, 63);
        assert(1 * p == p);
        lemma_u64_shl_is_mul(1, s);
        assert(result | (w << s) == result + (w << s)) by (bit_vector)
            requires
                s <= 56,
                w < 128,
                result < 1u64 << s,
        ;
    } else {
        assert(result | (w << 63u64) == result + (w % 2) * 0x8000_0000_0000_0000) by (bit_vector)
            requires
                w < 128,
                result < 0x8000_0000_0000_0000,
        ;
        assert((result + w * 0x8000_0000_0000_0000) % 0x1_0000_0000_0000_0000 == result + (w % 2)
            * 0x8000_0000_0000_0000);
    }
}

/// A piece of data stands in `bytes` from `pos` on.
pub open spec fn holds_at(bytes: Seq<u8>, pos: int, piece: Seq<u8>) -> bool {
    &&& 0 <= pos
    &&& pos + piece.len() <= bytes.len()
    &&& bytes.subrange(pos, pos + piece.len()) == piece
}

/// Zigzag loses nothing over the whole range of signed numbers.
pub proof fn law_zigzag_roundtrip(v: int)
    ensures
        unzigzag_of(zigzag_of(v)) == v,
{
}

/// An unsigned varint is read back as it was written, wherever it stands.
pub proof fn law_uvarint_roundtrip(bytes: Seq<u8>, pos: int, v: u64)
    requires
        holds_at(bytes, pos, uvarint_bytes(v as nat)),
    ensures
        uvarint_at(bytes, pos) == Some((v, pos + uvarint_bytes(v as nat).len())),
{
    lemma2_to64();
    lemma2_to64_rest();
    lemma_pow2_strictly_increases(64, 70);
    lemma_uvarint_groups(bytes, pos, v as nat, MAX_GROUPS as nat);
}

/// A signed varint is read back as it was written, wherever it stands.
pub proof fn law_ivarint_roundtrip(bytes: Seq<u8>, pos: int, v: i64)
    requires
        holds_at(bytes, pos, ivarint_bytes(v)),
    ensures
        ivarint_at(bytes, pos) == Some((v, pos + ivarint_bytes(v).len())),
{
    law_uvarint_roundtrip(bytes, pos, zigzag_of(v as int) as u64);
}

/// A varint that is cut short is never read as another number, and what follows
/// a varint does not change it.
pub proof fn law_uvarint_prefix(bytes: Seq<u8>, pos: int, len: int)
    requires
        0 <= pos,
        0 <= len <= bytes.len(),
        uvarint_at(bytes, pos) is Some,
    ensures
        pos < (uvarint_at(bytes, pos)->0).1 <= bytes.len(),
        len >= (uvarint_at(bytes, pos)->0).1 ==> uvarint_at(bytes.take(len), pos) == uvarint_at(
            bytes,
            pos,
        ),
        len < (uvarint_at(bytes, pos)->0).1 ==> uvarint_at(bytes.take(len), pos) is None,
{
    lemma_group_count_prefix(bytes, pos, len, MAX_GROUPS as nat);
    let n = group_count(bytes, pos, MAX_GROUPS as nat)->0;
    if len >= pos + n {
        assert(bytes.take(len).subrange(pos, pos + n) =~= bytes.subrange(pos, pos + n));
    }
}

/// The same of a signed varint.
pub proof fn law_ivarint_prefix(bytes: Seq<u8>, pos: int, len: int)
    requires
        0 <= pos,
        0 <= len <= bytes.len(),
        ivarint_at(bytes, pos) is Some,
    ensures
        pos < (ivarint_at(bytes, pos)->0).1 <= bytes.len(),
        len >= (ivarint_at(bytes, pos)->0).1 ==> ivarint_at(bytes.take(len), pos) == ivarint_at(
            bytes,
            pos,
        ),
        len < (ivarint_at(bytes, pos)->0).1 ==> ivarint_at(bytes.take(len), pos) is None,
{
    law_uvarint_prefix(bytes, pos, len);
}

/// Four little-endian bytes hold a number of thirty-two bits without loss.
pub proof fn law_u32le_roundtrip(v: u32)
    ensures
        u32le_bytes(v).len() == 4,
        u32le_of(u32le_bytes(v)) == v,
{
}

/// Two pieces in a row stand one behind the other.
pub proof fn lemma_holds_split(bytes: Seq<u8>, pos: int, a: Seq<u8>, b: Seq<u8>)
    requires
        holds_at(bytes, pos, a + b),
    ensures
        holds_at(bytes, pos, a),
        holds_at(bytes, pos + a.len(), b),
{
    let whole = bytes.subrange(pos, pos + (a + b).len());
    assert(whole.subrange(0, a.len() as int) =~= a);
    assert(bytes.subrange(pos, pos + a.len()) =~= whole.subrange(0, a.len() as int));
    assert(whole.subrange(a.len() as int, (a + b).len() as int) =~= b);
    assert(bytes.subrange(pos + a.len(), pos + a.len() + b.len()) =~= whole.subrange(
        a.len() as int,
        (a + b).len() as int,
    ));
}

/// The groups of a written number are as many as were written, and worth the
/// number.
proof fn lemma_uvarint_groups(bytes: Seq<u8>, pos: int, v: nat, limit: nat)
    requires
        holds_at(bytes, pos, uvarint_bytes(v)),
        limit > 0,
        v < pow2(7 * limit),
    ensures
        group_count(bytes, pos, limit) == Some(uvarint_bytes(v).len()),
        groups_value(uvarint_bytes(v)) == v,
    decreases v,
{
    lemma2_to64();
    let piece = uvarint_bytes(v);
    assert(bytes.subrange(pos, pos + piece.len())[0] == bytes[pos]);
    if v < 128 {
        assert(piece.skip(1) =~= Seq::<u8>::empty());
        assert(groups_value(piece.skip(1)) == 0);
    } else {
        let low = seq![(v % 128 + 128) as u8];
        let rest = uvarint_bytes(v / 128);
        lemma_holds_split(bytes, pos, low, rest);
        lemma_pow2_adds(7, (7 * (limit - 1)) as nat);
        assert((7 + 7 * (limit - 1)) as nat == 7 * limit);
        assert(v / 128 < pow2((7 * (limit - 1)) as nat));
        lemma_uvarint_groups(bytes, pos + 1, v / 128, (limit - 1) as nat);
        assert(piece.skip(1) =~= rest);
        assert(piece[0] % 128 == v % 128);
    }
}

proof fn lemma_group_count_prefix(bytes: Seq<u8>, pos: int, len: int, limit: nat)
    requires
        0 <= pos,
        0 <= len <= bytes.len(),
        group_count(bytes, pos, limit) is Some,
    ensures
        0 < group_count(bytes, pos, limit)->0,
        pos + group_count(bytes, pos, limit)->0 <= bytes.len(),
        len >= pos + group_count(bytes, pos, limit)->0 ==> group_count(bytes.take(len), pos, limit)
            == group_count(bytes, pos, limit),
        len < pos + group_count(bytes, pos, limit)->0 ==> group_count(bytes.take(len), pos, limit)
            is None,
    decreases limit,
{
    if bytes[pos] >= 128 {
        lemma_group_count_prefix(bytes, pos + 1, len, (limit - 1) as nat);
    }
    if pos < len {
        assert(bytes.take(len)[pos] == bytes[pos]);
    }
}

/// Numbers that are not below nought become even ones, the others odd ones, and
/// in steps of two each way from nought.
pub proof fn law_zigzag_goes_to_and_fro(v: int)
    ensures
        zigzag_of(0) == 0,
        v >= 0 ==> zigzag_of(v + 1) == zigzag_of(v) + 2,
        v < 0 ==> zigzag_of(v) == zigzag_of(-v) - 1,
{
}

/// In a varint every byte but the last has its top bit set, and the other seven
/// bits are the number's, the lowest first: the last of some groups weighs a
/// hundred and twenty-eight times as much as the one before it.
pub proof fn law_groups_weigh_more_and_more(groups: Seq<u8>, last: u8)
    ensures
        groups_value(groups.push(last)) == groups_value(groups) + (last % 128) * pow2(
            7 * groups.len(),
        ),
    decreases groups.len(),
{
    let all = groups.push(last);
    if groups.len() == 0 {
        lemma2_to64();
        assert(all.skip(1) =~= groups);
    } else {
        let rest = groups.skip(1);
        law_groups_weigh_more_and_more(rest, last);
        assert(all.skip(1) =~= rest.push(last));
        lemma2_to64();
        lemma_pow2_adds(7, 7 * rest.len());
        assert(7 * groups.len() == 7 + 7 * rest.len());
        let p = pow2(7 * rest.len());
        let x = (last % 128) as nat;
        assert(128 * (x * p) == x * (128 * p)) by (nonlinear_arith);
    }
}

/// A number is written in groups that stand for it, with the top bit of each byte
/// but the last, and no group at the end that is nought, unless it is the only
/// one.
pub proof fn law_a_number_is_written_in_groups(v: nat)
    ensures
        ({
            let b = uvarint_bytes(v);
            &&& b.len() > 0
            &&& groups_value(b) == v
            &&& b.last() < 128
            &&& b.last() != 0 || b.len() == 1
            &&& forall|i: int| 0 <= i < b.len() - 1 ==> #[trigger] b[i] >= 128
        }),
    decreases v,
{
    let b = uvarint_bytes(v);
    if v < 128 {
        assert(b.skip(1) =~= Seq::<u8>::empty());
        assert(groups_value(b.skip(1)) == 0);
        assert(b[0] == v);
    } else {
        let rest = uvarint_bytes(v / 128);
        assert(b[0] == v % 128 + 128);
        assert((b[0] % 128) as nat == v % 128);
        law_a_number_is_written_in_groups(v / 128);
        assert(b.skip(1) =~= rest);
        assert(b.last() == rest.last());
        if rest.len() == 1 && rest.last() == 0 {
            assert(rest.skip(1) =~= Seq::<u8>::empty());
            assert(groups_value(rest.skip(1)) == 0);
            assert(groups_value(rest) == 0);
        }
        assert forall|i: int| 0 <= i < b.len() - 1 implies #[trigger] b[i] >= 128 by {
            if i > 0 {
                assert(b[i] == rest[i - 1]);
            }
        }
    }
}

/// A number of thirty-two bits has its lowest byte first.
pub proof fn law_four_bytes_with_the_lowest_first(b: Seq<u8>)
    requires
        b.len() == 4,
    ensures
        u32le_of(b) == b[0] + 256 * (b[1] + 256 * (b[2] + 256 * b[3])),
{
}

} // verus!
