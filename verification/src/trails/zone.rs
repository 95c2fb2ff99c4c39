//! Zones: the squares of ground that ways are asked for by.
use vstd::prelude::*;

use crate::text;
use crate::text::put_decimal;

verus! {

/// How many sizes of zones there are.
pub const ZONE_LEVEL_COUNT: u8 = 2;

/// Side of a fine zone, in ten-thousandths of a degree: the click.
pub const FINE_SIZE: i64 = 200;

/// Side of a coarse zone, in ten-thousandths of a degree: the isochrone, which
/// needs a whole basin at once.
pub const COARSE_SIZE: i64 = 1000;

#[derive(Clone, Copy, Debug, PartialEq, Eq, Hash, Structural)]
pub struct ZoneKey {
    pub level: u8,
    pub lat: i32,
    pub lon: i32,
}

impl ZoneKey {
    /// There are zones of this size.
    pub open spec fn ok(self) -> bool {
        self.level < ZONE_LEVEL_COUNT
    }

    /// Side of the zone, in ten-thousandths of a degree.
    pub open spec fn side(self) -> int {
        if self.level == 0 {
            FINE_SIZE as int
        } else {
            COARSE_SIZE as int
        }
    }

    /// A key as one number.
    pub open spec fn code_of(self) -> u128 {
        (self.level * 0x1_0000_0000_0000_0000 + (self.lat + 0x8000_0000) * 0x1_0000_0000 + (self.lon
            + 0x8000_0000)) as u128
    }

    /// A key as one number.
    pub fn code(self) -> (c: u128)
        ensures
            c == self.code_of(),
    {
        self.level as u128 * 0x1_0000_0000_0000_0000 + ((self.lat as i64 + 0x8000_0000) as u128)
            * 0x1_0000_0000 + ((self.lon as i64 + 0x8000_0000) as u128)
    }

    /// Side of the zone, in ten-thousandths of a degree.
    pub fn size(self) -> (s: i64)
        requires
            self.ok(),
        ensures
            s == self.side(),
    {
        if self.level == 0 {
            FINE_SIZE
        } else {
            COARSE_SIZE
        }
    }

    /// South, west, north and east, in ten-thousandths of a degree.
    pub fn bbox(self) -> (b: (i64, i64, i64, i64))
        requires
            self.ok(),
        ensures
            b.0 == self.lat * self.side(),
            b.1 == self.lon * self.side(),
            b.2 == self.lat * self.side() + self.side(),
            b.3 == self.lon * self.side() + self.side(),
            b.0 > i64::MIN,
            b.1 > i64::MIN,
    {
        let size: i64 = self.size();
        if self.level == 0 {
            let s: i64 = self.lat as i64 * 200;
            let w: i64 = self.lon as i64 * 200;
            (s, w, s + size, w + size)
        } else {
            let s: i64 = self.lat as i64 * 1000;
            let w: i64 = self.lon as i64 * 1000;
            (s, w, s + size, w + size)
        }
    }
}

/// Different zones are different numbers.
pub proof fn law_codes_differ(a: ZoneKey, b: ZoneKey)
    ensures
        a.code_of() == b.code_of() ==> a == b,
{
}

/// A number of ten-thousandths with four digits behind the point.
pub open spec fn fixed4(n: int) -> Seq<char> {
    let m = if n < 0 {
        -n
    } else {
        n
    };
    (if n < 0 {
        seq!['-']
    } else {
        seq![]
    }) + text::decimal((m / 10000) as nat) + seq![
        '.',
        text::digit((m / 1000 % 10) as nat),
        text::digit((m / 100 % 10) as nat),
        text::digit((m / 10 % 10) as nat),
        text::digit((m % 10) as nat),
    ]
}

/// Appends a number of ten-thousandths with four digits behind the point.
pub fn put_fixed4(out: &mut String, n: i64)
    requires
        n > i64::MIN,
    ensures
        final(out)@ == old(out)@ + fixed4(n as int),
{
    let ghost before = out@;
    if n < 0 {
        out.push('-');
    }
    let m: u64 = if n < 0 {
        (-n) as u64
    } else {
        n as u64
    };
    put_decimal(out, m / 10000);
    out.push('.');
    out.push((48 + (m / 1000 % 10) as u8) as char);
    out.push((48 + (m / 100 % 10) as u8) as char);
    out.push((48 + (m / 10 % 10) as u8) as char);
    out.push((48 + (m % 10) as u8) as char);
    assert(out@ =~= before + fixed4(n as int));
}

// ---------------------------------------------------------------------------
// Zones of an area, nearest first
// ---------------------------------------------------------------------------

/// The zones of a row.
pub open spec fn row_of(level: u8, lat: i32, cols: Seq<i32>) -> Seq<ZoneKey> {
    Seq::new(cols.len(), |i: int| ZoneKey { level, lat, lon: cols[i] })
}

/// The zones of some rows and columns, row by row.
pub open spec fn grid_of(level: u8, rows: Seq<i32>, cols: Seq<i32>) -> Seq<ZoneKey>
    decreases rows.len(),
{
    if rows.len() == 0 {
        seq![]
    } else {
        grid_of(level, rows.drop_last(), cols) + row_of(level, rows.last(), cols)
    }
}

/// The zones of some rows and columns, row by row.
pub fn zone_grid(level: u8, rows: &Vec<i32>, cols: &Vec<i32>) -> (v: Vec<ZoneKey>)
    ensures
        v@ == grid_of(level, rows@, cols@),
{
    let mut out: Vec<ZoneKey> = Vec::new();
    let mut i: usize = 0;
    while i < rows.len()
        invariant
            i <= rows@.len(),
            out@ == grid_of(level, rows@.take(i as int), cols@),
        decreases rows@.len() - i,
    {
        let ghost held = out@;
        assert(rows@.take(i + 1).drop_last() =~= rows@.take(i as int));
        let lat: i32 = rows[i];
        let mut j: usize = 0;
        assert(out@ =~= held + row_of(level, lat, cols@).take(0));
        while j < cols.len()
            invariant
                j <= cols@.len(),
                out@ == held + row_of(level, lat, cols@).take(j as int),
            decreases cols@.len() - j,
        {
            out.push(ZoneKey { level, lat, lon: cols[j] });
            assert(out@ =~= held + row_of(level, lat, cols@).take(j + 1));
            j = j + 1;
        }
        assert(row_of(level, lat, cols@).take(j as int) =~= row_of(level, lat, cols@));
        i = i + 1;
    }
    assert(rows@.take(i as int) =~= rows@);
    out
}

/// A zone with its distance, in whole metres.
pub type Ranked = (ZoneKey, i64);

/// Whether a zone comes strictly later than another: the home zone first, then
/// by distance.
pub open spec fn later(a: Ranked, b: Ranked, home: ZoneKey) -> bool {
    if a.0 == home {
        b.0 == home && a.1 > b.1
    } else {
        b.0 == home || a.1 > b.1
    }
}

/// How many zones of an ordered run come no later than one.
pub open spec fn room_for(sorted: Seq<Ranked>, x: Ranked, home: ZoneKey) -> int
    decreases sorted.len(),
{
    if sorted.len() == 0 {
        0
    } else if later(sorted.last(), x, home) {
        room_for(sorted.drop_last(), x, home)
    } else {
        sorted.len() as int
    }
}

/// The zones in order, each behind those that come no later and were given
/// before it.
pub open spec fn in_order(list: Seq<Ranked>, home: ZoneKey) -> Seq<Ranked>
    decreases list.len(),
{
    if list.len() == 0 {
        seq![]
    } else {
        let rest = in_order(list.drop_last(), home);
        rest.insert(room_for(rest, list.last(), home), list.last())
    }
}

/// The zones with their distances.
pub open spec fn ranked(keys: Seq<ZoneKey>, dists: Seq<i64>) -> Seq<Ranked> {
    Seq::new(keys.len(), |i: int| (keys[i], dists[i]))
}

/// The zones alone.
pub open spec fn keys_of(list: Seq<Ranked>) -> Seq<ZoneKey> {
    Seq::new(list.len(), |i: int| list[i].0)
}

fn is_later(a: Ranked, b: Ranked, home: ZoneKey) -> (r: bool)
    ensures
        r == later(a, b, home),
{
    if a.0 == home {
        b.0 == home && a.1 > b.1
    } else {
        b.0 == home || a.1 > b.1
    }
}

/// Orders zones: the one that holds the centre first, the others by distance,
/// equals as they were given. Whatever a cap cuts off is then the far edge.
pub fn nearest_first(keys: &Vec<ZoneKey>, dists: &Vec<i64>, home: ZoneKey) -> (v: Vec<ZoneKey>)
    requires
        keys@.len() == dists@.len(),
    ensures
        v@ == keys_of(in_order(ranked(keys@, dists@), home)),
{
    let ghost all = ranked(keys@, dists@);
    let mut sorted: Vec<Ranked> = Vec::new();
    let mut i: usize = 0;
    while i < keys.len()
        invariant
            keys@.len() == dists@.len(),
            all == ranked(keys@, dists@),
            i <= keys@.len(),
            sorted@ == in_order(all.take(i as int), home),
        decreases keys@.len() - i,
    {
        assert(all.take(i + 1).drop_last() =~= all.take(i as int));
        let x: Ranked = (keys[i], dists[i]);
        assert(all.take(i + 1).last() == x);
        let mut at: usize = sorted.len();
        let ghost s = sorted@;
        assert(s.take(at as int) =~= s);
        while at > 0 && is_later(sorted[at - 1], x, home)
            invariant
                sorted@ == s,
                at <= s.len(),
                room_for(s, x, home) == room_for(s.take(at as int), x, home),
            decreases at,
        {
            assert(s.take(at as int).drop_last() =~= s.take(at - 1));
            at = at - 1;
        }
        assert(s.take(at as int).drop_last() =~= s.take(at - 1) || at == 0);
        sorted.insert(at, x);
        i = i + 1;
    }
    assert(all.take(i as int) =~= all);
    let mut out: Vec<ZoneKey> = Vec::new();
    let mut k: usize = 0;
    while k < sorted.len()
        invariant
            k <= sorted@.len(),
            out@ == keys_of(sorted@).take(k as int),
        decreases sorted@.len() - k,
    {
        out.push(sorted[k].0);
        assert(out@ =~= keys_of(sorted@).take(k + 1));
        k = k + 1;
    }
    assert(keys_of(sorted@).take(k as int) =~= keys_of(sorted@));
    out
}

/// Ordering loses no zone and adds none, and no zone comes before one that it is
/// later than.
pub proof fn law_nearest_first(list: Seq<Ranked>, home: ZoneKey)
    ensures
        in_order(list, home).to_multiset() == list.to_multiset(),
        forall|i: int, j: int|
            0 <= i < j < in_order(list, home).len() ==> !later(
                #[trigger] in_order(list, home)[i],
                #[trigger] in_order(list, home)[j],
                home,
            ),
    decreases list.len(),
{
    if list.len() > 0 {
        let less = list.drop_last();
        let x = list.last();
        law_nearest_first(less, home);
        let rest = in_order(less, home);
        lemma_room(rest, x, home);
        let at = room_for(rest, x, home);
        let all = rest.insert(at, x);
        assert forall|i: int, j: int| 0 <= i < j < all.len() implies !later(
            #[trigger] all[i],
            #[trigger] all[j],
            home,
        ) by {
            if j < at {
                assert(!later(rest[i], rest[j], home));
            } else if i > at {
                assert(!later(rest[i - 1], rest[j - 1], home));
            } else if j == at {
                assert(!later(rest[i], x, home));
            } else if i == at {
                assert(later(rest[j - 1], x, home));
            } else {
                assert(!later(rest[i], rest[j - 1], home));
            }
        }
        assert(list =~= less.push(x));
        less.to_multiset_ensures();
        vstd::seq_lib::to_multiset_insert(rest, at, x);
    } else {
        assert(list =~= seq![]);
    }
}

/// Everything up to the place of a zone comes no later, everything behind it
/// does.
proof fn lemma_room(sorted: Seq<Ranked>, x: Ranked, home: ZoneKey)
    requires
        forall|i: int, j: int|
            0 <= i < j < sorted.len() ==> !later(
                #[trigger] sorted[i],
                #[trigger] sorted[j],
                home,
            ),
    ensures
        0 <= room_for(sorted, x, home) <= sorted.len(),
        forall|i: int|
            0 <= i < room_for(sorted, x, home) ==> !later(#[trigger] sorted[i], x, home),
        forall|i: int|
            room_for(sorted, x, home) <= i < sorted.len() ==> later(#[trigger] sorted[i], x, home),
    decreases sorted.len(),
{
    if sorted.len() > 0 {
        let less = sorted.drop_last();
        if later(sorted.last(), x, home) {
            assert forall|i: int, j: int| 0 <= i < j < less.len() implies !later(
                #[trigger] less[i],
                #[trigger] less[j],
                home,
            ) by {
                assert(!later(sorted[i], sorted[j], home));
            }
            lemma_room(less, x, home);
            assert forall|i: int| 0 <= i < room_for(sorted, x, home) implies !later(
                #[trigger] sorted[i],
                x,
                home,
            ) by {
                assert(!later(less[i], x, home));
            }
            assert forall|i: int| room_for(sorted, x, home) <= i < sorted.len() implies later(
                #[trigger] sorted[i],
                x,
                home,
            ) by {
                if i < less.len() {
                    assert(later(less[i], x, home));
                }
            }
        } else {
            assert forall|i: int| 0 <= i < sorted.len() implies !later(
                #[trigger] sorted[i],
                x,
                home,
            ) by {
                if i < sorted.len() - 1 {
                    assert(!later(sorted[i], sorted[sorted.len() - 1], home));
                }
            }
        }
    }
}

/// Coordinates are written in full: the digits in front of the point and the four
/// behind it, read together, are the ten-thousandths, with a sign for those below
/// nought.
#[verifier::spinoff_prover]
#[verifier::rlimit(60)]
pub proof fn law_coordinates_are_written_in_full(n: int)
    ensures
        ({
            let t = fixed4(n);
            let (sign, m) = if n < 0 {
                (1int, -n)
            } else {
                (0int, n)
            };
            let point = t.len() - 5;
            &&& sign < point
            &&& n < 0 <==> t[0] == '-'
            &&& t[point] == '.'
            &&& text::reading(t.subrange(sign, point) + t.skip(point + 1)) == m
        }),
{
    let t = fixed4(n);
    let m = if n < 0 {
        -n
    } else {
        n
    };
    let sign: int = if n < 0 {
        1
    } else {
        0
    };
    let point = t.len() - 5;
    let whole = text::decimal((m / 10000) as nat);
    text::law_decimals_read_back((m / 10000) as nat);
    assert(t[sign] == whole[0]);
    assert(t.subrange(sign, point) =~= whole);
    let a = (m / 1000 % 10) as nat;
    let b = (m / 100 % 10) as nat;
    let c = (m / 10 % 10) as nat;
    let d = (m % 10) as nat;
    text::lemma_reading_goes_on(whole, a);
    let w1 = whole.push(text::digit(a));
    text::lemma_reading_goes_on(w1, b);
    let w2 = w1.push(text::digit(b));
    text::lemma_reading_goes_on(w2, c);
    let w3 = w2.push(text::digit(c));
    text::lemma_reading_goes_on(w3, d);
    let w4 = w3.push(text::digit(d));
    assert(t.subrange(sign, point) + t.skip(point + 1) =~= w4);
    lemma_four_digits(m);
}

/// A number is what stands in front of its last four digits, and these.
proof fn lemma_four_digits(m: int)
    requires
        0 <= m,
    ensures
        m == 10 * (10 * (10 * (10 * (m / 10000) + m / 1000 % 10) + m / 100 % 10) + m / 10 % 10) + m
            % 10,
{
    let a = m / 10;
    let b = a / 10;
    let c = b / 10;
    assert(b == m / 100);
    assert(c == m / 1000);
    assert(c / 10 == m / 10000);
    assert(m == 10 * a + m % 10);
    assert(a == 10 * b + a % 10);
    assert(b == 10 * c + b % 10);
    assert(c == 10 * (c / 10) + c % 10);
}

/// A grid of zones goes row by row, and through the columns in each row.
pub proof fn law_a_grid_goes_row_by_row(
    level: u8,
    rows: Seq<i32>,
    cols: Seq<i32>,
    r: int,
    c: int,
)
    requires
        0 <= r < rows.len(),
        0 <= c < cols.len(),
    ensures
        grid_of(level, rows, cols).len() == rows.len() * cols.len(),
        0 <= r * cols.len() + c < grid_of(level, rows, cols).len(),
        grid_of(level, rows, cols)[r * cols.len() + c] == (ZoneKey {
            level,
            lat: rows[r],
            lon: cols[c],
        }),
    decreases rows.len(),
{
    let less = rows.drop_last();
    let n = cols.len() as int;
    let end = rows.len() - 1;
    let some = grid_of(level, less, cols);
    let all = grid_of(level, rows, cols);
    if less.len() > 0 {
        law_a_grid_goes_row_by_row(
            level,
            less,
            cols,
            if r < end {
                r
            } else {
                0
            },
            c,
        );
    }
    assert(some.len() == end * n) by {
        if less.len() == 0 {
            assert(0 * n == 0);
        }
    }
    assert(rows.len() * n == end * n + n) by (nonlinear_arith)
        requires
            end == rows.len() - 1,
    ;
    if r < end {
        assert(all[r * n + c] == some[r * n + c]);
    } else {
        assert(all[end * n + c] == row_of(level, rows.last(), cols)[c]);
    }
}

/// The zone that holds the centre comes first, and of the others the nearer one.
pub proof fn law_the_nearer_zone_comes_first(list: Seq<Ranked>, home: ZoneKey, i: int, j: int)
    requires
        0 <= i < j < list.len(),
    ensures
        in_order(list, home).len() == list.len(),
        in_order(list, home)[j].0 == home ==> in_order(list, home)[i].0 == home,
        in_order(list, home)[i].0 != home ==> in_order(list, home)[i].1 <= in_order(
            list,
            home,
        )[j].1,
{
    lemma_order_keeps_len(list, home);
    law_nearest_first(list, home);
    let a = in_order(list, home)[i];
    let b = in_order(list, home)[j];
    assert(!later(a, b, home));
}

/// Zones as near as each other stay as they were given: one more goes behind all
/// that are as near, and in front of those that are further away alone.
pub proof fn law_equals_stay_as_they_were_given(list: Seq<Ranked>, home: ZoneKey, x: Ranked) -> (
    at: int)
    requires
        x.0 != home,
    ensures
        0 <= at <= in_order(list, home).len(),
        in_order(list.push(x), home) == in_order(list, home).insert(at, x),
        forall|i: int|
            0 <= i < at ==> (#[trigger] in_order(list, home)[i]).0 == home || in_order(
                list,
                home,
            )[i].1 <= x.1,
        forall|i: int|
            at <= i < in_order(list, home).len() ==> (#[trigger] in_order(list, home)[i]).0 != home
                && in_order(list, home)[i].1 > x.1,
{
    let rest = in_order(list, home);
    assert(list.push(x).drop_last() =~= list);
    law_nearest_first(list, home);
    lemma_room(rest, x, home);
    lemma_room_is_tight(rest, x, home);
    room_for(rest, x, home)
}

proof fn lemma_room_is_tight(sorted: Seq<Ranked>, x: Ranked, home: ZoneKey)
    requires
        forall|i: int, j: int|
            0 <= i < j < sorted.len() ==> !later(#[trigger] sorted[i], #[trigger] sorted[j], home),
    ensures
        0 <= room_for(sorted, x, home) <= sorted.len(),
        forall|i: int|
            0 <= i < room_for(sorted, x, home) ==> !later(#[trigger] sorted[i], x, home),
        forall|i: int|
            room_for(sorted, x, home) <= i < sorted.len() ==> later(#[trigger] sorted[i], x, home),
    decreases sorted.len(),
{
    if sorted.len() > 0 {
        let less = sorted.drop_last();
        let end = sorted.len() - 1;
        assert forall|i: int, j: int| 0 <= i < j < less.len() implies !later(
            #[trigger] less[i],
            #[trigger] less[j],
            home,
        ) by {
            assert(!later(sorted[i], sorted[j], home));
        }
        lemma_room_is_tight(less, x, home);
        if later(sorted[end], x, home) {
            assert forall|i: int| room_for(sorted, x, home) <= i < sorted.len() implies later(
                #[trigger] sorted[i],
                x,
                home,
            ) by {
                if i < end {
                    assert(less[i] == sorted[i]);
                }
            }
            assert forall|i: int| 0 <= i < room_for(sorted, x, home) implies !later(
                #[trigger] sorted[i],
                x,
                home,
            ) by {
                assert(less[i] == sorted[i]);
            }
        } else {
            assert forall|i: int| 0 <= i < sorted.len() implies !later(
                #[trigger] sorted[i],
                x,
                home,
            ) by {
                if i < end {
                    assert(!later(sorted[i], sorted[end], home));
                }
            }
        }
    }
}

proof fn lemma_order_keeps_len(list: Seq<Ranked>, home: ZoneKey)
    ensures
        in_order(list, home).len() == list.len(),
    decreases list.len(),
{
    if list.len() > 0 {
        lemma_order_keeps_len(list.drop_last(), home);
        law_nearest_first(list.drop_last(), home);
        lemma_room(in_order(list.drop_last(), home), list.last(), home);
    }
}

/// Zones of a size lie side by side: the north of one is the south of the next,
/// and the east of one is the west of the next. Fine ones are two hundredths of a
/// degree wide, coarse ones a tenth.
pub proof fn law_zones_lie_side_by_side(z: ZoneKey)
    requires
        z.ok(),
        z.lat < i32::MAX,
        z.lon < i32::MAX,
    ensures
        ({
            let up = ZoneKey { lat: (z.lat + 1) as i32, ..z };
            let right = ZoneKey { lon: (z.lon + 1) as i32, ..z };
            &&& z.side() == up.side()
            &&& z.side() == right.side()
            &&& up.lat * up.side() == z.lat * z.side() + z.side()
            &&& right.lon * right.side() == z.lon * z.side() + z.side()
            &&& z.level == 0 ==> z.side() == 200
            &&& z.level == 1 ==> z.side() == 1000
        }),
{
    assert((z.lat + 1) * z.side() == z.lat * z.side() + z.side()) by (nonlinear_arith);
    assert((z.lon + 1) * z.side() == z.lon * z.side() + z.side()) by (nonlinear_arith);
}

} // verus!
