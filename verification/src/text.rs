//! Text as sequences of characters: numbers in decimal, and pieces put together.
use vstd::prelude::*;

verus! {

/// `String::push` appends the character to the end of the text.
pub assume_specification[ String::push ](s: &mut String, c: char)
    ensures
        final(s)@ == old(s)@.push(c),
;

/// The decimal digit for a number below ten.
pub open spec fn digit(d: nat) -> char {
    (48 + d) as char
}

/// A natural number in decimal, without leading zeros.
pub open spec fn decimal(n: nat) -> Seq<char>
    decreases n,
{
    if n < 10 {
        seq![digit(n)]
    } else {
        decimal(n / 10).push(digit(n % 10))
    }
}

/// Appends a natural number in decimal.
pub fn put_decimal(out: &mut String, n: u64)
    ensures
        final(out)@ == old(out)@ + decimal(n as nat),
    decreases n,
{
    let ghost before = out@;
    if n >= 10 {
        put_decimal(out, n / 10);
    }
    let d: u8 = (n % 10) as u8;
    out.push((48 + d) as char);
    assert(out@ =~= before + decimal(n as nat));
}

/// Whether two texts are the same.
pub fn same_text(a: &str, b: &str) -> (same: bool)
    ensures
        same == (a@ == b@),
{
    let x = a.as_bytes();
    let y = b.as_bytes();
    proof {
        vstd::utf8::encode_utf8_decode_utf8(a@);
        vstd::utf8::encode_utf8_decode_utf8(b@);
    }
    if x.len() != y.len() {
        return false;
    }
    let mut i: usize = 0;
    while i < x.len()
        invariant
            x@ == vstd::utf8::encode_utf8(a@),
            y@ == vstd::utf8::encode_utf8(b@),
            x@.len() == y@.len(),
            i <= x@.len(),
            forall|k: int| 0 <= k < i ==> x@[k] == y@[k],
        decreases x@.len() - i,
    {
        if x[i] != y[i] {
            return false;
        }
        i = i + 1;
    }
    assert(x@ =~= y@);
    true
}

/// The characters of a text.
pub fn chars_of(s: &str) -> (v: Vec<char>)
    ensures
        v@ == s@,
{
    let mut v: Vec<char> = Vec::new();
    for c in it: s.chars()
        invariant
            v@ == it.seq().take(it.index()),
            it.seq() == s@,
    {
        let ghost had = v@;
        v.push(c);
        assert(v@ =~= it.seq().take(it.index() + 1));
    }
    assert(v@ =~= s@);
    v
}

/// A text stands in another one from `i` on.
pub open spec fn stands_at(whole: Seq<char>, part: Seq<char>, i: int) -> bool {
    &&& 0 <= i
    &&& i + part.len() <= whole.len()
    &&& whole.subrange(i, i + part.len()) == part
}

/// A text stands somewhere in another one.
pub open spec fn stands_in(whole: Seq<char>, part: Seq<char>) -> bool {
    exists|i: int| stands_at(whole, part, i)
}

/// Whether a text stands somewhere in another one.
pub fn contains_text(whole: &str, part: &str) -> (b: bool)
    ensures
        b == stands_in(whole@, part@),
{
    let hay = chars_of(whole);
    let needle = chars_of(part);
    let room: usize = hay.len();
    let size: usize = needle.len();
    if size == 0 {
        assert(hay@.subrange(0, 0) =~= needle@);
        assert(stands_at(whole@, part@, 0));
        return true;
    }
    if size > room {
        return false;
    }
    let starts: usize = room - size + 1;
    let mut i: usize = 0;
    while i < starts
        invariant
            hay@ == whole@,
            needle@ == part@,
            room == hay@.len(),
            size == needle@.len(),
            starts + size == room + 1,
            i <= starts,
            forall|k: int| 0 <= k < i ==> !stands_at(hay@, needle@, k),
        decreases starts - i,
    {
        let mut j: usize = 0;
        while j < size
            invariant
                room == hay@.len(),
                size == needle@.len(),
                starts + size == room + 1,
                i < starts,
                j <= size,
                forall|k: int| 0 <= k < j ==> hay@[i + k] == needle@[k],
            ensures
                j == size ==> forall|k: int| 0 <= k < j ==> hay@[i + k] == needle@[k],
                j < size ==> hay@[i + j] != needle@[j as int],
                j <= size,
            decreases size - j,
        {
            if hay[i + j] != needle[j] {
                break;
            }
            j = j + 1;
        }
        if j == size {
            assert(hay@.subrange(i as int, i + size) =~= needle@);
            assert(stands_at(whole@, part@, i as int));
            return true;
        }
        assert(!stands_at(hay@, needle@, i as int)) by {
            if stands_at(hay@, needle@, i as int) {
                assert(hay@.subrange(i as int, i + size)[j as int] == hay@[i + j]);
            }
        }
        i = i + 1;
    }
    false
}

/// The characters that count as white space.
pub open spec fn white(c: char) -> bool {
    let n = c as u32;
    ||| 0x9 <= n <= 0xd
    ||| n == 0x20
    ||| n == 0x85
    ||| n == 0xa0
    ||| n == 0x1680
    ||| 0x2000 <= n <= 0x200a
    ||| n == 0x2028
    ||| n == 0x2029
    ||| n == 0x202f
    ||| n == 0x205f
    ||| n == 0x3000
}

/// A text whose first character that is no white space is `c`.
pub open spec fn opens_with(s: Seq<char>, c: char) -> bool {
    exists|i: int|
        0 <= i < s.len() && #[trigger] s[i] == c && !white(c) && forall|j: int|
            0 <= j < i ==> white(#[trigger] s[j])
}

/// Whether the first character that is no white space is `c`.
pub fn starts_with_char(s: &str, c: char) -> (b: bool)
    requires
        !white(c),
    ensures
        b == opens_with(s@, c),
{
    let v = chars_of(s);
    let mut i: usize = 0;
    while i < v.len()
        invariant
            v@ == s@,
            !white(c),
            i <= v@.len(),
            forall|j: int| 0 <= j < i ==> white(#[trigger] v@[j]),
        decreases v@.len() - i,
    {
        let x: char = v[i];
        let n: u32 = x as u32;
        let is_white: bool = (0x9 <= n && n <= 0xd) || n == 0x20 || n == 0x85 || n == 0xa0 || n
            == 0x1680 || (0x2000 <= n && n <= 0x200a) || n == 0x2028 || n == 0x2029 || n == 0x202f
            || n == 0x205f || n == 0x3000;
        if !is_white {
            assert(!white(v@[i as int]));
            return x == c;
        }
        i = i + 1;
    }
    false
}

/// What is said of a request that the server refused.
pub open spec fn http_error_text(status: u16, status_text: Seq<char>) -> Seq<char> {
    "HTTP "@ + decimal(status as nat) + " "@ + status_text
}

/// What is said of a request that the server refused.
pub fn http_error(status: u16, status_text: &str) -> (s: String)
    ensures
        s@ == http_error_text(status, status_text@),
{
    let mut s = "HTTP ".to_owned();
    put_decimal(&mut s, status as u64);
    s.append(" ");
    s.append(status_text);
    s
}

/// The number that some digits stand for.
pub open spec fn reading(s: Seq<char>) -> int
    decreases s.len(),
{
    if s.len() == 0 {
        0
    } else {
        10 * reading(s.drop_last()) + (s.last() as int - '0' as int)
    }
}

/// A number in decimal reads as that number, is made of digits alone, and has no
/// nought in front unless it is nought.
pub proof fn law_decimals_read_back(n: nat)
    ensures
        decimal(n).len() > 0,
        reading(decimal(n)) == n,
        forall|i: int| 0 <= i < decimal(n).len() ==> '0' <= #[trigger] decimal(n)[i] <= '9',
        decimal(n)[0] == '0' ==> n == 0,
    decreases n,
{
    let s = decimal(n);
    if n < 10 {
        assert(s.drop_last() =~= Seq::<char>::empty());
        assert(reading(s.drop_last()) == 0);
    } else {
        law_decimals_read_back(n / 10);
        assert(s.drop_last() =~= decimal(n / 10));
        assert(s[0] == decimal(n / 10)[0]);
        assert forall|i: int| 0 <= i < s.len() implies '0' <= #[trigger] s[i] <= '9' by {
            if i < s.len() - 1 {
                assert(s[i] == decimal(n / 10)[i]);
            }
        }
    }
}

/// Digits behind others weigh a tenth of what those do.
pub proof fn lemma_reading_goes_on(s: Seq<char>, d: nat)
    requires
        d < 10,
    ensures
        reading(s.push(digit(d))) == 10 * reading(s) + d,
{
    assert(s.push(digit(d)).drop_last() =~= s);
}

/// Among plain characters the blank, the tab and what ends a line are white space, and
/// nothing else is.
pub proof fn law_what_is_white_space(c: char)
    requires
        (c as u32) < 0x80,
    ensures
        white(c) <==> c == ' ' || c == '\t' || c == '\n' || c == '\r' || c as u32 == 0xb || c as u32
            == 0xc,
{
}

/// A text stands in another just where that one is made of something in front of it, the
/// text, and something behind it, either of which may be nothing.
pub proof fn law_a_text_stands_in_what_it_is_part_of(
    front: Seq<char>,
    part: Seq<char>,
    behind: Seq<char>,
    whole: Seq<char>,
) -> (cut: (Seq<char>, Seq<char>))
    ensures
        stands_in(front + part + behind, part),
        stands_in(whole, part) ==> whole == cut.0 + part + cut.1,
{
    let all = front + part + behind;
    assert(all.subrange(front.len() as int, (front.len() + part.len()) as int) =~= part);
    assert(stands_at(all, part, front.len() as int));
    if stands_in(whole, part) {
        let i = choose|i: int| stands_at(whole, part, i);
        let a = whole.take(i);
        let b = whole.skip(i + part.len());
        assert(whole =~= a + part + b);
        (a, b)
    } else {
        (front, behind)
    }
}

/// Beyond plain characters white space is the next line, the blanks of other scripts and
/// of typesetting, and the ends of lines and paragraphs.
pub proof fn law_what_else_is_white_space(c: char)
    requires
        (c as u32) >= 0x80,
    ensures
        white(c) <==> seq![
            0x85u32,
            0xa0,
            0x1680,
            0x2000,
            0x2001,
            0x2002,
            0x2003,
            0x2004,
            0x2005,
            0x2006,
            0x2007,
            0x2008,
            0x2009,
            0x200a,
            0x2028,
            0x2029,
            0x202f,
            0x205f,
            0x3000,
        ].contains(c as u32),
{
    let s = seq![
        0x85u32,
        0xa0,
        0x1680,
        0x2000,
        0x2001,
        0x2002,
        0x2003,
        0x2004,
        0x2005,
        0x2006,
        0x2007,
        0x2008,
        0x2009,
        0x200a,
        0x2028,
        0x2029,
        0x202f,
        0x205f,
        0x3000,
    ];
    let n = c as u32;
    assert(s[0] == 0x85 && s[1] == 0xa0 && s[2] == 0x1680 && s[3] == 0x2000 && s[4] == 0x2001 && s[5]
        == 0x2002 && s[6] == 0x2003 && s[7] == 0x2004 && s[8] == 0x2005 && s[9] == 0x2006 && s[10]
        == 0x2007 && s[11] == 0x2008 && s[12] == 0x2009 && s[13] == 0x200a && s[14] == 0x2028
        && s[15] == 0x2029 && s[16] == 0x202f && s[17] == 0x205f && s[18] == 0x3000);
    if white(c) {
        let k: int = if n == 0x85 {
            0
        } else if n == 0xa0 {
            1
        } else if n == 0x1680 {
            2
        } else if 0x2000 <= n <= 0x200a {
            3 + (n - 0x2000)
        } else if n == 0x2028 {
            14
        } else if n == 0x2029 {
            15
        } else if n == 0x202f {
            16
        } else if n == 0x205f {
            17
        } else {
            18
        };
        assert(s[k] == n);
    }
}

} // verus!
