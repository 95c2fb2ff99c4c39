//! What is written about a region: one line of the manifest.
use vstd::prelude::*;

use crate::text::chars_of;

verus! {

/// The hexadecimal digit for a number below sixteen.
pub open spec fn hex_digit(d: nat) -> char {
    if d < 10 {
        (48 + d) as char
    } else {
        (87 + d) as char
    }
}

/// A character as it stands in a JSON string.
pub open spec fn escaped_char(c: char) -> Seq<char> {
    if c == '"' {
        seq!['\\', '"']
    } else if c == '\\' {
        seq!['\\', '\\']
    } else if c == '\n' {
        seq!['\\', 'n']
    } else if (c as u32) < 0x20 {
        seq![
            '\\',
            'u',
            '0',
            '0',
            hex_digit((c as u32 / 16) as nat),
            hex_digit((c as u32 % 16) as nat),
        ]
    } else {
        seq![c]
    }
}

/// A text as it stands in a JSON string.
pub open spec fn escaped(s: Seq<char>) -> Seq<char>
    decreases s.len(),
{
    if s.len() == 0 {
        seq![]
    } else {
        escaped(s.drop_last()) + escaped_char(s.last())
    }
}

fn put_hex_digit(out: &mut String, d: u8)
    requires
        d < 16,
    ensures
        final(out)@ == old(out)@.push(hex_digit(d as nat)),
{
    if d < 10 {
        out.push((48 + d) as char);
    } else {
        out.push((87 + d) as char);
    }
}

/// Escapes a text for a JSON string. A stray quote would make a file that the
/// reader refuses.
pub fn json_escape(s: &str) -> (out: String)
    ensures
        out@ == escaped(s@),
{
    let chars: Vec<char> = chars_of(s);
    let mut out = String::new();
    let mut i: usize = 0;
    assert(out@ =~= escaped(chars@.take(0)));
    while i < chars.len()
        invariant
            i <= chars@.len(),
            out@ == escaped(chars@.take(i as int)),
        decreases chars@.len() - i,
    {
        let c: char = chars[i];
        let ghost before = out@;
        assert(chars@.take(i + 1).drop_last() =~= chars@.take(i as int));
        if c == '"' {
            out.push('\\');
            out.push('"');
        } else if c == '\\' {
            out.push('\\');
            out.push('\\');
        } else if c == '\n' {
            out.push('\\');
            out.push('n');
        } else if (c as u32) < 0x20 {
            let code: u32 = c as u32;
            out.push('\\');
            out.push('u');
            out.push('0');
            out.push('0');
            put_hex_digit(&mut out, (code / 16) as u8);
            put_hex_digit(&mut out, (code % 16) as u8);
        } else {
            out.push(c);
        }
        assert(out@ =~= before + escaped_char(c));
        i = i + 1;
    }
    assert(chars@.take(i as int) =~= chars@);
    out
}

/// One region in one line. It ends the line: the manifest is made by joining
/// such lines, and without an end two regions would run into one.
pub open spec fn fragment(
    name: Seq<char>,
    dir: Seq<char>,
    south: Seq<char>,
    west: Seq<char>,
    north: Seq<char>,
    east: Seq<char>,
) -> Seq<char> {
    "{\"name\":\""@ + escaped(name) + "\",\"dir\":\""@ + escaped(dir) + "\",\"south\":"@ + south
        + ",\"west\":"@ + west + ",\"north\":"@ + north + ",\"east\":"@ + east + "}\n"@
}

/// The line of the manifest for a region. The borders come as decimal texts.
pub fn manifest_fragment(
    name: &str,
    dir: &str,
    south: &str,
    west: &str,
    north: &str,
    east: &str,
) -> (out: String)
    ensures
        out@ == fragment(name@, dir@, south@, west@, north@, east@),
{
    let mut out = String::new();
    out.append("{\"name\":\"");
    assert(out@ =~= "{\"name\":\""@);
    out.append(json_escape(name).as_str());
    out.append("\",\"dir\":\"");
    out.append(json_escape(dir).as_str());
    out.append("\",\"south\":");
    out.append(south);
    out.append(",\"west\":");
    out.append(west);
    out.append(",\"north\":");
    out.append(north);
    out.append(",\"east\":");
    out.append(east);
    out.append("}\n");
    out
}

/// The number that a hexadecimal digit stands for.
pub open spec fn hex_value(c: char) -> nat {
    if c as u32 >= 87 {
        (c as u32 - 87) as nat
    } else {
        (c as u32 - 48) as nat
    }
}

/// The text that the inside of a JSON string stands for, with the escapes that
/// are used here. Nothing where a quote or a control character stands bare, or
/// an escape is another.
pub open spec fn read_back(s: Seq<char>) -> Option<Seq<char>>
    decreases s.len(),
{
    if s.len() == 0 {
        Some(seq![])
    } else if s[0] == '"' || (s[0] as u32) < 0x20 {
        None
    } else if s[0] != '\\' {
        ahead(s[0], read_back(s.skip(1)))
    } else if s.len() >= 2 && s[1] == '"' {
        ahead('"', read_back(s.skip(2)))
    } else if s.len() >= 2 && s[1] == '\\' {
        ahead('\\', read_back(s.skip(2)))
    } else if s.len() >= 2 && s[1] == 'n' {
        ahead('\n', read_back(s.skip(2)))
    } else if s.len() >= 6 && s[1] == 'u' && s[2] == '0' && s[3] == '0' {
        ahead((16 * hex_value(s[4]) + hex_value(s[5])) as char, read_back(s.skip(6)))
    } else {
        None
    }
}

/// A text with a character in front.
pub open spec fn ahead(c: char, rest: Option<Seq<char>>) -> Option<Seq<char>> {
    match rest {
        Some(t) => Some(seq![c] + t),
        None => None,
    }
}

/// An escaped text reads back as the text: no quote, backslash or control
/// character in it ends the string or changes it.
pub proof fn law_escaped_text_reads_back(s: Seq<char>)
    ensures
        read_back(escaped(s)) == Some(s),
{
    lemma_escaped_reads(s, s.len() as int);
    assert(s.skip(s.len() as int) =~= seq![]);
    lemma_escaped_reads(s, 0);
    assert(s.skip(0) =~= s);
    assert(s.take(0) =~= seq![]);
}

/// The escaped text, from a character on.
proof fn lemma_escaped_reads(s: Seq<char>, i: int)
    requires
        0 <= i <= s.len(),
    ensures
        read_back(escaped(s.skip(i))) == Some(s.skip(i)),
    decreases s.len() - i,
{
    let rest = s.skip(i);
    if i == s.len() {
        assert(rest =~= seq![]);
        assert(escaped(rest) =~= seq![]);
    } else {
        lemma_escaped_reads(s, i + 1);
        let c = rest[0];
        assert(rest.skip(1) =~= s.skip(i + 1));
        lemma_escaped_front(rest);
        let tail = escaped(rest.skip(1));
        let whole = escaped(rest);
        assert(whole == escaped_char(c) + tail);
        let n = escaped_char(c).len();
        assert(whole.skip(n as int) =~= tail);
        assert(rest =~= seq![c] + rest.skip(1));
        if (c as u32) < 0x20 && c != '\n' {
            let v = c as u32;
            assert(hex_value(hex_digit((v / 16) as nat)) == v / 16);
            assert(hex_value(hex_digit((v % 16) as nat)) == v % 16);
            assert(16 * (v / 16) + v % 16 == v);
            assert(whole[4] == hex_digit((v / 16) as nat));
            assert(whole[5] == hex_digit((v % 16) as nat));
            assert(16 * hex_value(whole[4]) + hex_value(whole[5]) == v);
            lemma_code(c);
        }
    }
}

/// A character is its code.
proof fn lemma_code(c: char)
    ensures
        (c as u32) as char == c,
{
}

/// The first character stands first.
proof fn lemma_escaped_front(s: Seq<char>)
    requires
        s.len() > 0,
    ensures
        escaped(s) == escaped_char(s[0]) + escaped(s.skip(1)),
    decreases s.len(),
{
    if s.len() == 1 {
        assert(s.drop_last() =~= seq![]);
        assert(s.skip(1) =~= seq![]);
        assert(escaped(s.drop_last()) =~= seq![]);
        assert(escaped(s) =~= escaped_char(s[0]) + escaped(s.skip(1)));
    } else {
        lemma_escaped_front(s.drop_last());
        assert(s.drop_last().skip(1) =~= s.skip(1).drop_last());
        assert(escaped(s) =~= escaped_char(s[0]) + escaped(s.skip(1)));
    }
}

/// A region's line names each border by its own member, and ends the line.
pub proof fn law_a_region_names_its_borders(
    name: Seq<char>,
    dir: Seq<char>,
    south: Seq<char>,
    west: Seq<char>,
    north: Seq<char>,
    east: Seq<char>,
)
    ensures
        ({
            let line = fragment(name, dir, south, west, north, east);
            let borders = ",\"south\":"@ + south + ",\"west\":"@ + west + ",\"north\":"@ + north
                + ",\"east\":"@ + east + "}\n"@;
            let names = "{\"name\":\""@ + escaped(name) + "\",\"dir\":\""@ + escaped(dir) + "\""@;
            line == names + borders && line.last() == '\n'
        }),
{
    reveal_strlit("\",\"south\":");
    reveal_strlit(",\"south\":");
    reveal_strlit("\"");
    reveal_strlit("}\n");
    assert("\",\"south\":"@ =~= "\""@ + ",\"south\":"@);
    let line = fragment(name, dir, south, west, north, east);
    assert(line =~= "{\"name\":\""@ + escaped(name) + "\",\"dir\":\""@ + escaped(dir) + "\""@ + (
    ",\"south\":"@ + south + ",\"west\":"@ + west + ",\"north\":"@ + north + ",\"east\":"@ + east
        + "}\n"@));
}

} // verus!
