//! The closed vocabularies of the archive: way classes and hiking difficulty.
use vstd::prelude::*;

use super::kind;
use crate::text::same_text;

verus! {

/// The way class of a `highway` value, or nothing for values that are not
/// carried.
pub open spec fn kind_of(tag: Seq<char>) -> Option<u8> {
    if tag == "path"@ || tag == "bridleway"@ {
        Some(kind::PATH)
    } else if tag == "track"@ {
        Some(kind::TRACK)
    } else if tag == "footway"@ || tag == "pedestrian"@ {
        Some(kind::FOOTWAY)
    } else if tag == "steps"@ {
        Some(kind::STEPS)
    } else if tag == "cycleway"@ {
        Some(kind::CYCLEWAY)
    } else if tag == "living_street"@ || tag == "unclassified"@ || tag == "residential"@ || tag
        == "tertiary"@ {
        Some(kind::ROAD)
    } else {
        None
    }
}

/// The `sac_scale` values, from the easiest to the hardest.
pub open spec fn sac_values() -> Seq<Seq<char>> {
    seq![
        "hiking"@,
        "mountain_hiking"@,
        "demanding_mountain_hiking"@,
        "alpine_hiking"@,
        "demanding_alpine_hiking"@,
        "difficult_alpine_hiking"@,
    ]
}

/// The way class of a `highway` value, or nothing for values that are not
/// carried. This alone decides what ends up in an archive.
pub fn kind_from_highway(tag: &str) -> (k: Option<u8>)
    ensures
        k == kind_of(tag@),
{
    if same_text(tag, "path") || same_text(tag, "bridleway") {
        Some(kind::PATH)
    } else if same_text(tag, "track") {
        Some(kind::TRACK)
    } else if same_text(tag, "footway") || same_text(tag, "pedestrian") {
        Some(kind::FOOTWAY)
    } else if same_text(tag, "steps") {
        Some(kind::STEPS)
    } else if same_text(tag, "cycleway") {
        Some(kind::CYCLEWAY)
    } else if same_text(tag, "living_street") || same_text(tag, "unclassified") || same_text(
        tag,
        "residential",
    ) || same_text(tag, "tertiary") {
        Some(kind::ROAD)
    } else {
        None
    }
}

/// The difficulty of a `sac_scale` value: its place in their order, from 1, and 0
/// for any other text.
pub open spec fn sac_of(tag: Seq<char>) -> u8 {
    if sac_values().contains(tag) {
        (sac_values().index_of(tag) + 1) as u8
    } else {
        0
    }
}

/// `sac_scale` as 1 to 6 in order of difficulty, 0 when absent or unknown.
pub fn sac_from_tag(tag: &str) -> (sac: u8)
    ensures
        sac <= 6,
        sac > 0 ==> tag@ == sac_values()[sac - 1],
        sac == 0 ==> !sac_values().contains(tag@),
        sac == sac_of(tag@),
{
    proof {
        law_sac_values_distinct();
        let v = sac_values();
        assert(v[0] == "hiking"@ && v[1] == "mountain_hiking"@ && v[2]
            == "demanding_mountain_hiking"@ && v[3] == "alpine_hiking"@ && v[4]
            == "demanding_alpine_hiking"@ && v[5] == "difficult_alpine_hiking"@);
    }
    if same_text(tag, "hiking") {
        1
    } else if same_text(tag, "mountain_hiking") {
        2
    } else if same_text(tag, "demanding_mountain_hiking") {
        3
    } else if same_text(tag, "alpine_hiking") {
        4
    } else if same_text(tag, "demanding_alpine_hiking") {
        5
    } else if same_text(tag, "difficult_alpine_hiking") {
        6
    } else {
        0
    }
}

/// 1 to 6 back to the `sac_scale` value, for display.
pub fn sac_label(sac: u8) -> (label: Option<&'static str>)
    ensures
        label is Some <==> 1 <= sac <= 6,
        label matches Some(s) ==> s@ == sac_values()[sac - 1],
{
    if sac == 1 {
        Some("hiking")
    } else if sac == 2 {
        Some("mountain_hiking")
    } else if sac == 3 {
        Some("demanding_mountain_hiking")
    } else if sac == 4 {
        Some("alpine_hiking")
    } else if sac == 5 {
        Some("demanding_alpine_hiking")
    } else if sac == 6 {
        Some("difficult_alpine_hiking")
    } else {
        None
    }
}

/// No difficulty has two values, so label and number determine each other.
pub proof fn law_sac_values_distinct()
    ensures
        sac_values().no_duplicates(),
{
    reveal_strlit("hiking");
    reveal_strlit("mountain_hiking");
    reveal_strlit("demanding_mountain_hiking");
    reveal_strlit("alpine_hiking");
    reveal_strlit("demanding_alpine_hiking");
    reveal_strlit("difficult_alpine_hiking");
    let v = sac_values();
    assert(v[0].len() == 6);
    assert(v[1].len() == 15);
    assert(v[2].len() == 25);
    assert(v[3].len() == 13);
    assert(v[4].len() == 23);
    assert(v[5].len() == 23);
    assert(v[4][1] == 'e');
    assert(v[5][1] == 'i');
}

/// Which ways are carried, and under which number: paths under one, tracks under
/// two, footways under three, steps under four, cycleways under five, and small
/// roads under nought; other ways are not.
pub proof fn law_what_is_carried(tag: Seq<char>)
    ensures
        kind_of(tag) == Some(0u8) <==> tag == "living_street"@ || tag == "unclassified"@ || tag
            == "residential"@ || tag == "tertiary"@,
        kind_of(tag) == Some(1u8) <==> tag == "path"@ || tag == "bridleway"@,
        kind_of(tag) == Some(2u8) <==> tag == "track"@,
        kind_of(tag) == Some(3u8) <==> tag == "footway"@ || tag == "pedestrian"@,
        kind_of(tag) == Some(4u8) <==> tag == "steps"@,
        kind_of(tag) == Some(5u8) <==> tag == "cycleway"@,
        kind_of(tag) matches Some(k) ==> k <= 5,
{
    reveal_strlit("path");
    reveal_strlit("bridleway");
    reveal_strlit("track");
    reveal_strlit("footway");
    reveal_strlit("pedestrian");
    reveal_strlit("steps");
    reveal_strlit("cycleway");
    reveal_strlit("living_street");
    reveal_strlit("unclassified");
    reveal_strlit("residential");
    reveal_strlit("tertiary");
    assert("path"@.len() == 4);
    assert("bridleway"@.len() == 9);
    assert("track"@.len() == 5);
    assert("footway"@.len() == 7);
    assert("pedestrian"@.len() == 10);
    assert("steps"@.len() == 5);
    assert("cycleway"@.len() == 8);
    assert("living_street"@.len() == 13);
    assert("unclassified"@.len() == 12);
    assert("residential"@.len() == 11);
    assert("tertiary"@.len() == 8);
    assert("track"@[0] == 't');
    assert("steps"@[0] == 's');
    assert("cycleway"@[0] == 'c');
    assert("tertiary"@[0] == 't');
}

/// Difficulties are numbered from one on, from the easiest to the hardest; any
/// other text has none.
pub proof fn law_difficulties_are_numbered_from_one(tag: Seq<char>)
    ensures
        sac_of(tag) == 1 <==> tag == "hiking"@,
        sac_of(tag) == 2 <==> tag == "mountain_hiking"@,
        sac_of(tag) == 3 <==> tag == "demanding_mountain_hiking"@,
        sac_of(tag) == 4 <==> tag == "alpine_hiking"@,
        sac_of(tag) == 5 <==> tag == "demanding_alpine_hiking"@,
        sac_of(tag) == 6 <==> tag == "difficult_alpine_hiking"@,
        sac_of(tag) <= 6,
{
    law_sac_values_distinct();
    let v = sac_values();
    assert(v[0] == "hiking"@ && v[1] == "mountain_hiking"@ && v[2] == "demanding_mountain_hiking"@
        && v[3] == "alpine_hiking"@ && v[4] == "demanding_alpine_hiking"@ && v[5]
        == "difficult_alpine_hiking"@);
    if v.contains(tag) {
        let i = v.index_of(tag);
        assert(v[i] == tag);
    }
    assert(v.contains(v[0]) && v.contains(v[1]) && v.contains(v[2]) && v.contains(v[3])
        && v.contains(v[4]) && v.contains(v[5]));
}

} // verus!
