//! What the ground says about a night out: position, aspect, and whether the
//! measurements are there at all.
use vstd::prelude::*;

use crate::number::Single;

verus! {

/// Metres above the surroundings from which a place is a ridge, by its pattern:
/// fifteen.
pub const RIDGE_BITS: u32 = 0x4170_0000;

/// Metres above the surroundings from which a place is a shoulder, by its
/// pattern: five.
pub const SHOULDER_BITS: u32 = 0x40a0_0000;

/// Minus fifteen metres, by its pattern.
pub const HOLLOW_BITS: u32 = 0xc170_0000;

/// Minus five metres, by its pattern.
pub const DIP_BITS: u32 = 0xc0a0_0000;

/// East, ninety degrees, by its pattern.
pub const EAST_BITS: u32 = 0x42b4_0000;

/// West, two hundred and seventy degrees, by its pattern.
pub const WEST_BITS: u32 = 0x4387_0000;

/// Topographic position, which stands for exposure to wind.
#[derive(Clone, Copy, Debug, PartialEq, Eq, Structural)]
pub enum Position {
    Ridge,
    Shoulder,
    Even,
    Dip,
    Hollow,
}

impl Position {
    /// What the position is called.
    pub open spec fn name(self) -> Seq<char> {
        match self {
            Position::Ridge => "ridge"@,
            Position::Shoulder => "shoulder"@,
            Position::Even => "even slope"@,
            Position::Dip => "slight dip"@,
            Position::Hollow => "valley floor"@,
        }
    }

    /// What the position means for a night out.
    pub open spec fn meaning(self) -> Seq<char> {
        match self {
            Position::Ridge => "very exposed to wind"@,
            Position::Shoulder => "exposed to wind"@,
            Position::Even => "neither sheltered nor exposed"@,
            Position::Dip => "sheltered, cool air at night"@,
            Position::Hollow => "sheltered but cold air and damp"@,
        }
    }

    pub fn label(self) -> (s: &'static str)
        ensures
            s@ == self.name(),
    {
        match self {
            Position::Ridge => "ridge",
            Position::Shoulder => "shoulder",
            Position::Even => "even slope",
            Position::Dip => "slight dip",
            Position::Hollow => "valley floor",
        }
    }

    /// What the position means for a night out.
    pub fn hint(self) -> (s: &'static str)
        ensures
            s@ == self.meaning(),
    {
        match self {
            Position::Ridge => "very exposed to wind",
            Position::Shoulder => "exposed to wind",
            Position::Even => "neither sheltered nor exposed",
            Position::Dip => "sheltered, cool air at night",
            Position::Hollow => "sheltered but cold air and damp",
        }
    }
}

/// The position of a place that lies some metres above its surroundings.
pub open spec fn position_of(tpi_m: Single) -> Position {
    if (Single { bits: RIDGE_BITS }).below(tpi_m) {
        Position::Ridge
    } else if (Single { bits: SHOULDER_BITS }).below(tpi_m) {
        Position::Shoulder
    } else if tpi_m.below(Single { bits: HOLLOW_BITS }) {
        Position::Hollow
    } else if tpi_m.below(Single { bits: DIP_BITS }) {
        Position::Dip
    } else {
        Position::Even
    }
}

/// The position of a place that lies some metres above its surroundings.
pub fn position(tpi_m: Single) -> (p: Position)
    ensures
        p == position_of(tpi_m),
{
    let ridge = Single { bits: RIDGE_BITS };
    let shoulder = Single { bits: SHOULDER_BITS };
    if ridge.lt(tpi_m) {
        Position::Ridge
    } else if shoulder.lt(tpi_m) {
        Position::Shoulder
    } else if tpi_m.lt(Single { bits: HOLLOW_BITS }) {
        Position::Hollow
    } else if tpi_m.lt(Single { bits: DIP_BITS }) {
        Position::Dip
    } else {
        Position::Even
    }
}

/// The eight sectors of the compass, clockwise from north.
pub open spec fn sectors() -> Seq<Seq<char>> {
    seq!["N"@, "NE"@, "E"@, "SE"@, "S"@, "SW"@, "W"@, "NW"@]
}

/// The name of a sector, counted clockwise from north, however often round.
pub fn cardinal(sector: i32) -> (s: &'static str)
    ensures
        s@ == sectors()[sector as int % 8],
{
    let i: i64 = if sector >= 0 {
        sector as i64 % 8
    } else {
        7 - (-(sector as i64 + 1)) % 8
    };
    proof {
        if sector < 0 {
            let u = -(sector as int + 1);
            assert(u == 8 * (u / 8) + u % 8);
            assert(sector as int == -8 * (u / 8) - u % 8 - 1);
            assert(sector as int % 8 == 7 - u % 8);
        }
    }
    if i == 0 {
        "N"
    } else if i == 1 {
        "NE"
    } else if i == 2 {
        "E"
    } else if i == 3 {
        "SE"
    } else if i == 4 {
        "S"
    } else if i == 5 {
        "SW"
    } else if i == 6 {
        "W"
    } else {
        "NW"
    }
}

/// A slope of some aspect catches the sun: from east by south to west.
pub open spec fn in_the_sun(aspect_deg: Single) -> bool {
    (Single { bits: EAST_BITS }).at_most(aspect_deg) && aspect_deg.at_most(
        Single { bits: WEST_BITS },
    )
}

/// Whether a slope of some aspect catches the sun: from east by south to west.
pub fn sunny(aspect_deg: Single) -> (b: bool)
    ensures
        b == in_the_sun(aspect_deg),
{
    let east = Single { bits: EAST_BITS };
    east.le(aspect_deg) && aspect_deg.le(Single { bits: WEST_BITS })
}

/// The measurements of a window, if none is missing. A slope over a window with
/// holes would be wrong without saying so.
pub fn whole_window(samples: &Vec<Option<Single>>) -> (r: Option<Vec<Single>>)
    ensures
        r is Some <==> forall|i: int| 0 <= i < samples@.len() ==> #[trigger] samples@[i] is Some,
        r matches Some(v) ==> v@ == Seq::new(samples@.len(), |i: int| samples@[i]->0),
{
    let mut out: Vec<Single> = Vec::new();
    let mut i: usize = 0;
    while i < samples.len()
        invariant
            i <= samples@.len(),
            forall|k: int| 0 <= k < i ==> #[trigger] samples@[k] is Some,
            out@ == Seq::new(i as nat, |k: int| samples@[k]->0),
        decreases samples@.len() - i,
    {
        match samples[i] {
            Some(v) => {
                out.push(v);
            },
            None => {
                assert(samples@[i as int] is None);
                return None;
            },
        }
        assert(out@ =~= Seq::new((i + 1) as nat, |k: int| samples@[k]->0));
        i = i + 1;
    }
    Some(out)
}

/// A place higher above its surroundings is never the more sheltered one.
pub proof fn law_higher_is_more_exposed(a: Single, b: Single)
    requires
        a.at_most(b),
    ensures
        shelter(position_of(b)) <= shelter(position_of(a)),
{
}

/// The positions from the most exposed to the most sheltered.
pub open spec fn shelter(p: Position) -> int {
    match p {
        Position::Ridge => 0,
        Position::Shoulder => 1,
        Position::Even => 2,
        Position::Dip => 3,
        Position::Hollow => 4,
    }
}

/// From five metres above the surroundings on a place is a shoulder, from fifteen
/// on a ridge; as far below them it is a dip and a hollow. In between, and where
/// nothing is known, it is even. The metres stand as their patterns.
pub proof fn law_positions_by_metres(tpi_m: Single)
    requires
        !tpi_m.nan(),
    ensures
        position_of(tpi_m) == Position::Ridge <==> tpi_m.place() > 0x4170_0000,
        position_of(tpi_m) == Position::Shoulder <==> 0x40a0_0000 < tpi_m.place() <= 0x4170_0000,
        position_of(tpi_m) == Position::Even <==> -0x40a0_0000 <= tpi_m.place() <= 0x40a0_0000,
        position_of(tpi_m) == Position::Dip <==> -0x4170_0000 <= tpi_m.place() < -0x40a0_0000,
        position_of(tpi_m) == Position::Hollow <==> tpi_m.place() < -0x4170_0000,
{
}

/// The sun is on slopes from ninety to two hundred and seventy degrees, borders
/// counted; the degrees stand as their patterns.
pub proof fn law_the_sun_is_in_the_south(aspect_deg: Single)
    requires
        !aspect_deg.nan(),
    ensures
        in_the_sun(aspect_deg) <==> 0x42b4_0000 <= aspect_deg.place() <= 0x4387_0000,
{
}

/// The compass goes round clockwise: north, east, south and west are two sectors
/// apart, and the sector between two of them has the name of both, that of north
/// or south first.
pub proof fn law_the_compass_goes_round(i: int)
    requires
        0 <= i < 4,
    ensures
        sectors().len() == 8,
        sectors()[2 * i] == seq![seq!['N', 'E', 'S', 'W'][i]],
        sectors()[2 * i + 1] == if i % 2 == 0 {
            sectors()[2 * i] + sectors()[2 * i + 2]
        } else {
            sectors()[(2 * i + 2) % 8] + sectors()[2 * i]
        },
{
    reveal_strlit("N");
    reveal_strlit("NE");
    reveal_strlit("E");
    reveal_strlit("SE");
    reveal_strlit("S");
    reveal_strlit("SW");
    reveal_strlit("W");
    reveal_strlit("NW");
    assert("N"@ =~= seq!['N'] && "E"@ =~= seq!['E'] && "S"@ =~= seq!['S'] && "W"@ =~= seq!['W']);
    assert("NE"@ =~= "N"@ + "E"@);
    assert("SE"@ =~= "S"@ + "E"@);
    assert("SW"@ =~= "S"@ + "W"@);
    assert("NW"@ =~= "N"@ + "W"@);
    if i == 0 {
    } else if i == 1 {
    } else if i == 2 {
    } else {
        assert(i == 3);
    }
}

} // verus!
