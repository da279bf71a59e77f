//! Mahjong tiles in the tenhou numbering: `11..=19` are the characters
//! (man), `21..=29` the circles (pin), `31..=39` the bamboos (sou), `41..=47`
//! the honours (east, south, west, north, white, green, red) and `51..=53` the
//! red fives. `0` stands for a tile that is not known.
use vstd::prelude::*;

verus! {

/// One mahjong tile.
#[derive(Clone, Copy, Debug, PartialEq, Eq, Structural, Hash)]
pub enum Pai {
    Unknown,
    Man1,
    Man2,
    Man3,
    Man4,
    Man5,
    Man6,
    Man7,
    Man8,
    Man9,
    Pin1,
    Pin2,
    Pin3,
    Pin4,
    Pin5,
    Pin6,
    Pin7,
    Pin8,
    Pin9,
    Sou1,
    Sou2,
    Sou3,
    Sou4,
    Sou5,
    Sou6,
    Sou7,
    Sou8,
    Sou9,
    East,
    South,
    West,
    North,
    Haku,
    Hatsu,
    Chun,
    AkaMan5,
    AkaPin5,
    AkaSou5,
}

impl Pai {
    /// The tenhou code of the tile.
    #[verifier::opaque]
    pub open spec fn code(self) -> u8 {
        match self {
            Pai::Unknown => 0,
            Pai::Man1 => 11,
            Pai::Man2 => 12,
            Pai::Man3 => 13,
            Pai::Man4 => 14,
            Pai::Man5 => 15,
            Pai::Man6 => 16,
            Pai::Man7 => 17,
            Pai::Man8 => 18,
            Pai::Man9 => 19,
            Pai::Pin1 => 21,
            Pai::Pin2 => 22,
            Pai::Pin3 => 23,
            Pai::Pin4 => 24,
            Pai::Pin5 => 25,
            Pai::Pin6 => 26,
            Pai::Pin7 => 27,
            Pai::Pin8 => 28,
            Pai::Pin9 => 29,
            Pai::Sou1 => 31,
            Pai::Sou2 => 32,
            Pai::Sou3 => 33,
            Pai::Sou4 => 34,
            Pai::Sou5 => 35,
            Pai::Sou6 => 36,
            Pai::Sou7 => 37,
            Pai::Sou8 => 38,
            Pai::Sou9 => 39,
            Pai::East => 41,
            Pai::South => 42,
            Pai::West => 43,
            Pai::North => 44,
            Pai::Haku => 45,
            Pai::Hatsu => 46,
            Pai::Chun => 47,
            Pai::AkaMan5 => 51,
            Pai::AkaPin5 => 52,
            Pai::AkaSou5 => 53,
        }
    }

    /// The tile with the tenhou code `v`, if there is one.
    pub open spec fn from_code(v: u8) -> Option<Pai> {
        match v {
            0 => Some(Pai::Unknown),
            11 => Some(Pai::Man1),
            12 => Some(Pai::Man2),
            13 => Some(Pai::Man3),
            14 => Some(Pai::Man4),
            15 => Some(Pai::Man5),
            16 => Some(Pai::Man6),
            17 => Some(Pai::Man7),
            18 => Some(Pai::Man8),
            19 => Some(Pai::Man9),
            21 => Some(Pai::Pin1),
            22 => Some(Pai::Pin2),
            23 => Some(Pai::Pin3),
            24 => Some(Pai::Pin4),
            25 => Some(Pai::Pin5),
            26 => Some(Pai::Pin6),
            27 => Some(Pai::Pin7),
            28 => Some(Pai::Pin8),
            29 => Some(Pai::Pin9),
            31 => Some(Pai::Sou1),
            32 => Some(Pai::Sou2),
            33 => Some(Pai::Sou3),
            34 => Some(Pai::Sou4),
            35 => Some(Pai::Sou5),
            36 => Some(Pai::Sou6),
            37 => Some(Pai::Sou7),
            38 => Some(Pai::Sou8),
            39 => Some(Pai::Sou9),
            41 => Some(Pai::East),
            42 => Some(Pai::South),
            43 => Some(Pai::West),
            44 => Some(Pai::North),
            45 => Some(Pai::Haku),
            46 => Some(Pai::Hatsu),
            47 => Some(Pai::Chun),
            51 => Some(Pai::AkaMan5),
            52 => Some(Pai::AkaPin5),
            53 => Some(Pai::AkaSou5),
            _ => None,
        }
    }

    /// The tenhou code of the tile.
    pub fn as_u8(self) -> (r: u8)
        ensures
            r == self.code(),
    {
        proof {
            reveal(Pai::code);
        }
        match self {
            Pai::Unknown => 0,
            Pai::Man1 => 11,
            Pai::Man2 => 12,
            Pai::Man3 => 13,
            Pai::Man4 => 14,
            Pai::Man5 => 15,
            Pai::Man6 => 16,
            Pai::Man7 => 17,
            Pai::Man8 => 18,
            Pai::Man9 => 19,
            Pai::Pin1 => 21,
            Pai::Pin2 => 22,
            Pai::Pin3 => 23,
            Pai::Pin4 => 24,
            Pai::Pin5 => 25,
            Pai::Pin6 => 26,
            Pai::Pin7 => 27,
            Pai::Pin8 => 28,
            Pai::Pin9 => 29,
            Pai::Sou1 => 31,
            Pai::Sou2 => 32,
            Pai::Sou3 => 33,
            Pai::Sou4 => 34,
            Pai::Sou5 => 35,
            Pai::Sou6 => 36,
            Pai::Sou7 => 37,
            Pai::Sou8 => 38,
            Pai::Sou9 => 39,
            Pai::East => 41,
            Pai::South => 42,
            Pai::West => 43,
            Pai::North => 44,
            Pai::Haku => 45,
            Pai::Hatsu => 46,
            Pai::Chun => 47,
            Pai::AkaMan5 => 51,
            Pai::AkaPin5 => 52,
            Pai::AkaSou5 => 53,
        }
    }

    /// The tile with the tenhou code `v`, if there is one.
    pub fn try_from_u8(v: u8) -> (r: Option<Pai>)
        ensures
            r == Pai::from_code(v),
    {
        match v {
            0 => Some(Pai::Unknown),
            11 => Some(Pai::Man1),
            12 => Some(Pai::Man2),
            13 => Some(Pai::Man3),
            14 => Some(Pai::Man4),
            15 => Some(Pai::Man5),
            16 => Some(Pai::Man6),
            17 => Some(Pai::Man7),
            18 => Some(Pai::Man8),
            19 => Some(Pai::Man9),
            21 => Some(Pai::Pin1),
            22 => Some(Pai::Pin2),
            23 => Some(Pai::Pin3),
            24 => Some(Pai::Pin4),
            25 => Some(Pai::Pin5),
            26 => Some(Pai::Pin6),
            27 => Some(Pai::Pin7),
            28 => Some(Pai::Pin8),
            29 => Some(Pai::Pin9),
            31 => Some(Pai::Sou1),
            32 => Some(Pai::Sou2),
            33 => Some(Pai::Sou3),
            34 => Some(Pai::Sou4),
            35 => Some(Pai::Sou5),
            36 => Some(Pai::Sou6),
            37 => Some(Pai::Sou7),
            38 => Some(Pai::Sou8),
            39 => Some(Pai::Sou9),
            41 => Some(Pai::East),
            42 => Some(Pai::South),
            43 => Some(Pai::West),
            44 => Some(Pai::North),
            45 => Some(Pai::Haku),
            46 => Some(Pai::Hatsu),
            47 => Some(Pai::Chun),
            51 => Some(Pai::AkaMan5),
            52 => Some(Pai::AkaPin5),
            53 => Some(Pai::AkaSou5),
            _ => None,
        }
    }

    /// The name of the tile in the mjai protocol.
    pub open spec fn mjai_name(self) -> Seq<char> {
        match self {
            Pai::Unknown => "?"@,
            Pai::Man1 => "1m"@,
            Pai::Man2 => "2m"@,
            Pai::Man3 => "3m"@,
            Pai::Man4 => "4m"@,
            Pai::Man5 => "5m"@,
            Pai::Man6 => "6m"@,
            Pai::Man7 => "7m"@,
            Pai::Man8 => "8m"@,
            Pai::Man9 => "9m"@,
            Pai::Pin1 => "1p"@,
            Pai::Pin2 => "2p"@,
            Pai::Pin3 => "3p"@,
            Pai::Pin4 => "4p"@,
            Pai::Pin5 => "5p"@,
            Pai::Pin6 => "6p"@,
            Pai::Pin7 => "7p"@,
            Pai::Pin8 => "8p"@,
            Pai::Pin9 => "9p"@,
            Pai::Sou1 => "1s"@,
            Pai::Sou2 => "2s"@,
            Pai::Sou3 => "3s"@,
            Pai::Sou4 => "4s"@,
            Pai::Sou5 => "5s"@,
            Pai::Sou6 => "6s"@,
            Pai::Sou7 => "7s"@,
            Pai::Sou8 => "8s"@,
            Pai::Sou9 => "9s"@,
            Pai::East => "E"@,
            Pai::South => "S"@,
            Pai::West => "W"@,
            Pai::North => "N"@,
            Pai::Haku => "P"@,
            Pai::Hatsu => "F"@,
            Pai::Chun => "C"@,
            Pai::AkaMan5 => "5mr"@,
            Pai::AkaPin5 => "5pr"@,
            Pai::AkaSou5 => "5sr"@,
        }
    }

    /// The name of the tile in the mjai protocol.
    pub fn to_mjai_str(&self) -> (r: &'static str)
        ensures
            r@ == self.mjai_name(),
    {
        match self {
            Pai::Unknown => "?",
            Pai::Man1 => "1m",
            Pai::Man2 => "2m",
            Pai::Man3 => "3m",
            Pai::Man4 => "4m",
            Pai::Man5 => "5m",
            Pai::Man6 => "6m",
            Pai::Man7 => "7m",
            Pai::Man8 => "8m",
            Pai::Man9 => "9m",
            Pai::Pin1 => "1p",
            Pai::Pin2 => "2p",
            Pai::Pin3 => "3p",
            Pai::Pin4 => "4p",
            Pai::Pin5 => "5p",
            Pai::Pin6 => "6p",
            Pai::Pin7 => "7p",
            Pai::Pin8 => "8p",
            Pai::Pin9 => "9p",
            Pai::Sou1 => "1s",
            Pai::Sou2 => "2s",
            Pai::Sou3 => "3s",
            Pai::Sou4 => "4s",
            Pai::Sou5 => "5s",
            Pai::Sou6 => "6s",
            Pai::Sou7 => "7s",
            Pai::Sou8 => "8s",
            Pai::Sou9 => "9s",
            Pai::East => "E",
            Pai::South => "S",
            Pai::West => "W",
            Pai::North => "N",
            Pai::Haku => "P",
            Pai::Hatsu => "F",
            Pai::Chun => "C",
            Pai::AkaMan5 => "5mr",
            Pai::AkaPin5 => "5pr",
            Pai::AkaSou5 => "5sr",
        }
    }

    /// The code of the tile with red fives counted as plain fives.
    pub open spec fn unify_code(self) -> u8 {
        match self {
            Pai::AkaMan5 => 15,
            Pai::AkaPin5 => 25,
            Pai::AkaSou5 => 35,
            _ => self.code(),
        }
    }

    /// The code of the tile with red fives counted as plain fives.
    pub fn as_unify_u8(self) -> (r: u8)
        ensures
            r == self.unify_code(),
            r < 48,
    {
        match self {
            Pai::AkaMan5 => 15,
            Pai::AkaPin5 => 25,
            Pai::AkaSou5 => 35,
            _ => {
                proof {
                    reveal(Pai::code);
                }
                self.as_u8()
            },
        }
    }

    /// The tile is a red five.
    pub open spec fn is_aka(self) -> bool {
        self == Pai::AkaMan5 || self == Pai::AkaPin5 || self == Pai::AkaSou5
    }
}

/// The number of copies of `p` in `s`.
pub open spec fn copies(s: Seq<Pai>, p: Pai) -> int
    decreases s.len(),
{
    if s.len() == 0 {
        0
    } else {
        copies(s.drop_last(), p) + if s.last() == p {
            1int
        } else {
            0int
        }
    }
}

/// `s` and `t` hold the same tiles, each as many times, in any order.
pub open spec fn same_tiles(s: Seq<Pai>, t: Seq<Pai>) -> bool {
    forall|p: Pai| #[trigger] copies(s, p) == copies(t, p)
}

/// The tiles of `s` come in the order of their codes.
pub open spec fn sorted_by_code(s: Seq<Pai>) -> bool {
    forall|i: int, j: int| 0 <= i < j < s.len() ==> s[i].code() <= s[j].code()
}

/// One if `b` holds, else zero.
pub open spec fn one_if(b: bool) -> int {
    if b {
        1
    } else {
        0
    }
}

/// The copies of a tile among two given tiles.
pub proof fn lemma_copies2(a: Pai, b: Pai, p: Pai)
    ensures
        copies(seq![a, b], p) == one_if(a == p) + one_if(b == p),
{
    reveal_with_fuel(copies, 3);
    assert(seq![a, b].drop_last() =~= seq![a]);
    assert(seq![a].drop_last() =~= Seq::<Pai>::empty());
}

/// The copies of a tile among three given tiles.
pub proof fn lemma_copies3(a: Pai, b: Pai, c: Pai, p: Pai)
    ensures
        copies(seq![a, b, c], p) == one_if(a == p) + one_if(b == p) + one_if(c == p),
{
    lemma_copies2(a, b, p);
    assert(seq![a, b, c].drop_last() =~= seq![a, b]);
}

/// The copies of a tile among four given tiles.
pub proof fn lemma_copies4(a: Pai, b: Pai, c: Pai, d: Pai, p: Pai)
    ensures
        copies(seq![a, b, c, d], p) == one_if(a == p) + one_if(b == p) + one_if(c == p) + one_if(
            d == p,
        ),
{
    lemma_copies3(a, b, c, p);
    assert(seq![a, b, c, d].drop_last() =~= seq![a, b, c]);
}

/// No tile is held a negative number of times.
pub proof fn lemma_copies_nonneg(t: Seq<Pai>, p: Pai)
    ensures
        copies(t, p) >= 0,
    decreases t.len(),
{
    if t.len() > 0 {
        lemma_copies_nonneg(t.drop_last(), p);
    }
}

/// A tile held at least once is held at some index.
pub proof fn lemma_copies_found(t: Seq<Pai>, p: Pai) -> (k: int)
    requires
        copies(t, p) >= 1,
    ensures
        0 <= k < t.len(),
        t[k] == p,
    decreases t.len(),
{
    if t.len() == 0 {
        0
    } else if t.last() == p {
        t.len() - 1
    } else {
        lemma_copies_found(t.drop_last(), p)
    }
}

/// Removing the tile at `k` lowers its copies by one.
pub proof fn lemma_copies_remove(t: Seq<Pai>, k: int, p: Pai)
    requires
        0 <= k < t.len(),
    ensures
        copies(t.remove(k), p) == copies(t, p) - one_if(t[k] == p),
    decreases t.len(),
{
    if k == t.len() - 1 {
        assert(t.remove(k) =~= t.drop_last());
    } else {
        lemma_copies_remove(t.drop_last(), k, p);
        assert(t.remove(k) =~= t.drop_last().remove(k).push(t.last()));
        assert(t.remove(k).drop_last() =~= t.drop_last().remove(k));
    }
}

/// The copies in two sequences put together add up.
pub proof fn lemma_copies_concat(a: Seq<Pai>, b: Seq<Pai>, p: Pai)
    ensures
        copies(a + b, p) == copies(a, p) + copies(b, p),
    decreases b.len(),
{
    if b.len() == 0 {
        assert(a + b =~= a);
    } else {
        lemma_copies_concat(a, b.drop_last(), p);
        assert((a + b).drop_last() =~= a + b.drop_last());
        assert((a + b).last() == b.last());
    }
}

/// Every unified code is below 48.
pub proof fn lemma_unify_lt_48(p: Pai)
    ensures
        p.unify_code() < 48,
{
    reveal(Pai::code);
}

/// A code names at most one tile, and every tile has the code it is named by.
pub proof fn lemma_code_roundtrip(p: Pai, v: u8)
    ensures
        Pai::from_code(p.code()) == Some(p),
        Pai::from_code(v) == Some(p) <==> p.code() == v,
{
    reveal(Pai::code);
}

/// Two tiles with the same code are the same tile.
pub proof fn lemma_code_injective(p: Pai, q: Pai)
    ensures
        p.code() == q.code() <==> p == q,
{
    reveal(Pai::code);
}

/// Below 48 every valid code names a tile that is not a red five, so its
/// unified code is the code itself.
pub proof fn lemma_unify_below_48(v: u8)
    requires
        v < 48,
        Pai::from_code(v) is Some,
    ensures
        Pai::from_code(v).unwrap().unify_code() == v,
        !Pai::from_code(v).unwrap().is_aka(),
{
    reveal(Pai::code);
}

} // verus!
