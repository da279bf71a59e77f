//! The parts of the mjai protocol that the hand tracker reads: the tiles
//! taken from the hand for a call, and the game events.
use vstd::prelude::*;
use crate::pai::{
    Pai, copies, same_tiles, sorted_by_code, one_if, lemma_copies2, lemma_copies3, lemma_copies4,
    lemma_code_injective,
};

verus! {

/// The two tiles that a chi or a pon takes from the hand, in code order.
#[derive(Clone, Copy, Debug, PartialEq, Eq, Structural)]
pub struct Consumed2(Pai, Pai);

/// The three tiles that a daiminkan or a kakan names, in code order.
#[derive(Clone, Copy, Debug, PartialEq, Eq, Structural)]
pub struct Consumed3(Pai, Pai, Pai);

/// The four tiles of an ankan, in code order.
#[derive(Clone, Copy, Debug, PartialEq, Eq, Structural)]
pub struct Consumed4(Pai, Pai, Pai, Pai);

impl Consumed2 {
    /// The tiles are held in code order.
    #[verifier::type_invariant]
    pub closed spec fn in_order(self) -> bool {
        self.0.code() <= self.1.code()
    }

    /// The tiles, in code order.
    pub closed spec fn tiles(self) -> Seq<Pai> {
        seq![self.0, self.1]
    }

    /// Builds the value from the tiles in any order.
    pub fn from(v: [Pai; 2]) -> (r: Self)
        ensures
            sorted_by_code(r.tiles()),
            same_tiles(r.tiles(), v@),
    {
        let a = v[0];
        let b = v[1];
        proof {
            assert(v@ =~= seq![a, b]);
        }
        let r = if b.as_u8() < a.as_u8() {
            Consumed2(b, a)
        } else {
            Consumed2(a, b)
        };
        proof {
            assert forall|p: Pai| #[trigger] copies(r.tiles(), p) == copies(v@, p) by {
                lemma_copies2(a, b, p);
                lemma_copies2(r.0, r.1, p);
            }
        }
        r
    }

    /// The tiles, in code order.
    pub fn as_array(self) -> (r: [Pai; 2])
        ensures
            r@ == self.tiles(),
            sorted_by_code(r@),
    {
        proof {
            use_type_invariant(&self);
        }
        let r = [self.0, self.1];
        proof {
            assert(r@ =~= self.tiles());
        }
        r
    }
}

impl Consumed3 {
    /// The tiles are held in code order.
    #[verifier::type_invariant]
    pub closed spec fn in_order(self) -> bool {
        self.0.code() <= self.1.code() && self.1.code() <= self.2.code()
    }

    /// The tiles, in code order.
    pub closed spec fn tiles(self) -> Seq<Pai> {
        seq![self.0, self.1, self.2]
    }

    /// Builds the value from the tiles in any order.
    pub fn from(v: [Pai; 3]) -> (r: Self)
        ensures
            sorted_by_code(r.tiles()),
            same_tiles(r.tiles(), v@),
    {
        let mut a = v[0];
        let mut b = v[1];
        let mut c = v[2];
        let ghost (a0, b0, c0) = (a, b, c);
        proof {
            assert(v@ =~= seq![a, b, c]);
        }
        if b.as_u8() < a.as_u8() {
            let t = a;
            a = b;
            b = t;
        }
        if c.as_u8() < b.as_u8() {
            let t = b;
            b = c;
            c = t;
        }
        if b.as_u8() < a.as_u8() {
            let t = a;
            a = b;
            b = t;
        }
        let r = Consumed3(a, b, c);
        proof {
            assert forall|p: Pai| #[trigger] copies(r.tiles(), p) == copies(v@, p) by {
                lemma_copies3(a0, b0, c0, p);
                lemma_copies3(a, b, c, p);
            }
        }
        r
    }

    /// The tiles, in code order.
    pub fn as_array(self) -> (r: [Pai; 3])
        ensures
            r@ == self.tiles(),
            sorted_by_code(r@),
    {
        proof {
            use_type_invariant(&self);
        }
        let r = [self.0, self.1, self.2];
        proof {
            assert(r@ =~= self.tiles());
        }
        r
    }
}

impl Consumed4 {
    /// The tiles are held in code order.
    #[verifier::type_invariant]
    pub closed spec fn in_order(self) -> bool {
        self.0.code() <= self.1.code() && self.1.code() <= self.2.code() && self.2.code()
            <= self.3.code()
    }

    /// The tiles, in code order.
    pub closed spec fn tiles(self) -> Seq<Pai> {
        seq![self.0, self.1, self.2, self.3]
    }

    /// Builds the value from the tiles in any order.
    pub fn from(v: [Pai; 4]) -> (r: Self)
        ensures
            sorted_by_code(r.tiles()),
            same_tiles(r.tiles(), v@),
    {
        let mut a = v[0];
        let mut b = v[1];
        let mut c = v[2];
        let mut d = v[3];
        let ghost (a0, b0, c0, d0) = (a, b, c, d);
        proof {
            assert(v@ =~= seq![a, b, c, d]);
        }
        let ghost (pa, pb, pc, pd) = (a, b, c, d);
        if b.as_u8() < a.as_u8() {
            let t = a;
            a = b;
            b = t;
        }
        proof {
            lemma_swap_count4(pa, pb, pc, pd, a, b, c, d, a0, b0, c0, d0);
        }
        let ghost (pa, pb, pc, pd) = (a, b, c, d);
        if d.as_u8() < c.as_u8() {
            let t = c;
            c = d;
            d = t;
        }
        proof {
            lemma_swap_count4(pa, pb, pc, pd, a, b, c, d, a0, b0, c0, d0);
        }
        let ghost (pa, pb, pc, pd) = (a, b, c, d);
        if c.as_u8() < a.as_u8() {
            let t = a;
            a = c;
            c = t;
        }
        proof {
            lemma_swap_count4(pa, pb, pc, pd, a, b, c, d, a0, b0, c0, d0);
        }
        let ghost (pa, pb, pc, pd) = (a, b, c, d);
        if d.as_u8() < b.as_u8() {
            let t = b;
            b = d;
            d = t;
        }
        proof {
            lemma_swap_count4(pa, pb, pc, pd, a, b, c, d, a0, b0, c0, d0);
        }
        let ghost (pa, pb, pc, pd) = (a, b, c, d);
        if c.as_u8() < b.as_u8() {
            let t = b;
            b = c;
            c = t;
        }
        proof {
            lemma_swap_count4(pa, pb, pc, pd, a, b, c, d, a0, b0, c0, d0);
        }
        let r = Consumed4(a, b, c, d);
        proof {
            lemma_same4(a0, b0, c0, d0, a, b, c, d);
            assert(r.tiles() =~= seq![a, b, c, d]);
        }
        r
    }

    /// The tiles, in code order.
    pub fn as_array(self) -> (r: [Pai; 4])
        ensures
            r@ == self.tiles(),
            sorted_by_code(r@),
    {
        proof {
            use_type_invariant(&self);
        }
        let r = [self.0, self.1, self.2, self.3];
        proof {
            assert(r@ =~= self.tiles());
        }
        r
    }
}

/// The copies of `p` among the four tiles `a`, `b`, `c`, `d`.
#[verifier::opaque]
spec fn count4(a: Pai, b: Pai, c: Pai, d: Pai, p: Pai) -> int {
    one_if(a == p) + one_if(b == p) + one_if(c == p) + one_if(d == p)
}

/// The copies of a tile among four do not depend on the order of the four.
proof fn lemma_count4_perm(a: Pai, b: Pai, c: Pai, d: Pai, p: Pai)
    ensures
        count4(b, a, c, d, p) == count4(a, b, c, d, p),
        count4(a, b, d, c, p) == count4(a, b, c, d, p),
        count4(c, b, a, d, p) == count4(a, b, c, d, p),
        count4(a, d, c, b, p) == count4(a, b, c, d, p),
        count4(a, c, b, d, p) == count4(a, b, c, d, p),
{
    reveal(count4);
}

/// Swapping two of four tiles keeps the copies of every tile among them.
proof fn lemma_swap_count4(
    pa: Pai,
    pb: Pai,
    pc: Pai,
    pd: Pai,
    a: Pai,
    b: Pai,
    c: Pai,
    d: Pai,
    a0: Pai,
    b0: Pai,
    c0: Pai,
    d0: Pai,
)
    requires
        forall|p: Pai| #[trigger] count4(pa, pb, pc, pd, p) == count4(a0, b0, c0, d0, p),
        (a, b, c, d) == (pa, pb, pc, pd) || (a, b, c, d) == (pb, pa, pc, pd) || (a, b, c, d) == (
            pa,
            pb,
            pd,
            pc,
        ) || (a, b, c, d) == (pc, pb, pa, pd) || (a, b, c, d) == (pa, pd, pc, pb) || (a, b, c, d)
            == (pa, pc, pb, pd),
    ensures
        forall|p: Pai| #[trigger] count4(a, b, c, d, p) == count4(a0, b0, c0, d0, p),
{
    assert forall|p: Pai| #[trigger] count4(a, b, c, d, p) == count4(a0, b0, c0, d0, p) by {
        lemma_count4_perm(pa, pb, pc, pd, p);
        assert(count4(pa, pb, pc, pd, p) == count4(a0, b0, c0, d0, p));
    }
}

/// The copies of a tile among four given tiles, as `count4` counts them.
proof fn lemma_copies_count4(a: Pai, b: Pai, c: Pai, d: Pai, p: Pai)
    ensures
        copies(seq![a, b, c, d], p) == count4(a, b, c, d, p),
{
    lemma_copies4(a, b, c, d, p);
    reveal(count4);
}

/// Four tiles with the copies of four others hold the same tiles.
proof fn lemma_same4(a0: Pai, b0: Pai, c0: Pai, d0: Pai, a: Pai, b: Pai, c: Pai, d: Pai)
    requires
        forall|p: Pai| count4(a, b, c, d, p) == #[trigger] count4(a0, b0, c0, d0, p),
    ensures
        same_tiles(seq![a, b, c, d], seq![a0, b0, c0, d0]),
{
    let x = seq![a, b, c, d];
    let y = seq![a0, b0, c0, d0];
    assert forall|p: Pai| #[trigger] copies(x, p) == copies(y, p) by {
        lemma_copies_count4(a0, b0, c0, d0, p);
        lemma_copies_count4(a, b, c, d, p);
        assert(count4(a, b, c, d, p) == count4(a0, b0, c0, d0, p));
    }
}

/// The tiles of a value that keeps its invariant are in code order.
pub proof fn lemma_consumed2_sorted(c: Consumed2)
    requires
        c.in_order(),
    ensures
        sorted_by_code(c.tiles()),
{
}

/// The tiles of a value that keeps its invariant are in code order.
pub proof fn lemma_consumed3_sorted(c: Consumed3)
    requires
        c.in_order(),
    ensures
        sorted_by_code(c.tiles()),
{
}

/// The tiles of a value that keeps its invariant are in code order.
pub proof fn lemma_consumed4_sorted(c: Consumed4)
    requires
        c.in_order(),
    ensures
        sorted_by_code(c.tiles()),
{
}

/// A value is given by its tiles.
pub proof fn lemma_consumed3_tiles_injective(x: Consumed3, y: Consumed3)
    ensures
        x.tiles() == y.tiles() ==> x == y,
{
    if x.tiles() == y.tiles() {
        assert(x.tiles()[0] == y.tiles()[0]);
        assert(x.tiles()[1] == y.tiles()[1]);
        assert(x.tiles()[2] == y.tiles()[2]);
    }
}

/// The number of tiles held.
pub proof fn lemma_consumed2_len(c: Consumed2)
    ensures
        c.tiles().len() == 2,
{
}

/// The number of tiles held.
pub proof fn lemma_consumed4_len(c: Consumed4)
    ensures
        c.tiles().len() == 4,
{
}

/// Two values that keep their invariant and hold the same tiles are equal:
/// the order in which the tiles were given does not matter.
pub proof fn lemma_consumed3_same_tiles_equal(x: Consumed3, y: Consumed3)
    requires
        x.in_order(),
        y.in_order(),
        same_tiles(x.tiles(), y.tiles()),
    ensures
        x == y,
{
    lemma_sorted3_unique(x.tiles(), y.tiles());
    lemma_consumed3_tiles_injective(x, y);
}

/// The number of tiles held.
pub proof fn lemma_consumed3_len(c: Consumed3)
    ensures
        c.tiles().len() == 3,
{
}

/// Two triples of tiles in code order that hold the same tiles are equal.
pub proof fn lemma_sorted3_unique(x: Seq<Pai>, y: Seq<Pai>)
    requires
        x.len() == 3,
        y.len() == 3,
        sorted_by_code(x),
        sorted_by_code(y),
        same_tiles(x, y),
    ensures
        x == y,
{
    assert(x =~= seq![x[0], x[1], x[2]]);
    assert(y =~= seq![y[0], y[1], y[2]]);
    lemma_copies3(x[0], x[1], x[2], x[0]);
    lemma_copies3(y[0], y[1], y[2], x[0]);
    lemma_copies3(x[0], x[1], x[2], y[0]);
    lemma_copies3(y[0], y[1], y[2], y[0]);
    lemma_copies3(x[0], x[1], x[2], x[2]);
    lemma_copies3(y[0], y[1], y[2], x[2]);
    lemma_copies3(x[0], x[1], x[2], y[2]);
    lemma_copies3(y[0], y[1], y[2], y[2]);
    lemma_copies3(x[0], x[1], x[2], x[1]);
    lemma_copies3(y[0], y[1], y[2], x[1]);
    assert(copies(x, x[0]) == copies(y, x[0]));
    assert(copies(x, y[0]) == copies(y, y[0]));
    assert(copies(x, x[1]) == copies(y, x[1]));
    assert(copies(x, x[2]) == copies(y, x[2]));
    assert(copies(x, y[2]) == copies(y, y[2]));
    lemma_code_injective(x[0], y[0]);
    lemma_code_injective(x[2], y[2]);
    lemma_code_injective(x[1], y[1]);
    lemma_code_injective(x[0], x[1]);
    lemma_code_injective(x[1], x[2]);
    lemma_code_injective(y[0], y[1]);
    lemma_code_injective(y[1], y[2]);
    lemma_code_injective(x[1], y[0]);
    lemma_code_injective(x[1], y[2]);
}

/// An mjai event, as far as the hand tracker reads it.
#[allow(inconsistent_fields)]
#[derive(Clone, Copy, Debug)]
pub enum Event {
    NoEvent,
    StartGame,
    StartKyoku {
        bakaze: Pai,
        dora_marker: Pai,
        kyoku: u8,
        honba: u8,
        kyotaku: u8,
        oya: u8,
        scores: [i32; 4],
        tehais: [[Pai; 13]; 4],
    },
    Tsumo { actor: u8, pai: Pai },
    Dahai { actor: u8, pai: Pai, tsumogiri: bool },
    Chi { actor: u8, target: u8, pai: Pai, consumed: Consumed2 },
    Pon { actor: u8, target: u8, pai: Pai, consumed: Consumed2 },
    Daiminkan { actor: u8, target: u8, pai: Pai, consumed: Consumed3 },
    Kakan { actor: u8, pai: Pai, consumed: Consumed3 },
    Ankan { actor: u8, consumed: Consumed4 },
    Dora { dora_marker: Pai },
    Reach { actor: u8 },
    ReachAccepted { actor: u8 },
    Hora { actor: u8, target: u8 },
    Ryukyoku,
    EndKyoku,
    EndGame,
}

} // verus!
