//! The closed tiles of one player's hand.
use vstd::prelude::*;
use crate::pai::{Pai, copies, one_if, lemma_copies_found, lemma_copies_remove};

verus! {

/// The tiles in a player's hand that are not part of a called meld.
#[derive(Debug, Clone)]
pub struct Tehai {
    pais: Vec<Pai>,
}

/// `s` without the first copy of each tile of `ps`, taken in order.
pub open spec fn remove_each(s: Seq<Pai>, ps: Seq<Pai>) -> Seq<Pai>
    decreases ps.len(),
{
    if ps.len() == 0 {
        s
    } else {
        remove_each(s, ps.drop_last()).remove_value(ps.last())
    }
}

/// Taking out a tile that is held lowers its copies by one and the hand's
/// size by one.
pub proof fn lemma_remove_value_copies(s: Seq<Pai>, x: Pai)
    requires
        copies(s, x) >= 1,
    ensures
        s.remove_value(x).len() == s.len() - 1,
        forall|p: Pai| #[trigger] copies(s.remove_value(x), p) == copies(s, p) - one_if(x == p),
{
    let k = lemma_copies_found(s, x);
    s.index_of_first_ensures(x);
    let i = s.index_of_first(x).unwrap();
    assert forall|p: Pai| #[trigger] copies(s.remove_value(x), p) == copies(s, p) - one_if(x == p) by {
        lemma_copies_remove(s, i, p);
    }
}

/// Taking out tiles that the hand holds, each as many times as it holds
/// them, takes exactly those tiles: every tile loses its copies among them.
pub proof fn lemma_remove_each_copies(s: Seq<Pai>, ps: Seq<Pai>)
    requires
        forall|p: Pai| #[trigger] copies(ps, p) <= copies(s, p),
    ensures
        remove_each(s, ps).len() == s.len() - ps.len(),
        forall|p: Pai| #[trigger] copies(remove_each(s, ps), p) == copies(s, p) - copies(ps, p),
    decreases ps.len(),
{
    if ps.len() > 0 {
        let init = ps.drop_last();
        let x = ps.last();
        assert forall|p: Pai| #[trigger] copies(init, p) <= copies(s, p) by {
            assert(copies(ps, p) == copies(init, p) + one_if(x == p));
        }
        lemma_remove_each_copies(s, init);
        let r = remove_each(s, init);
        assert(copies(ps, x) == copies(init, x) + 1);
        assert(copies(r, x) >= 1);
        lemma_remove_value_copies(r, x);
        assert forall|p: Pai| #[trigger] copies(remove_each(s, ps), p) == copies(s, p) - copies(ps, p) by {
            assert(copies(ps, p) == copies(init, p) + one_if(x == p));
        }
    }
}

impl Tehai {
    /// The tiles, in the order in which the hand holds them.
    pub closed spec fn tiles(&self) -> Seq<Pai> {
        self.pais@
    }

    /// An empty hand.
    pub fn new() -> (t: Self)
        ensures
            t.tiles() == Seq::<Pai>::empty(),
    {
        Tehai { pais: Vec::new() }
    }

    /// The tiles, in the order in which the hand holds them.
    pub fn view(&self) -> (r: &[Pai])
        ensures
            r@ == self.tiles(),
    {
        self.pais.as_slice()
    }

    /// Deals the starting hand.
    pub fn haipai(&mut self, haipai: &[Pai; 13])
        ensures
            final(self).tiles() == haipai@,
    {
        let mut v: Vec<Pai> = Vec::new();
        let mut k: usize = 0;
        while k < 13
            invariant
                k <= 13,
                v@ == haipai@.take(k as int),
            decreases 13 - k,
        {
            v.push(haipai[k]);
            k += 1;
            proof {
                assert(v@ =~= haipai@.take(k as int));
            }
        }
        proof {
            assert(haipai@.take(13) =~= haipai@);
        }
        self.pais = v;
    }

    /// Draws `pai`.
    pub fn tsumo(&mut self, pai: Pai)
        ensures
            final(self).tiles() == old(self).tiles().push(pai),
    {
        self.pais.push(pai);
    }

    /// Discards the tile just drawn: the last one.
    pub fn tsumogiri(&mut self)
        ensures
            final(self).tiles() == if old(self).tiles().len() > 0 {
                old(self).tiles().drop_last()
            } else {
                old(self).tiles()
            },
    {
        let _ = self.pais.pop();
    }

    /// The index of the first copy of `pai`, if the hand holds one.
    fn position(&self, pai: Pai) -> (r: Option<usize>)
        ensures
            match r {
                Some(i) => i < self.tiles().len() && self.tiles()[i as int] == pai && forall|j: int|
                    0 <= j < i ==> self.tiles()[j] != pai,
                None => !self.tiles().contains(pai),
            },
    {
        let mut k: usize = 0;
        while k < self.pais.len()
            invariant
                k <= self.pais@.len(),
                forall|j: int| 0 <= j < k ==> self.pais@[j] != pai,
            decreases self.pais@.len() - k,
        {
            if self.pais[k] == pai {
                return Some(k);
            }
            k += 1;
        }
        None
    }

    /// Discards `pai` from the hand: its first copy, if the hand holds one.
    pub fn tedashi(&mut self, pai: Pai)
        ensures
            final(self).tiles() == old(self).tiles().remove_value(pai),
    {
        proof {
            self.tiles().index_of_first_ensures(pai);
        }
        match self.position(pai) {
            Some(i) => {
                proof {
                    let f = self.tiles().index_of_first(pai).unwrap();
                    assert(f == i as int);
                }
                let _ = self.pais.remove(i);
            },
            None => {},
        }
    }

    /// Takes the first copy of each of `pais` out of the hand, in order.
    pub fn remove_multiple(&mut self, pais: &[Pai])
        ensures
            final(self).tiles() == remove_each(old(self).tiles(), pais@),
    {
        let mut k: usize = 0;
        while k < pais.len()
            invariant
                k <= pais@.len(),
                self.tiles() == remove_each(old(self).tiles(), pais@.take(k as int)),
            decreases pais@.len() - k,
        {
            proof {
                assert(pais@.take(k + 1).drop_last() =~= pais@.take(k as int));
            }
            self.tedashi(pais[k]);
            k += 1;
        }
        proof {
            assert(pais@.take(k as int) =~= pais@);
        }
    }
}

impl Default for Tehai {
    /// An empty hand.
    fn default() -> (t: Self)
        ensures
            t.tiles() == Seq::<Pai>::empty(),
    {
        Tehai::new()
    }
}

impl From<Vec<Pai>> for Tehai {
    fn from(pais: Vec<Pai>) -> (t: Tehai)
        ensures
            t.tiles() == pais@,
    {
        Tehai { pais }
    }
}

impl vstd::std_specs::convert::FromSpecImpl<Vec<Pai>> for Tehai {
    open spec fn obeys_from_spec() -> bool {
        true
    }

    closed spec fn from_spec(v: Vec<Pai>) -> Tehai {
        Tehai { pais: v }
    }
}

} // verus!
