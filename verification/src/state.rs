//! One player's hand and called melds, kept up to date from mjai events.
use vstd::prelude::*;
use crate::pai::{Pai, same_tiles, copies, one_if, lemma_copies_concat, sorted_by_code};
use crate::mjai::{
    Consumed2, Consumed3, Consumed4, Event, lemma_consumed3_sorted, lemma_sorted3_unique,
    lemma_consumed3_tiles_injective, lemma_consumed2_len, lemma_consumed3_len,
};
use crate::tehai::{Tehai, remove_each, lemma_remove_each_copies, lemma_remove_value_copies};
use crate::shanten::{ShantenHelper, MAX_TILES};
use crate::shanten_model::{
    shanten_of, tile_counts, is_complete, is_tenpai, kokushi_shanten, chiitoi_shanten,
};

verus! {

/// A called meld.
#[allow(inconsistent_fields)]
#[derive(Debug, Clone, Copy)]
pub enum Fuuro {
    Chi { target: u8, pai: Pai, consumed: Consumed2 },
    Pon { target: u8, pai: Pai, consumed: Consumed2 },
    Daiminkan { target: u8, pai: Pai, consumed: Consumed3 },
    Kakan { pai: Pai, previous_pon_target: u8, previous_pon_pai: Pai, consumed: Consumed2 },
    Ankan { consumed: Consumed4 },
}

impl Fuuro {
    /// The tiles of the meld: the called or added tiles first, then those
    /// from the hand.
    pub open spec fn pais(self) -> Seq<Pai> {
        match self {
            Fuuro::Chi { pai, consumed, .. } => seq![pai] + consumed.tiles(),
            Fuuro::Pon { pai, consumed, .. } => seq![pai] + consumed.tiles(),
            Fuuro::Daiminkan { pai, consumed, .. } => seq![pai] + consumed.tiles(),
            Fuuro::Kakan { pai, previous_pon_pai, consumed, .. } => seq![pai, previous_pon_pai]
                + consumed.tiles(),
            Fuuro::Ankan { consumed } => consumed.tiles(),
        }
    }

    /// The tiles of the meld.
    pub fn into_pais(&self) -> (r: Vec<Pai>)
        ensures
            r@ == self.pais(),
            3 <= r@.len() <= 4,
    {
        let mut return_pais: Vec<Pai> = Vec::new();
        match self {
            Fuuro::Chi { pai, consumed, .. } => {
                return_pais.push(*pai);
                return_pais.extend_from_slice(&consumed.as_array());
            },
            Fuuro::Pon { pai, consumed, .. } => {
                return_pais.push(*pai);
                return_pais.extend_from_slice(&consumed.as_array());
            },
            Fuuro::Daiminkan { pai, consumed, .. } => {
                return_pais.push(*pai);
                return_pais.extend_from_slice(&consumed.as_array());
            },
            Fuuro::Kakan { pai, previous_pon_pai, consumed, .. } => {
                return_pais.push(*pai);
                return_pais.push(*previous_pon_pai);
                return_pais.extend_from_slice(&consumed.as_array());
            },
            Fuuro::Ankan { consumed } => {
                return_pais.extend_from_slice(&consumed.as_array());
            },
        }
        proof {
            assert(return_pais@ =~= self.pais());
        }
        return_pais
    }
}


/// The hand of the player `actor` as the model sees it.
pub struct StateView {
    pub actor: u8,
    pub tehai: Seq<Pai>,
    pub fuuros: Seq<Fuuro>,
}

/// Why an event could not be applied.
#[derive(Debug, Clone, Copy, PartialEq, Eq, Structural)]
pub enum StateError {
    /// A kakan named tiles for which there is no pon to add to.
    PreviousPonNotFound,
}

/// The hand and called melds of one player.
#[derive(Debug, Clone)]
pub struct State {
    actor: u8,
    pub tehai: Tehai,
    pub fuuros: Vec<Fuuro>,
}

/// The pon of the tiles `consumed`, which a kakan adds to.
pub open spec fn is_pon_of(f: Fuuro, consumed: Consumed3) -> bool {
    match f {
        Fuuro::Pon { pai, consumed: pon_consumed, .. } => same_tiles(
            seq![pai] + pon_consumed.tiles(),
            consumed.tiles(),
        ),
        _ => false,
    }
}

/// The index of the first of `fuuros` from `k` on that is the pon of the
/// tiles `consumed`.
pub open spec fn find_pon(fuuros: Seq<Fuuro>, consumed: Consumed3, k: int) -> Option<int>
    decreases fuuros.len() - k,
{
    if k >= fuuros.len() {
        None
    } else if is_pon_of(fuuros[k], consumed) {
        Some(k)
    } else {
        find_pon(fuuros, consumed, k + 1)
    }
}

/// Where the pon of a kakan is found, and that none is found where there is
/// none.
pub proof fn lemma_find_pon(fuuros: Seq<Fuuro>, consumed: Consumed3, k: int)
    requires
        0 <= k,
    ensures
        find_pon(fuuros, consumed, k) matches Some(i) ==> k <= i < fuuros.len() && is_pon_of(
            fuuros[i],
            consumed,
        ),
        find_pon(fuuros, consumed, k) is None ==> forall|i: int|
            k <= i < fuuros.len() ==> !is_pon_of(#[trigger] fuuros[i], consumed),
    decreases fuuros.len() - k,
{
    if k < fuuros.len() {
        lemma_find_pon(fuuros, consumed, k + 1);
    }
}

/// The hand after the call `f` took the tiles `consumed` from it.
pub open spec fn after_call(s: StateView, consumed: Seq<Pai>, f: Fuuro) -> StateView {
    StateView { actor: s.actor, tehai: remove_each(s.tehai, consumed), fuuros: s.fuuros.push(f) }
}

/// What an event does to the hand: `Ok` with the new hand, or `Err` with the
/// hand as the failed event leaves it. Events of other players, and events
/// other than those that deal, draw, discard or call, change nothing.
pub open spec fn step(s: StateView, event: Event) -> Result<StateView, StateView> {
    match event {
        Event::StartKyoku { tehais, .. } => Ok(
            StateView { actor: s.actor, tehai: tehais@[s.actor as int]@, fuuros: Seq::empty() },
        ),
        Event::Tsumo { actor, pai } => if actor == s.actor {
            Ok(StateView { actor: s.actor, tehai: s.tehai.push(pai), fuuros: s.fuuros })
        } else {
            Ok(s)
        },
        Event::Dahai { actor, pai, tsumogiri } => if actor == s.actor {
            let tehai = if tsumogiri {
                if s.tehai.len() > 0 {
                    s.tehai.drop_last()
                } else {
                    s.tehai
                }
            } else {
                s.tehai.remove_value(pai)
            };
            Ok(StateView { actor: s.actor, tehai, fuuros: s.fuuros })
        } else {
            Ok(s)
        },
        Event::Chi { actor, target, pai, consumed } => if actor == s.actor {
            Ok(after_call(s, consumed.tiles(), Fuuro::Chi { target, pai, consumed }))
        } else {
            Ok(s)
        },
        Event::Pon { actor, target, pai, consumed } => if actor == s.actor {
            Ok(after_call(s, consumed.tiles(), Fuuro::Pon { target, pai, consumed }))
        } else {
            Ok(s)
        },
        Event::Daiminkan { actor, target, pai, consumed } => if actor == s.actor {
            Ok(after_call(s, consumed.tiles(), Fuuro::Daiminkan { target, pai, consumed }))
        } else {
            Ok(s)
        },
        Event::Kakan { actor, pai, consumed } => if actor == s.actor {
            let tehai = s.tehai.remove_value(pai);
            match find_pon(s.fuuros, consumed, 0) {
                Some(i) => match s.fuuros[i] {
                    Fuuro::Pon { target, pai: pon_pai, consumed: pon_consumed } => Ok(
                        StateView {
                            actor: s.actor,
                            tehai,
                            fuuros: s.fuuros.update(
                                i,
                                Fuuro::Kakan {
                                    pai,
                                    previous_pon_target: target,
                                    previous_pon_pai: pon_pai,
                                    consumed: pon_consumed,
                                },
                            ),
                        },
                    ),
                    _ => Err(StateView { actor: s.actor, tehai, fuuros: s.fuuros }),
                },
                None => Err(StateView { actor: s.actor, tehai, fuuros: s.fuuros }),
            }
        } else {
            Ok(s)
        },
        Event::Ankan { actor, consumed } => if actor == s.actor {
            Ok(after_call(s, consumed.tiles(), Fuuro::Ankan { consumed }))
        } else {
            Ok(s)
        },
        _ => Ok(s),
    }
}

impl Default for State {
    /// An empty hand for player 0.
    fn default() -> (s: Self)
        ensures
            s@ == (StateView { actor: 0, tehai: Seq::empty(), fuuros: Seq::empty() }),
    {
        State::new(0)
    }
}

impl View for State {
    type V = StateView;

    closed spec fn view(&self) -> StateView {
        StateView { actor: self.actor, tehai: self.tehai.tiles(), fuuros: self.fuuros@ }
    }
}

impl State {
    /// An empty hand for the player `actor`.
    pub fn new(actor: u8) -> (s: Self)
        ensures
            s@ == (StateView { actor, tehai: Seq::empty(), fuuros: Seq::empty() }),
    {
        State { actor, tehai: Tehai::new(), fuuros: Vec::new() }
    }

    /// The player whose hand this is.
    pub fn actor(&self) -> (a: u8)
        ensures
            a == self@.actor,
    {
        self.actor
    }

    /// The closed hand.
    pub fn tehai(&self) -> (t: &Tehai)
        ensures
            t.tiles() == self@.tehai,
    {
        &self.tehai
    }

    /// The called melds, in the order in which they were made.
    pub fn fuuros(&self) -> (f: &Vec<Fuuro>)
        ensures
            f@ == self@.fuuros,
    {
        &self.fuuros
    }

    /// Applies `event` to the hand: a deal, or a draw, discard or call by the
    /// player. Any other event leaves the hand as it is.
    pub fn update(&mut self, event: &Event) -> (r: Result<(), StateError>)
        requires
            event is StartKyoku ==> old(self)@.actor < 4,
        ensures
            match step(old(self)@, *event) {
                Ok(v) => r is Ok && final(self)@ == v,
                Err(v) => r == Err::<(), StateError>(StateError::PreviousPonNotFound) && final(self)@ == v,
            },
    {
        match *event {
            Event::StartKyoku { tehais, .. } => {
                self.tehai.haipai(&tehais[self.actor as usize]);
                self.fuuros.clear();
            },
            Event::Tsumo { actor, pai } => {
                if actor == self.actor {
                    self.tehai.tsumo(pai);
                }
            },
            Event::Dahai { actor, pai, tsumogiri } => {
                if actor == self.actor {
                    if tsumogiri {
                        self.tehai.tsumogiri();
                    } else {
                        self.tehai.tedashi(pai);
                    }
                }
            },
            Event::Chi { actor, target, pai, consumed } => {
                if actor == self.actor {
                    self.tehai.remove_multiple(&consumed.as_array());
                    let fuuro = Fuuro::Chi { target, pai, consumed };
                    self.fuuros.push(fuuro);
                }
            },
            Event::Pon { actor, target, pai, consumed } => {
                if actor == self.actor {
                    self.tehai.remove_multiple(&consumed.as_array());
                    let fuuro = Fuuro::Pon { target, pai, consumed };
                    self.fuuros.push(fuuro);
                }
            },
            Event::Daiminkan { actor, target, pai, consumed } => {
                if actor == self.actor {
                    self.tehai.remove_multiple(&consumed.as_array());
                    let fuuro = Fuuro::Daiminkan { target, pai, consumed };
                    self.fuuros.push(fuuro);
                }
            },
            Event::Kakan { actor, pai, consumed } => {
                if actor == self.actor {
                    self.tehai.tedashi(pai);
                    proof {
                        lemma_find_pon(self.fuuros@, consumed, 0);
                    }
                    let found = self.find_previous_pon(consumed);
                    match found {
                        Some((previous_pon_idx, previous_pon_target, previous_pon_pai, previous_pon_consumed)) => {
                            let fuuro = Fuuro::Kakan {
                                pai,
                                previous_pon_target,
                                previous_pon_pai,
                                consumed: previous_pon_consumed,
                            };
                            self.fuuros[previous_pon_idx] = fuuro;
                        },
                        None => {
                            return Err(StateError::PreviousPonNotFound);
                        },
                    }
                }
            },
            Event::Ankan { actor, consumed } => {
                if actor == self.actor {
                    self.tehai.remove_multiple(&consumed.as_array());
                    let fuuro = Fuuro::Ankan { consumed };
                    self.fuuros.push(fuuro);
                }
            },
            _ => {},
        }
        Ok(())
    }

    /// The first pon whose three tiles are `consumed`: its index, the player
    /// it was called from, the called tile and the tiles from the hand.
    fn find_previous_pon(&self, consumed: Consumed3) -> (r: Option<(usize, u8, Pai, Consumed2)>)
        ensures
            match find_pon(self.fuuros@, consumed, 0) {
                Some(i) => r matches Some((idx, target, pai, pon_consumed)) && idx == i
                    && self.fuuros@[i] == (Fuuro::Pon { target, pai, consumed: pon_consumed }),
                None => r is None,
            },
    {
        proof {
            use_type_invariant(&consumed);
            lemma_consumed3_sorted(consumed);
            lemma_find_pon(self.fuuros@, consumed, 0);
        }
        let mut idx: usize = 0;
        while idx < self.fuuros.len()
            invariant
                idx <= self.fuuros@.len(),
                find_pon(self.fuuros@, consumed, 0) == find_pon(self.fuuros@, consumed, idx as int),
                sorted_by_code(consumed.tiles()),
            decreases self.fuuros@.len() - idx,
        {
            let f = self.fuuros[idx];
            match f {
                Fuuro::Pon { target: pon_target, pai: pon_pai, consumed: pon_consumed } => {
                    let pon_arr = pon_consumed.as_array();
                    let arr = [pon_pai, pon_arr[0], pon_arr[1]];
                    let tiles = Consumed3::from(arr);
                    proof {
                        lemma_consumed2_len(pon_consumed);
                        lemma_consumed3_len(tiles);
                        lemma_consumed3_len(consumed);
                        assert(arr@ =~= seq![pon_pai] + pon_consumed.tiles());
                        if same_tiles(seq![pon_pai] + pon_consumed.tiles(), consumed.tiles()) {
                            assert forall|p: Pai| #[trigger] copies(tiles.tiles(), p) == copies(
                                consumed.tiles(),
                                p,
                            ) by {
                                assert(copies(tiles.tiles(), p) == copies(arr@, p));
                            }
                            lemma_sorted3_unique(tiles.tiles(), consumed.tiles());
                            lemma_consumed3_tiles_injective(tiles, consumed);
                        }
                    }
                    if tiles == consumed {
                        return Some((idx, pon_target, pon_pai, pon_consumed));
                    }
                },
                _ => {},
            }
            idx += 1;
        }
        None
    }

    /// An iterator over the tiles of the hand: the closed tiles, then the
    /// tiles of each called meld in turn.
    pub fn iter(&self) -> (it: PaiIterator<'_>)
        ensures
            it.wf(),
            it.remaining() == self@.tehai + fuuro_pais(self@.fuuros),
    {
        let it = PaiIterator {
            tehai: self.tehai.view(),
            tehai_pos: 0,
            fuuros: self.fuuros.as_slice(),
            fuuro_pos: 0,
            cur_fuuro: None,
            cur_fuuro_index: 0,
        };
        proof {
            assert(it.tehai@.skip(0) =~= self@.tehai);
            assert(it.fuuros@.skip(0) =~= self@.fuuros);
            assert(it.remaining() =~= self@.tehai + fuuro_pais(self@.fuuros));
        }
        it
    }

    /// The shanten number of the closed hand: the least of the
    /// thirteen-orphans, seven-pairs and normal forms. For up to fourteen
    /// tiles it is at least -1, and at least 0 with 3k+1 tiles; a complete
    /// hand of 3k+2 tiles gives -1, and a ready hand of 3k+1 tiles gives 0.
    pub fn calc_shanten(&self) -> (r: i32)
        requires
            self@.tehai.len() <= MAX_TILES,
        ensures
            r == shanten_of(self@.tehai),
            r <= kokushi_shanten(tile_counts(self@.tehai), self@.tehai.len() as int),
            r <= chiitoi_shanten(tile_counts(self@.tehai), self@.tehai.len() as int),
            r <= 8,
            self@.tehai.len() <= 14 ==> r >= -1,
            self@.tehai.len() <= 14 && self@.tehai.len() % 3 == 1 ==> r >= 0,
            self@.tehai.len() <= 14 && self@.tehai.len() % 3 == 2 && is_complete(
                tile_counts(self@.tehai),
            ) ==> r == -1,
            self@.tehai.len() <= 14 && self@.tehai.len() % 3 == 1 && is_tenpai(
                tile_counts(self@.tehai),
            ) ==> r == 0,
    {
        let mut s = ShantenHelper::new(&self.tehai);
        s.get_shanten()
    }
}


/// The tiles of the melds `fs`, one meld after the other.
pub open spec fn fuuro_pais(fs: Seq<Fuuro>) -> Seq<Pai>
    decreases fs.len(),
{
    if fs.len() == 0 {
        Seq::empty()
    } else {
        fs[0].pais() + fuuro_pais(fs.drop_first())
    }
}

/// Walks the tiles of a hand: the closed tiles, then those of each meld.
pub struct PaiIterator<'a> {
    tehai: &'a [Pai],
    tehai_pos: usize,
    fuuros: &'a [Fuuro],
    fuuro_pos: usize,
    cur_fuuro: Option<Vec<Pai>>,
    cur_fuuro_index: usize,
}

impl<'a> PaiIterator<'a> {
    /// The positions lie within what they point into.
    pub closed spec fn wf(&self) -> bool {
        &&& self.tehai_pos <= self.tehai@.len()
        &&& self.fuuro_pos <= self.fuuros@.len()
        &&& match self.cur_fuuro {
            Some(v) => self.cur_fuuro_index <= v@.len(),
            None => true,
        }
    }

    /// The tiles still to come, in order.
    pub closed spec fn remaining(&self) -> Seq<Pai> {
        self.tehai@.skip(self.tehai_pos as int) + match self.cur_fuuro {
            Some(v) => v@.skip(self.cur_fuuro_index as int),
            None => Seq::empty(),
        } + fuuro_pais(self.fuuros@.skip(self.fuuro_pos as int))
    }

    /// The next tile, if any is left.
    #[verifier::spinoff_prover]
    #[verifier::rlimit(40)]
    pub fn next(&mut self) -> (r: Option<Pai>)
        requires
            old(self).wf(),
        ensures
            final(self).wf(),
            match r {
                Some(p) => old(self).remaining().len() > 0 && p == old(self).remaining()[0]
                    && final(self).remaining() == old(self).remaining().drop_first(),
                None => old(self).remaining().len() == 0 && final(self).remaining() == old(
                    self,
                ).remaining(),
            },
    {
        if self.tehai_pos < self.tehai.len() {
            let pai = self.tehai[self.tehai_pos];
            proof {
                assert(self.tehai@.skip(self.tehai_pos as int) =~= seq![pai] + self.tehai@.skip(
                    self.tehai_pos + 1,
                ));
            }
            self.tehai_pos += 1;
            proof {
                assert(old(self).remaining() =~= seq![pai] + self.remaining());
            }
            return Some(pai);
        }
        proof {
            assert(self.tehai@.skip(self.tehai_pos as int) =~= Seq::<Pai>::empty());
        }
        if let Some(curr) = &self.cur_fuuro {
            if self.cur_fuuro_index < curr.len() {
                let pai = curr[self.cur_fuuro_index];
                proof {
                    assert(curr@.skip(self.cur_fuuro_index as int) =~= seq![pai] + curr@.skip(
                        self.cur_fuuro_index + 1,
                    ));
                }
                self.cur_fuuro_index += 1;
                proof {
                    assert(old(self).remaining() =~= seq![pai] + self.remaining());
                }
                return Some(pai);
            }
            proof {
                assert(curr@.skip(self.cur_fuuro_index as int) =~= Seq::<Pai>::empty());
            }
        }
        if self.fuuro_pos < self.fuuros.len() {
            let pais = self.fuuros[self.fuuro_pos].into_pais();
            let ghost f = self.fuuros@[self.fuuro_pos as int];
            proof {
                assert(self.fuuros@.skip(self.fuuro_pos as int).drop_first() =~= self.fuuros@.skip(
                    self.fuuro_pos + 1,
                ));
                assert(self.fuuros@.skip(self.fuuro_pos as int)[0] == f);
            }
            self.fuuro_pos += 1;
            let first_pai = pais[0];
            proof {
                assert(pais@ =~= seq![first_pai] + pais@.skip(1));
            }
            self.cur_fuuro = Some(pais);
            self.cur_fuuro_index = 1;
            proof {
                assert(old(self).remaining() =~= seq![first_pai] + self.remaining());
            }
            return Some(first_pai);
        }
        proof {
            assert(self.fuuros@.skip(self.fuuro_pos as int) =~= Seq::<Fuuro>::empty());
            assert(old(self).remaining() =~= Seq::<Pai>::empty());
        }
        None
    }
}


/// An event that is not a deal, nor a draw, discard or call by the player
/// whose hand this is, leaves the hand as it is.
pub proof fn lemma_other_events_change_nothing(s: StateView, event: Event)
    requires
        !(event is StartKyoku),
        event is Tsumo ==> event->Tsumo_actor != s.actor,
        event is Dahai ==> event->Dahai_actor != s.actor,
        event is Chi ==> event->Chi_actor != s.actor,
        event is Pon ==> event->Pon_actor != s.actor,
        event is Daiminkan ==> event->Daiminkan_actor != s.actor,
        event is Kakan ==> event->Kakan_actor != s.actor,
        event is Ankan ==> event->Ankan_actor != s.actor,
    ensures
        step(s, event) == Ok::<StateView, StateView>(s),
{
}

/// Discarding the tile just drawn gives the hand back as it was.
pub proof fn lemma_tsumogiri_undoes_tsumo(s: StateView, pai: Pai, other: Pai)
    ensures
        step(s, Event::Tsumo { actor: s.actor, pai }) matches Ok(s1) && step(
            s1,
            Event::Dahai { actor: s.actor, pai: other, tsumogiri: true },
        ) == Ok::<StateView, StateView>(s),
{
    let s1 = StateView { actor: s.actor, tehai: s.tehai.push(pai), fuuros: s.fuuros };
    assert(s1.tehai.drop_last() =~= s.tehai);
}

/// Discarding from the hand a tile that was just drawn, and of which the
/// hand held no other copy, gives the hand back as it was.
pub proof fn lemma_tedashi_undoes_tsumo(s: StateView, pai: Pai)
    requires
        !s.tehai.contains(pai),
    ensures
        step(s, Event::Tsumo { actor: s.actor, pai }) matches Ok(s1) && step(
            s1,
            Event::Dahai { actor: s.actor, pai, tsumogiri: false },
        ) == Ok::<StateView, StateView>(s),
{
    let t = s.tehai.push(pai);
    t.index_of_first_ensures(pai);
    assert(t[s.tehai.len() as int] == pai);
    let i = t.index_of_first(pai).unwrap();
    assert(i == s.tehai.len());
    assert(t.remove(i) =~= s.tehai);
}

/// A deal starts the hand afresh: what the player held or called before does
/// not matter.
pub proof fn lemma_deal_forgets(s1: StateView, s2: StateView, event: Event)
    requires
        event is StartKyoku,
        s1.actor == s2.actor,
    ensures
        step(s1, event) == step(s2, event),
        step(s1, event) matches Ok(v) && v.fuuros.len() == 0,
{
}

/// A deal gives the player the starting hand of the player's own seat, and no
/// melds.
pub proof fn lemma_deal_gives_own_hand(s: StateView, event: Event)
    requires
        event is StartKyoku,
        s.actor < 4,
    ensures
        step(s, event) matches Ok(v) && v.actor == s.actor && v.tehai
            == event->StartKyoku_tehais@[s.actor as int]@ && v.fuuros.len() == 0,
{
}

/// A kakan succeeds exactly when the player has a pon of the same tiles as
/// its three consumed ones; it then turns the first such pon, in place, into
/// a kan of the added tile with that pon's caller, called tile and consumed
/// tiles, and keeps every other meld.
pub proof fn lemma_kakan_upgrades_matching_pon(s: StateView, pai: Pai, consumed: Consumed3)
    ensures
        (step(s, Event::Kakan { actor: s.actor, pai, consumed }) is Ok) <==> exists|i: int|
            0 <= i < s.fuuros.len() && #[trigger] s.fuuros[i] is Pon && same_tiles(
                seq![s.fuuros[i]->Pon_pai] + s.fuuros[i]->Pon_consumed.tiles(),
                consumed.tiles(),
            ),
        step(s, Event::Kakan { actor: s.actor, pai, consumed }) matches Ok(v) ==> exists|i: int|
            {
                &&& 0 <= i < s.fuuros.len()
                &&& #[trigger] s.fuuros[i] is Pon
                &&& same_tiles(
                    seq![s.fuuros[i]->Pon_pai] + s.fuuros[i]->Pon_consumed.tiles(),
                    consumed.tiles(),
                )
                &&& forall|j: int|
                    0 <= j < i ==> !(#[trigger] s.fuuros[j] is Pon && same_tiles(
                        seq![s.fuuros[j]->Pon_pai] + s.fuuros[j]->Pon_consumed.tiles(),
                        consumed.tiles(),
                    ))
                &&& v.fuuros == s.fuuros.update(
                    i,
                    Fuuro::Kakan {
                        pai,
                        previous_pon_target: s.fuuros[i]->Pon_target,
                        previous_pon_pai: s.fuuros[i]->Pon_pai,
                        consumed: s.fuuros[i]->Pon_consumed,
                    },
                )
            },
{
    lemma_find_pon(s.fuuros, consumed, 0);
    lemma_find_pon_first(s.fuuros, consumed, 0);
    if exists|i: int|
        0 <= i < s.fuuros.len() && #[trigger] s.fuuros[i] is Pon && same_tiles(
            seq![s.fuuros[i]->Pon_pai] + s.fuuros[i]->Pon_consumed.tiles(),
            consumed.tiles(),
        ) {
        let i = choose|i: int|
            0 <= i < s.fuuros.len() && #[trigger] s.fuuros[i] is Pon && same_tiles(
                seq![s.fuuros[i]->Pon_pai] + s.fuuros[i]->Pon_consumed.tiles(),
                consumed.tiles(),
            );
        assert(is_pon_of(s.fuuros[i], consumed));
    }
    if let Some(i) = find_pon(s.fuuros, consumed, 0) {
        assert(is_pon_of(s.fuuros[i], consumed));
        assert forall|j: int| 0 <= j < i implies !(#[trigger] s.fuuros[j] is Pon && same_tiles(
            seq![s.fuuros[j]->Pon_pai] + s.fuuros[j]->Pon_consumed.tiles(),
            consumed.tiles(),
        )) by {
            assert(!is_pon_of(s.fuuros[j], consumed));
        }
    }
}

/// The first pon of the tiles that `find_pon` finds has no such pon before
/// it.
proof fn lemma_find_pon_first(fuuros: Seq<Fuuro>, consumed: Consumed3, k: int)
    requires
        0 <= k,
    ensures
        find_pon(fuuros, consumed, k) matches Some(i) ==> forall|j: int|
            k <= j < i ==> !is_pon_of(#[trigger] fuuros[j], consumed),
    decreases fuuros.len() - k,
{
    if k < fuuros.len() {
        lemma_find_pon_first(fuuros, consumed, k + 1);
    }
}

/// A call by the player records, as its new last meld, the caller, the
/// called tile and the consumed tiles of the event.
pub proof fn lemma_call_records_event(s: StateView, event: Event)
    requires
        event is Chi || event is Pon || event is Daiminkan || event is Ankan,
        event is Chi ==> event->Chi_actor == s.actor,
        event is Pon ==> event->Pon_actor == s.actor,
        event is Daiminkan ==> event->Daiminkan_actor == s.actor,
        event is Ankan ==> event->Ankan_actor == s.actor,
    ensures
        step(s, event) matches Ok(v) && v.fuuros.len() == s.fuuros.len() + 1 && v.fuuros.last()
            == match event {
            Event::Chi { target, pai, consumed, .. } => Fuuro::Chi { target, pai, consumed },
            Event::Pon { target, pai, consumed, .. } => Fuuro::Pon { target, pai, consumed },
            Event::Daiminkan { target, pai, consumed, .. } => Fuuro::Daiminkan {
                target,
                pai,
                consumed,
            },
            Event::Ankan { consumed, .. } => Fuuro::Ankan { consumed },
            _ => s.fuuros.last(),
        },
{
}

/// A kakan that finds its pon turns that pon, in place, into a meld of the
/// same tiles and the added one; the other melds stay as they were.
pub proof fn lemma_kakan_extends_pon(s: StateView, pai: Pai, consumed: Consumed3)
    requires
        find_pon(s.fuuros, consumed, 0) is Some,
    ensures
        step(s, Event::Kakan { actor: s.actor, pai, consumed }) matches Ok(v) && {
            let i = find_pon(s.fuuros, consumed, 0).unwrap();
            &&& v.fuuros.len() == s.fuuros.len()
            &&& forall|j: int| 0 <= j < s.fuuros.len() && j != i ==> v.fuuros[j] == s.fuuros[j]
            &&& v.fuuros[i] is Kakan
            &&& v.fuuros[i].pais() == seq![pai] + s.fuuros[i].pais()
        },
{
    lemma_find_pon(s.fuuros, consumed, 0);
    let i = find_pon(s.fuuros, consumed, 0).unwrap();
    match s.fuuros[i] {
        Fuuro::Pon { target, pai: pon_pai, consumed: pon_consumed } => {
            let k = Fuuro::Kakan {
                pai,
                previous_pon_target: target,
                previous_pon_pai: pon_pai,
                consumed: pon_consumed,
            };
            assert(k.pais() =~= seq![pai] + s.fuuros[i].pais());
        },
        _ => {},
    }
}

/// A kakan that finds no pon fails, and leaves the melds as they were.
pub proof fn lemma_kakan_without_pon_fails(s: StateView, pai: Pai, consumed: Consumed3)
    requires
        forall|j: int| 0 <= j < s.fuuros.len() ==> !is_pon_of(#[trigger] s.fuuros[j], consumed),
    ensures
        step(s, Event::Kakan { actor: s.actor, pai, consumed }) matches Err(v) && v.fuuros
            == s.fuuros,
{
    lemma_find_pon(s.fuuros, consumed, 0);
}

/// A call adds exactly one meld, whose tiles are the called tile and those
/// taken from the hand.
pub proof fn lemma_call_adds_one_meld(s: StateView, event: Event)
    requires
        event is Chi || event is Pon || event is Daiminkan || event is Ankan,
        event is Chi ==> event->Chi_actor == s.actor,
        event is Pon ==> event->Pon_actor == s.actor,
        event is Daiminkan ==> event->Daiminkan_actor == s.actor,
        event is Ankan ==> event->Ankan_actor == s.actor,
    ensures
        step(s, event) matches Ok(v) && v.fuuros.len() == s.fuuros.len() + 1 && v.fuuros.drop_last()
            == s.fuuros,
{
    match step(s, event) {
        Ok(v) => {
            assert(v.fuuros.drop_last() =~= s.fuuros);
        },
        Err(_) => {},
    }
}

/// Chi and pon melds hold three tiles; kan melds hold four.
pub proof fn lemma_fuuro_size(f: Fuuro)
    ensures
        f.pais().len() == match f {
            Fuuro::Chi { .. } | Fuuro::Pon { .. } => 3int,
            _ => 4int,
        },
{
    match f {
        Fuuro::Chi { consumed, .. } => lemma_consumed2_len(consumed),
        Fuuro::Pon { consumed, .. } => lemma_consumed2_len(consumed),
        Fuuro::Daiminkan { consumed, .. } => lemma_consumed3_len(consumed),
        Fuuro::Kakan { consumed, .. } => lemma_consumed2_len(consumed),
        Fuuro::Ankan { consumed } => crate::mjai::lemma_consumed4_len(consumed),
    }
}


/// All the tiles of the player: the closed hand, then the melds.
pub open spec fn all_tiles(s: StateView) -> Seq<Pai> {
    s.tehai + fuuro_pais(s.fuuros)
}

/// The tiles of the melds after one more meld.
pub proof fn lemma_fuuro_pais_push(fs: Seq<Fuuro>, f: Fuuro, p: Pai)
    ensures
        copies(fuuro_pais(fs.push(f)), p) == copies(fuuro_pais(fs), p) + copies(f.pais(), p),
    decreases fs.len(),
{
    if fs.len() == 0 {
        assert(fs.push(f).drop_first() =~= Seq::<Fuuro>::empty());
        assert(fs.push(f)[0] == f);
        let d = fs.push(f).drop_first();
        assert(d.len() == 0);
        assert(fuuro_pais(d) =~= Seq::<Pai>::empty());
        assert(fuuro_pais(fs.push(f)) =~= f.pais());
        assert(fuuro_pais(fs) =~= Seq::<Pai>::empty());
    } else {
        lemma_fuuro_pais_push(fs.drop_first(), f, p);
        assert(fs.push(f).drop_first() =~= fs.drop_first().push(f));
        lemma_copies_concat(fs[0].pais(), fuuro_pais(fs.drop_first().push(f)), p);
        lemma_copies_concat(fs[0].pais(), fuuro_pais(fs.drop_first()), p);
    }
}

/// The tiles of the melds after one meld is replaced by another.
pub proof fn lemma_fuuro_pais_update(fs: Seq<Fuuro>, i: int, g: Fuuro, p: Pai)
    requires
        0 <= i < fs.len(),
    ensures
        copies(fuuro_pais(fs.update(i, g)), p) == copies(fuuro_pais(fs), p) - copies(
            fs[i].pais(),
            p,
        ) + copies(g.pais(), p),
    decreases fs.len(),
{
    let u = fs.update(i, g);
    lemma_copies_concat(fs[0].pais(), fuuro_pais(fs.drop_first()), p);
    lemma_copies_concat(u[0].pais(), fuuro_pais(u.drop_first()), p);
    if i == 0 {
        assert(u.drop_first() =~= fs.drop_first());
    } else {
        lemma_fuuro_pais_update(fs.drop_first(), i - 1, g, p);
        assert(u.drop_first() =~= fs.drop_first().update(i - 1, g));
    }
}

/// A call by the player, of tiles that the hand holds, moves those tiles from
/// the hand into the new meld and adds the called tile: no other tile is
/// gained or lost.
pub proof fn lemma_call_keeps_tiles(s: StateView, event: Event)
    requires
        event is Chi || event is Pon || event is Daiminkan || event is Ankan,
        event is Chi ==> event->Chi_actor == s.actor && forall|p: Pai|
            #[trigger] copies(event->Chi_consumed.tiles(), p) <= copies(s.tehai, p),
        event is Pon ==> event->Pon_actor == s.actor && forall|p: Pai|
            #[trigger] copies(event->Pon_consumed.tiles(), p) <= copies(s.tehai, p),
        event is Daiminkan ==> event->Daiminkan_actor == s.actor && forall|p: Pai|
            #[trigger] copies(event->Daiminkan_consumed.tiles(), p) <= copies(s.tehai, p),
        event is Ankan ==> event->Ankan_actor == s.actor && forall|p: Pai|
            #[trigger] copies(event->Ankan_consumed.tiles(), p) <= copies(s.tehai, p),
    ensures
        step(s, event) matches Ok(v) && forall|p: Pai|
            #[trigger] copies(all_tiles(v), p) == copies(all_tiles(s), p) + copies(
                called_tiles(event),
                p,
            ),
{
    let (consumed, f): (Seq<Pai>, Fuuro) = match event {
        Event::Chi { target, pai, consumed, .. } => (
            consumed.tiles(),
            Fuuro::Chi { target, pai, consumed },
        ),
        Event::Pon { target, pai, consumed, .. } => (
            consumed.tiles(),
            Fuuro::Pon { target, pai, consumed },
        ),
        Event::Daiminkan { target, pai, consumed, .. } => (
            consumed.tiles(),
            Fuuro::Daiminkan { target, pai, consumed },
        ),
        Event::Ankan { consumed, .. } => (consumed.tiles(), Fuuro::Ankan { consumed }),
        _ => (Seq::empty(), Fuuro::Ankan { consumed: arbitrary() }),
    };
    lemma_remove_each_copies(s.tehai, consumed);
    let v = after_call(s, consumed, f);
    assert(step(s, event) == Ok::<StateView, StateView>(v));
    assert forall|p: Pai| #[trigger] copies(all_tiles(v), p) == copies(all_tiles(s), p) + copies(
        called_tiles(event),
        p,
    ) by {
        lemma_copies_concat(v.tehai, fuuro_pais(v.fuuros), p);
        lemma_copies_concat(s.tehai, fuuro_pais(s.fuuros), p);
        lemma_fuuro_pais_push(s.fuuros, f, p);
        lemma_copies_concat(called_tiles(event), consumed, p);
        assert(f.pais() =~= called_tiles(event) + consumed);
    }
}

/// The tile that a call takes from another player, if any.
pub open spec fn called_tiles(event: Event) -> Seq<Pai> {
    match event {
        Event::Chi { pai, .. } => seq![pai],
        Event::Pon { pai, .. } => seq![pai],
        Event::Daiminkan { pai, .. } => seq![pai],
        _ => Seq::empty(),
    }
}

/// A kakan by the player, of a tile the hand holds and onto a pon that is
/// there, moves the tile from the hand into the meld: the player's tiles stay
/// the same.
pub proof fn lemma_kakan_keeps_tiles(s: StateView, pai: Pai, consumed: Consumed3)
    requires
        find_pon(s.fuuros, consumed, 0) is Some,
        copies(s.tehai, pai) >= 1,
    ensures
        step(s, Event::Kakan { actor: s.actor, pai, consumed }) matches Ok(v) && forall|p: Pai|
            #[trigger] copies(all_tiles(v), p) == copies(all_tiles(s), p),
{
    lemma_find_pon(s.fuuros, consumed, 0);
    let i = find_pon(s.fuuros, consumed, 0).unwrap();
    lemma_remove_value_copies(s.tehai, pai);
    match s.fuuros[i] {
        Fuuro::Pon { target, pai: pon_pai, consumed: pon_consumed } => {
            let g = Fuuro::Kakan {
                pai,
                previous_pon_target: target,
                previous_pon_pai: pon_pai,
                consumed: pon_consumed,
            };
            let v = StateView {
                actor: s.actor,
                tehai: s.tehai.remove_value(pai),
                fuuros: s.fuuros.update(i, g),
            };
            assert(step(s, Event::Kakan { actor: s.actor, pai, consumed }) == Ok::<
                StateView,
                StateView,
            >(v));
            assert forall|p: Pai| #[trigger] copies(all_tiles(v), p) == copies(all_tiles(s), p) by {
                lemma_copies_concat(v.tehai, fuuro_pais(v.fuuros), p);
                lemma_copies_concat(s.tehai, fuuro_pais(s.fuuros), p);
                lemma_fuuro_pais_update(s.fuuros, i, g, p);
                assert(g.pais() =~= seq![pai] + s.fuuros[i].pais());
                lemma_copies_concat(seq![pai], s.fuuros[i].pais(), p);
                crate::pai::lemma_copies2(pai, pai, p);
                assert(copies(seq![pai], p) == one_if(pai == p)) by {
                    reveal_with_fuel(copies, 2);
                    assert(seq![pai].drop_last() =~= Seq::<Pai>::empty());
                }
            }
        },
        _ => {},
    }
}


/// A draw adds exactly the drawn tile to the player's tiles, and a discard
/// from the hand of a tile it holds takes exactly that tile away.
pub proof fn lemma_draw_and_discard_tiles(s: StateView, pai: Pai)
    ensures
        step(s, Event::Tsumo { actor: s.actor, pai }) matches Ok(v) && forall|p: Pai|
            #[trigger] copies(all_tiles(v), p) == copies(all_tiles(s), p) + one_if(pai == p),
        copies(s.tehai, pai) >= 1 ==> (step(
            s,
            Event::Dahai { actor: s.actor, pai, tsumogiri: false },
        ) matches Ok(w) && forall|p: Pai|
            #[trigger] copies(all_tiles(w), p) == copies(all_tiles(s), p) - one_if(pai == p)),
{
    let v = StateView { actor: s.actor, tehai: s.tehai.push(pai), fuuros: s.fuuros };
    assert forall|p: Pai| #[trigger] copies(all_tiles(v), p) == copies(all_tiles(s), p) + one_if(
        pai == p,
    ) by {
        lemma_copies_concat(v.tehai, fuuro_pais(v.fuuros), p);
        lemma_copies_concat(s.tehai, fuuro_pais(s.fuuros), p);
        assert(v.tehai.drop_last() =~= s.tehai);
    }
    if copies(s.tehai, pai) >= 1 {
        lemma_remove_value_copies(s.tehai, pai);
        let w = StateView { actor: s.actor, tehai: s.tehai.remove_value(pai), fuuros: s.fuuros };
        assert forall|p: Pai| #[trigger] copies(all_tiles(w), p) == copies(all_tiles(s), p)
            - one_if(pai == p) by {
            lemma_copies_concat(w.tehai, fuuro_pais(w.fuuros), p);
            lemma_copies_concat(s.tehai, fuuro_pais(s.fuuros), p);
        }
    }
}

} // verus!
