//! The shanten search over the tiles of a hand.
use vstd::prelude::*;
use crate::pai::Pai;
use crate::shanten_model::{
    tile_counts, unify_count, add_tiles, next_not_zero, eye_candidates, yaochu_kinds, yaochu_pair,
    kokushi_shanten, kinds_held, pairs_held, chiitoi_shanten, tiles_held, pai_at, valid_index,
    lemma_valid_index, lemma_pos_sum_update, lemma_pos_sum_zero, lemma_special_forms_at_least_minus_one,
    lemma_eye_candidates, lemma_next_not_zero, is_meld, is_partial, piece_fits,
    piece_tiles, take_piece, covers_partials, reaches_partials, covers_melds, reaches_melds,
    partial_branch, meld_branch, score, lemma_partial_leaf, lemma_partial_step, lemma_meld_leaf,
    lemma_meld_step, lemma_take_piece, lemma_restore_piece, normal_shanten,
    arrangement, arrangement_score, is_least_score, lemma_least_score_is_normal_shanten,
    lemma_eye_search, lemma_no_eye_search, lemma_eye_candidates_complete, eye_done, hand_counts,
    is_complete, is_tenpai, lemma_unify_count_valid, lemma_normal_laws, lemma_normal_discard_law, ready_after_discard, eye_use, piece_use, uses,
    lemma_uses_nonneg,
};

verus! {

/// How far a tile is from the next one in a block.
#[derive(Debug, Clone, Copy, PartialEq, Eq, Structural)]
pub enum Distance {
    One,
    Two,
    Inf,
}

impl Distance {
    /// The character that stands for the distance.
    pub fn symbol(&self) -> (c: char)
        ensures
            c == match self {
                Distance::Inf => '\u{221e}',
                Distance::One => '1',
                Distance::Two => '2',
            },
    {
        match self {
            Distance::Inf => '\u{221e}',
            Distance::One => '1',
            Distance::Two => '2',
        }
    }
}

/// A tile of a block, how many of it there are, and the distance to the next
/// tile of the block.
#[derive(Debug)]
pub struct BlockElem {
    pub pai: Pai,
    pub num: u32,
    pub distance: Distance,
}

/// Tiles that lie close enough together to be built into melds.
pub type Block = Vec<BlockElem>;

/// The number of counters: one per unified tile code.
pub const PAIS_VEC_LEN: usize = 48;

/// The most tiles a hand may have for the counters and scores of the search
/// to fit in `i32`.
pub const MAX_TILES: i32 = 0x7fff_fff0;

/// The state of a shanten search: how many of each tile are still to be
/// placed, and the size of the hand.
pub struct ShantenHelper {
    pais: [i32; 48],
    num_tehai: i32,
}

impl ShantenHelper {
    /// The counters, one per unified tile code.
    pub closed spec fn counts(&self) -> Seq<int> {
        self.pais@.map_values(|x: i32| x as int)
    }

    /// The number of tiles in the hand.
    pub closed spec fn num_tehai(&self) -> int {
        self.num_tehai as int
    }

    /// The counters lie between zero and the size of the hand, which fits
    /// the search's arithmetic.
    pub closed spec fn bounded(&self) -> bool {
        &&& 0 <= self.num_tehai <= MAX_TILES
        &&& self.counts().len() == 48
        &&& forall|i: int| 0 <= i < 48 ==> 0 <= #[trigger] self.counts()[i] <= self.num_tehai
        &&& tiles_held(self.counts()) <= self.num_tehai
    }

    /// The counters are the array's entries.
    proof fn lemma_counts(&self)
        ensures
            self.counts().len() == 48,
            forall|i: int| 0 <= i < 48 ==> #[trigger] self.counts()[i] == self.pais[i] as int,
    {
    }

    /// Within bounds, every entry lies between zero and the size of the hand.
    proof fn lemma_bounded(&self)
        requires
            self.bounded(),
        ensures
            self.counts().len() == 48,
            forall|i: int| 0 <= i < 48 ==> #[trigger] self.counts()[i] == self.pais[i] as int,
            forall|i: int| 0 <= i < 48 ==> 0 <= #[trigger] self.pais[i] <= self.num_tehai,
            self.num_tehai <= MAX_TILES,
    {
        assert forall|i: int| 0 <= i < 48 implies 0 <= #[trigger] self.pais[i] <= self.num_tehai by {
            assert(self.counts()[i] == self.pais[i]);
        }
    }

    /// Puts the tiles `pais` back.
    fn rollback_pais(&mut self, pais: &[Pai])
        requires
            pais@.len() <= 3,
            forall|i: int| 0 <= i < 48 ==> #[trigger] old(self).pais[i] <= MAX_TILES,
        ensures
            final(self).counts() == add_tiles(old(self).counts(), pais@),
            final(self).num_tehai == old(self).num_tehai,
    {
        let n = pais.len();
        let mut k: usize = 0;
        while k < n
            invariant
                n == pais@.len(),
                n <= 3,
                k <= n,
                self.num_tehai == old(self).num_tehai,
                self.counts() == add_tiles(old(self).counts(), pais@.take(k as int)),
                forall|i: int| 0 <= i < 48 ==> #[trigger] self.pais[i] <= old(self).pais[i] + k,
                forall|i: int| 0 <= i < 48 ==> #[trigger] old(self).pais[i] <= MAX_TILES,
            decreases n - k,
        {
            let p = pais[k];
            let u = p.as_unify_u8() as usize;
            proof {
                assert(pais@.take(k + 1).drop_last() =~= pais@.take(k as int));
                assert(pais@.take(k + 1).last() == p);
            }
            self.pais[u] += 1;
            k += 1;
            proof {
                assert(self.counts() =~= add_tiles(old(self).counts(), pais@.take(k as int)));
            }
        }
        proof {
            assert(pais@.take(k as int) =~= pais@);
        }
    }

    /// The first index from `take_idx` on whose counter is positive, or 48.
    fn next_not_zero(&self, take_idx: usize) -> (r: usize)
        ensures
            r == next_not_zero(self.counts(), take_idx as int),
    {
        proof {
            self.lemma_counts();
        }
        let mut idx = take_idx;
        while idx < PAIS_VEC_LEN
            invariant
                take_idx <= idx,
                next_not_zero(self.counts(), take_idx as int) == next_not_zero(
                    self.counts(),
                    idx as int,
                ),
                self.counts().len() == 48,
                forall|i: int| 0 <= i < 48 ==> #[trigger] self.counts()[i] == self.pais[i] as int,
            decreases 48 - idx,
        {
            if self.pais[idx] > 0 {
                return idx;
            }
            idx += 1;
        }
        PAIS_VEC_LEN
    }

    /// Sets two of `pai` aside as the pair.
    fn take_eye(&mut self, pai: Pai)
        requires
            old(self).bounded(),
            is_partial((pai.unify_code() as int, 2)),
            piece_fits(old(self).counts(), (pai.unify_code() as int, 2)),
        ensures
            final(self).counts() == take_piece(old(self).counts(), (pai.unify_code() as int, 2)),
            final(self).num_tehai == old(self).num_tehai,
    {
        proof {
            self.lemma_bounded();
            assert(piece_use((pai.unify_code() as int, 2), pai.unify_code() as int) <= self.counts()[pai.unify_code() as int]);
        }
        let u = pai.as_unify_u8() as usize;
        self.pais[u] -= 2;
        proof {
            assert(self.counts() =~= take_piece(old(self).counts(), (pai.unify_code() as int, 2)));
        }
    }

    /// The tiles of which at least two are held, in code order.
    fn eyes(pais: &[i32; 48]) -> (r: Vec<Pai>)
        ensures
            r@ == eye_candidates(pais@.map_values(|x: i32| x as int), 48),
    {
        let ghost c = pais@.map_values(|x: i32| x as int);
        let mut eyes: Vec<Pai> = Vec::new();
        let mut idx: usize = 0;
        while idx < 48
            invariant
                idx <= 48,
                c == pais@.map_values(|x: i32| x as int),
                eyes@ == eye_candidates(c, idx as int),
            decreases 48 - idx,
        {
            let num = pais[idx];
            if num >= 2 {
                match Pai::try_from_u8(idx as u8) {
                    Some(pai) => {
                        eyes.push(pai);
                    },
                    None => {},
                }
            }
            idx += 1;
        }
        eyes
    }

    /// The shanten towards thirteen orphans.
    pub fn get_kokushi_shanten(&self) -> (r: i32)
        ensures
            r == kokushi_shanten(self.counts(), self.num_tehai()),
    {
        if self.num_tehai < 13 {
            return 8;
        }
        let mut num_kind: i32 = 0;
        let mut exist_pair = false;
        let mut idx: usize = 0;
        while idx < 48
            invariant
                idx <= 48,
                num_kind == yaochu_kinds(self.counts(), idx as int),
                0 <= num_kind <= idx,
                exist_pair == yaochu_pair(self.counts(), idx as int),
            decreases 48 - idx,
        {
            let num = self.pais[idx];
            if num != 0 {
                match Pai::try_from_u8(idx as u8) {
                    Some(pai) => {
                        let is_yaochu = match pai {
                            Pai::East | Pai::South | Pai::West | Pai::North | Pai::Chun
                            | Pai::Haku | Pai::Hatsu | Pai::Man1 | Pai::Man9 | Pai::Pin1
                            | Pai::Pin9 | Pai::Sou1 | Pai::Sou9 => true,
                            _ => false,
                        };
                        if is_yaochu {
                            if num > 1 {
                                exist_pair = true;
                            }
                            num_kind += 1;
                        }
                    },
                    None => {},
                }
            }
            idx += 1;
        }
        13 - num_kind - if exist_pair {
            1
        } else {
            0
        }
    }

    /// The shanten towards seven pairs.
    pub fn get_chiitoi_shanten(&self) -> (r: i32)
        ensures
            r == chiitoi_shanten(self.counts(), self.num_tehai()),
    {
        let mut shanten = 6i32;
        if self.num_tehai < 13 {
            return shanten;
        }
        let mut num_kind: i32 = 0;
        let mut idx: usize = 0;
        while idx < 48
            invariant
                idx <= 48,
                num_kind == kinds_held(self.counts(), idx as int),
                shanten == 6 - pairs_held(self.counts(), idx as int),
                0 <= num_kind <= idx,
                0 <= pairs_held(self.counts(), idx as int) <= idx,
            decreases 48 - idx,
        {
            let num = self.pais[idx];
            match Pai::try_from_u8(idx as u8) {
                Some(pai) => {
                    if num != 0 {
                        if num >= 2 {
                            shanten -= 1;
                        }
                        num_kind += 1;
                    }
                },
                None => {},
            }
            idx += 1;
        }
        shanten += if 7 - num_kind > 0 {
            7 - num_kind
        } else {
            0
        };
        shanten
    }
    /// Takes a meld of kind `kind` (three of a kind, or three in a row) that
    /// starts at counter `take_idx`, if the counters hold it.
    fn try_take_3(&mut self, take_idx: usize, kind: u8) -> (r: Option<[Pai; 3]>)
        requires
            old(self).bounded(),
            take_idx < 48,
            kind <= 1,
        ensures
            final(self).num_tehai == old(self).num_tehai,
            r is Some <==> is_meld((take_idx as int, kind as int)) && piece_fits(
                old(self).counts(),
                (take_idx as int, kind as int),
            ),
            r matches Some(tiles) ==> tiles@ == piece_tiles((take_idx as int, kind as int))
                && final(self).counts() == take_piece(
                old(self).counts(),
                (take_idx as int, kind as int),
            ),
            r is None ==> final(self).counts() == old(self).counts(),
    {
        proof {
            self.lemma_counts();
            lemma_valid_index(take_idx as int);
        }
        let ghost c = self.counts();
        let ghost p = (take_idx as int, kind as int);
        let num = self.pais[take_idx];
        proof {
            self.lemma_bounded();
            assert(c[take_idx as int] == num);
            if take_idx + 2 < 48 {
                assert(c[take_idx + 1] == self.pais[take_idx + 1]);
                assert(c[take_idx + 2] == self.pais[take_idx + 2]);
            }
        }
        if kind == 0 {
            if num >= 3 {
                match Pai::try_from_u8(take_idx as u8) {
                    Some(pai) => {
                        self.pais[take_idx] -= 3;
                        let meld = [pai, pai, pai];
                        proof {
                            assert(self.counts() =~= take_piece(c, p));
                            assert(meld@ =~= piece_tiles(p));
                        }
                        return Some(meld);
                    },
                    None => {},
                }
            }
            return None;
        }
        if (11 <= take_idx && take_idx < 18) || (21 <= take_idx && take_idx < 28) || (31 <= take_idx
            && take_idx < 38) {
            proof {
                lemma_valid_index(take_idx + 1);
                lemma_valid_index(take_idx + 2);
            }
            if num >= 1 && self.pais[take_idx + 1] >= 1 && self.pais[take_idx + 2] >= 1 {
                let a = Pai::try_from_u8(take_idx as u8);
                let b = Pai::try_from_u8((take_idx + 1) as u8);
                let d = Pai::try_from_u8((take_idx + 2) as u8);
                match (a, b, d) {
                    (Some(a), Some(b), Some(d)) => {
                        self.pais[take_idx] -= 1;
                        self.pais[take_idx + 1] -= 1;
                        self.pais[take_idx + 2] -= 1;
                        let meld = [a, b, d];
                        proof {
                            assert(self.counts() =~= take_piece(c, p));
                            assert(meld@ =~= piece_tiles(p));
                        }
                        return Some(meld);
                    },
                    _ => {},
                }
            }
        }
        None
    }

    /// Takes a partial meld of kind `kind` (a pair, two in a row, or two
    /// with a gap) that starts at counter `take_idx`, if the counters hold
    /// it.
    fn try_take_2(&mut self, take_idx: usize, kind: u8) -> (r: Option<[Pai; 2]>)
        requires
            old(self).bounded(),
            take_idx < 48,
            2 <= kind <= 4,
        ensures
            final(self).num_tehai == old(self).num_tehai,
            r is Some <==> is_partial((take_idx as int, kind as int)) && piece_fits(
                old(self).counts(),
                (take_idx as int, kind as int),
            ),
            r matches Some(tiles) ==> tiles@ == piece_tiles((take_idx as int, kind as int))
                && final(self).counts() == take_piece(
                old(self).counts(),
                (take_idx as int, kind as int),
            ),
            r is None ==> final(self).counts() == old(self).counts(),
    {
        proof {
            self.lemma_counts();
            lemma_valid_index(take_idx as int);
        }
        let ghost c = self.counts();
        let ghost p = (take_idx as int, kind as int);
        let num = self.pais[take_idx];
        proof {
            self.lemma_bounded();
            assert(c[take_idx as int] == num);
            if take_idx + 2 < 48 {
                assert(c[take_idx + 1] == self.pais[take_idx + 1]);
                assert(c[take_idx + 2] == self.pais[take_idx + 2]);
            }
        }
        if kind == 2 {
            if num >= 2 {
                match Pai::try_from_u8(take_idx as u8) {
                    Some(pai) => {
                        self.pais[take_idx] -= 2;
                        let res = [pai, pai];
                        proof {
                            assert(self.counts() =~= take_piece(c, p));
                            assert(res@ =~= piece_tiles(p));
                        }
                        return Some(res);
                    },
                    None => {},
                }
            }
            return None;
        }
        // 1~8s, 1~8p, 1~8m start two in a row; 1~7 start two with a gap
        let gap: usize = if kind == 3 {
            1
        } else {
            2
        };
        let in_suit = if kind == 3 {
            (11 <= take_idx && take_idx < 19) || (21 <= take_idx && take_idx < 29) || (31 <= take_idx
                && take_idx < 39)
        } else {
            (11 <= take_idx && take_idx < 18) || (21 <= take_idx && take_idx < 28) || (31 <= take_idx
                && take_idx < 38)
        };
        if in_suit {
            proof {
                lemma_valid_index(take_idx + gap);
            }
            if num >= 1 && self.pais[take_idx + gap] >= 1 {
                let a = Pai::try_from_u8(take_idx as u8);
                let b = Pai::try_from_u8((take_idx + gap) as u8);
                match (a, b) {
                    (Some(a), Some(b)) => {
                        self.pais[take_idx] -= 1;
                        self.pais[take_idx + gap] -= 1;
                        let res = [a, b];
                        proof {
                            assert(self.counts() =~= take_piece(c, p));
                            assert(res@ =~= piece_tiles(p));
                        }
                        return Some(res);
                    },
                    _ => {},
                }
            }
        }
        None
    }

    /// Sets the partial meld of kind `kind` at counter `idx` aside, if the
    /// counters hold it, searches on from there, and puts it back.
    fn search_with_partial(
        &mut self,
        idx: usize,
        kind: u8,
        shanten: &mut i32,
        exist_eye: i32,
        num_meld: i32,
        num_dazi: i32,
    )
        requires
            old(self).bounded(),
            idx < 48,
            2 <= kind <= 4,
            0 <= exist_eye <= 1,
            0 <= num_meld,
            0 <= num_dazi,
            tiles_held(old(self).counts()) + 3 * num_meld + 2 * num_dazi + 2 * exist_eye
                <= old(self).num_tehai(),
            *old(shanten) <= 8,
        ensures
            final(self).counts() == old(self).counts(),
            final(self).num_tehai() == old(self).num_tehai(),
            final(self).bounded(),
            partial_branch(
                old(self).counts(),
                idx as int,
                kind as int,
                old(self).num_tehai(),
                num_meld as int,
                num_dazi as int,
                exist_eye as int,
                *old(shanten) as int,
                *final(shanten) as int,
            ),
        decreases tiles_held(old(self).counts()), 48 - idx, 0int,
    {
        let ghost c = self.counts();
        let ghost p = (idx as int, kind as int);
        match self.try_take_2(idx, kind) {
            Some(tiles) => {
                proof {
                    lemma_take_piece(c, p);
                }
                self.search_by_take_2(idx, shanten, exist_eye, num_meld, num_dazi + 1);
                proof {
                    self.lemma_bounded();
                    lemma_restore_piece(c, p);
                }
                self.rollback_pais(&tiles);
            },
            None => {},
        }
    }

    /// Tries every way to add partial melds from counter `begin_idx` on to
    /// `num_meld` melds, `num_dazi` partial melds and `exist_eye` pairs, and
    /// lowers `shanten` to the best score among them.
    fn search_by_take_2(
        &mut self,
        begin_idx: usize,
        shanten: &mut i32,
        exist_eye: i32,
        num_meld: i32,
        num_dazi: i32,
    )
        requires
            old(self).bounded(),
            begin_idx <= 48,
            0 <= exist_eye <= 1,
            0 <= num_meld,
            0 <= num_dazi,
            tiles_held(old(self).counts()) + 3 * num_meld + 2 * num_dazi + 2 * exist_eye
                <= old(self).num_tehai(),
            *old(shanten) <= 8,
        ensures
            final(self).counts() == old(self).counts(),
            final(self).num_tehai() == old(self).num_tehai(),
            final(self).bounded(),
            *final(shanten) <= *old(shanten),
            covers_partials(
                *final(shanten) as int,
                old(self).counts(),
                begin_idx as int,
                old(self).num_tehai(),
                num_meld as int,
                num_dazi as int,
                exist_eye as int,
            ),
            *final(shanten) == *old(shanten) || reaches_partials(
                *final(shanten) as int,
                old(self).counts(),
                begin_idx as int,
                old(self).num_tehai(),
                num_meld as int,
                num_dazi as int,
                exist_eye as int,
            ),
        decreases tiles_held(old(self).counts()), 48 - begin_idx, 1int,
    {
        let ghost c = self.counts();
        let ghost t = self.num_tehai();
        proof {
            self.lemma_counts();
            lemma_next_not_zero(c, begin_idx as int);
        }
        let j = self.next_not_zero(begin_idx);
        if j >= PAIS_VEC_LEN {
            let num_fuuros = if self.num_tehai <= 14 {
                (14 - self.num_tehai) / 3
            } else {
                -((self.num_tehai - 14) / 3)
            };
            let mm = num_meld + num_fuuros;
            let dd = if num_dazi < 4 - mm {
                num_dazi
            } else {
                4 - mm
            };
            let cur = 8 - 2 * mm - dd - exist_eye;
            let ghost s0 = *shanten as int;
            if cur < *shanten {
                *shanten = cur;
            }
            proof {
                assert(cur == score(t, num_meld as int, num_dazi as int, exist_eye as int));
                lemma_partial_leaf(
                    c,
                    begin_idx as int,
                    t,
                    num_meld as int,
                    num_dazi as int,
                    exist_eye as int,
                    s0,
                    *shanten as int,
                );
            }
            return;
        }
        let ghost s0 = *shanten as int;
        self.search_with_partial(j, 2, shanten, exist_eye, num_meld, num_dazi);
        let ghost s1 = *shanten as int;
        self.search_with_partial(j, 3, shanten, exist_eye, num_meld, num_dazi);
        let ghost s2 = *shanten as int;
        self.search_with_partial(j, 4, shanten, exist_eye, num_meld, num_dazi);
        let ghost s3 = *shanten as int;
        self.search_by_take_2(j + 1, shanten, exist_eye, num_meld, num_dazi);
        proof {
            lemma_partial_step(
                c,
                begin_idx as int,
                j as int,
                t,
                num_meld as int,
                num_dazi as int,
                exist_eye as int,
                s0,
                s1,
                s2,
                s3,
                *shanten as int,
            );
        }
    }

    /// Sets the meld of kind `kind` at counter `idx` aside, if the counters
    /// hold it, searches on from there, and puts it back.
    fn search_with_meld(&mut self, idx: usize, kind: u8, shanten: &mut i32, exist_eye: i32, num_meld: i32)
        requires
            old(self).bounded(),
            idx < 48,
            kind <= 1,
            0 <= exist_eye <= 1,
            0 <= num_meld,
            tiles_held(old(self).counts()) + 3 * num_meld + 2 * exist_eye <= old(self).num_tehai(),
            *old(shanten) <= 8,
        ensures
            final(self).counts() == old(self).counts(),
            final(self).num_tehai() == old(self).num_tehai(),
            final(self).bounded(),
            meld_branch(
                old(self).counts(),
                idx as int,
                kind as int,
                old(self).num_tehai(),
                num_meld as int,
                exist_eye as int,
                *old(shanten) as int,
                *final(shanten) as int,
            ),
        decreases tiles_held(old(self).counts()), 48 - idx, 0int,
    {
        let ghost c = self.counts();
        let ghost p = (idx as int, kind as int);
        match self.try_take_3(idx, kind) {
            Some(tiles) => {
                proof {
                    lemma_take_piece(c, p);
                }
                self.search_by_take_3(idx, shanten, exist_eye, num_meld + 1);
                proof {
                    self.lemma_bounded();
                    lemma_restore_piece(c, p);
                }
                self.rollback_pais(&tiles);
            },
            None => {},
        }
    }

    /// Tries every way to add melds from counter `begin_idx` on, and then
    /// partial melds, to `num_meld` melds and `exist_eye` pairs, and lowers
    /// `shanten` to the best score among them.
    fn search_by_take_3(&mut self, begin_idx: usize, shanten: &mut i32, exist_eye: i32, num_meld: i32)
        requires
            old(self).bounded(),
            begin_idx <= 48,
            0 <= exist_eye <= 1,
            0 <= num_meld,
            tiles_held(old(self).counts()) + 3 * num_meld + 2 * exist_eye <= old(self).num_tehai(),
            *old(shanten) <= 8,
        ensures
            final(self).counts() == old(self).counts(),
            final(self).num_tehai() == old(self).num_tehai(),
            final(self).bounded(),
            *final(shanten) <= *old(shanten),
            covers_melds(
                *final(shanten) as int,
                old(self).counts(),
                begin_idx as int,
                old(self).num_tehai(),
                num_meld as int,
                exist_eye as int,
            ),
            *final(shanten) == *old(shanten) || reaches_melds(
                *final(shanten) as int,
                old(self).counts(),
                begin_idx as int,
                old(self).num_tehai(),
                num_meld as int,
                exist_eye as int,
            ),
        decreases tiles_held(old(self).counts()), 48 - begin_idx, 1int,
    {
        let ghost c = self.counts();
        let ghost t = self.num_tehai();
        proof {
            self.lemma_counts();
            lemma_next_not_zero(c, begin_idx as int);
        }
        let j = self.next_not_zero(begin_idx);
        let ghost s0 = *shanten as int;
        if j >= PAIS_VEC_LEN {
            self.search_by_take_2(0, shanten, exist_eye, num_meld, 0);
            proof {
                lemma_meld_leaf(
                    c,
                    begin_idx as int,
                    t,
                    num_meld as int,
                    exist_eye as int,
                    s0,
                    *shanten as int,
                );
            }
            return;
        }
        self.search_with_meld(j, 0, shanten, exist_eye, num_meld);
        let ghost s1 = *shanten as int;
        self.search_with_meld(j, 1, shanten, exist_eye, num_meld);
        let ghost s2 = *shanten as int;
        self.search_by_take_3(j + 1, shanten, exist_eye, num_meld);
        proof {
            lemma_meld_step(
                c,
                begin_idx as int,
                j as int,
                t,
                num_meld as int,
                exist_eye as int,
                s0,
                s1,
                s2,
                *shanten as int,
            );
        }
    }

    /// The shanten towards four melds and a pair: the least score of any
    /// arrangement of the hand, at most 8. For a hand of up to fourteen tiles
    /// it lies between -1 and 8; with 3k+2 tiles it is -1 exactly when the
    /// hand is complete, and 0 exactly when it is not but some discard leaves
    /// it ready; with 3k+1 tiles it is at least 0, and 0 exactly when the hand
    /// is ready. The counters are left as they were.
    pub fn get_normal_shanten(&mut self) -> (r: i32)
        requires
            old(self).bounded(),
        ensures
            final(self).counts() == old(self).counts(),
            final(self).num_tehai() == old(self).num_tehai(),
            final(self).bounded(),
            r == normal_shanten(old(self).counts(), old(self).num_tehai()),
            is_least_score(old(self).counts(), old(self).num_tehai(), r as int),
            r <= 8,
            hand_counts(old(self).counts(), old(self).num_tehai()) && old(self).num_tehai() <= 14
                ==> r >= -1,
            hand_counts(old(self).counts(), old(self).num_tehai()) && old(self).num_tehai() <= 14
                && old(self).num_tehai() % 3 == 1 ==> r >= 0,
            hand_counts(old(self).counts(), old(self).num_tehai()) && old(self).num_tehai() <= 14
                && old(self).num_tehai() % 3 == 2 ==> (r == -1 <==> is_complete(
                old(self).counts(),
            )),
            hand_counts(old(self).counts(), old(self).num_tehai()) && old(self).num_tehai() <= 14
                && old(self).num_tehai() % 3 == 1 ==> (r == 0 <==> is_tenpai(old(self).counts())),
            hand_counts(old(self).counts(), old(self).num_tehai()) && old(self).num_tehai() <= 14
                && old(self).num_tehai() % 3 == 2 ==> (r <= 0 <==> ready_after_discard(
                old(self).counts(),
            )),
            hand_counts(old(self).counts(), old(self).num_tehai()) && old(self).num_tehai() <= 14
                && old(self).num_tehai() % 3 == 2 && !is_complete(old(self).counts()) ==> (r == 0
                <==> ready_after_discard(old(self).counts())),
    {
        proof {
            self.lemma_counts();
        }
        let ghost c0 = self.counts();
        let ghost t = self.num_tehai();
        let mut shanten = 8i32;
        let eyes = ShantenHelper::eyes(&self.pais);
        proof {
            assert(self.pais@.map_values(|x: i32| x as int) == c0);
            lemma_eye_candidates(c0, 48);
        }
        let mut k: usize = 0;
        while k < eyes.len()
            invariant
                k <= eyes@.len(),
                eyes@ == eye_candidates(c0, 48),
                c0.len() == 48,
                self.counts() == c0,
                self.num_tehai() == t,
                self.bounded(),
                forall|m: int|
                    0 <= m < eyes@.len() ==> valid_index(
                        #[trigger] eyes@[m].unify_code() as int,
                    ) && c0[eyes@[m].unify_code() as int] >= 2 && eyes@[m] == pai_at(
                        eyes@[m].unify_code() as int,
                    ),
                shanten <= 8,
                forall|v: int, qs: Seq<(int, int)>, ps: Seq<(int, int)>|
                    eye_done(eyes@, k as int, v) && arrangement(c0, Some(v), qs, ps) ==> shanten
                        <= #[trigger] arrangement_score(t, Some(v), qs, ps),
                shanten == 8 || exists|eye: Option<int>, qs: Seq<(int, int)>, ps: Seq<(int, int)>|
                    arrangement(c0, eye, qs, ps) && shanten == #[trigger] arrangement_score(
                        t,
                        eye,
                        qs,
                        ps,
                    ),
            decreases eyes@.len() - k,
        {
            let eye = eyes[k];
            let ghost v = eye.unify_code() as int;
            let ghost p = (v, 2int);
            proof {
                assert(valid_index(v) && c0[v] >= 2);
                assert(is_partial(p));
                lemma_take_piece(c0, p);
            }
            self.take_eye(eye);
            let ghost s_old = shanten as int;
            self.search_by_take_3(0, &mut shanten, 1, 0);
            proof {
                lemma_eye_search(c0, v, t, s_old, shanten as int);
                assert forall|w: int, qs: Seq<(int, int)>, ps: Seq<(int, int)>|
                    eye_done(eyes@, k + 1, w) && arrangement(c0, Some(w), qs, ps) implies shanten
                    <= #[trigger] arrangement_score(t, Some(w), qs, ps) by {
                    if !eye_done(eyes@, k as int, w) {
                        let m = choose|m: int| 0 <= m < k + 1 && #[trigger] eyes@[m].unify_code() == w;
                        assert(m == k);
                    }
                }
                self.lemma_bounded();
                lemma_restore_piece(c0, p);
            }
            let pair = [eye, eye];
            proof {
                assert(pair@ =~= piece_tiles(p));
            }
            self.rollback_pais(&pair);
            k += 1;
        }
        let ghost s_old = shanten as int;
        self.search_by_take_3(0, &mut shanten, 0, 0);
        proof {
            lemma_no_eye_search(c0, t, s_old, shanten as int);
            lemma_eye_candidates_complete(c0, 48);
            assert forall|eye: Option<int>, qs: Seq<(int, int)>, ps: Seq<(int, int)>|
                arrangement(c0, eye, qs, ps) implies shanten <= #[trigger] arrangement_score(
                t,
                eye,
                qs,
                ps,
            ) by {
                if let Some(v) = eye {
                    lemma_uses_nonneg(qs, v);
                    lemma_uses_nonneg(ps, v);
                    assert(eye_use(eye, v) + uses(qs, v)
                        + uses(ps, v) <= c0[v]);
                    assert(eye_done(eyes@, k as int, v));
                }
            }
            assert(is_least_score(c0, t, shanten as int));
            lemma_least_score_is_normal_shanten(c0, t, shanten as int);
            if hand_counts(c0, t) && t <= 14 {
                lemma_normal_laws(c0, t, shanten as int);
                if t % 3 == 2 {
                    lemma_normal_discard_law(c0, t, shanten as int);
                }
            }
        }
        shanten
    }

    /// The shanten of the hand: the least of the thirteen-orphans, seven-pairs
    /// and normal forms. The counters are left as they were.
    pub fn get_shanten(&mut self) -> (r: i32)
        requires
            old(self).bounded(),
        ensures
            final(self).counts() == old(self).counts(),
            final(self).num_tehai() == old(self).num_tehai(),
            final(self).bounded(),
            r == {
                let k = kokushi_shanten(old(self).counts(), old(self).num_tehai());
                let ch = chiitoi_shanten(old(self).counts(), old(self).num_tehai());
                let n = normal_shanten(old(self).counts(), old(self).num_tehai());
                let m = if k < ch {
                    k
                } else {
                    ch
                };
                if m < n {
                    m
                } else {
                    n
                }
            },
            r <= 8,
            hand_counts(old(self).counts(), old(self).num_tehai()) && old(self).num_tehai() <= 14
                ==> r >= -1,
            hand_counts(old(self).counts(), old(self).num_tehai()) && old(self).num_tehai() <= 14
                && old(self).num_tehai() % 3 == 1 ==> r >= 0,
            hand_counts(old(self).counts(), old(self).num_tehai()) && old(self).num_tehai() <= 14
                && old(self).num_tehai() % 3 == 2 && is_complete(old(self).counts()) ==> r == -1,
            hand_counts(old(self).counts(), old(self).num_tehai()) && old(self).num_tehai() <= 14
                && old(self).num_tehai() % 3 == 1 && is_tenpai(old(self).counts()) ==> r == 0,
    {
        proof {
            if self.num_tehai <= 14 {
                self.lemma_counts();
                lemma_special_forms_at_least_minus_one(self.counts(), self.num_tehai as int);
            }
        }
        let kokushi = self.get_kokushi_shanten();
        let chiitoi = self.get_chiitoi_shanten();
        let normal = self.get_normal_shanten();
        let m = if kokushi < chiitoi {
            kokushi
        } else {
            chiitoi
        };
        if m < normal {
            m
        } else {
            normal
        }
    }

    /// Counts the tiles of the hand.
    pub fn new(tehai: &crate::tehai::Tehai) -> (s: Self)
        requires
            tehai.tiles().len() <= MAX_TILES,
        ensures
            s.counts() == tile_counts(tehai.tiles()),
            s.num_tehai() == tehai.tiles().len(),
            s.bounded(),
            hand_counts(s.counts(), s.num_tehai()),
    {
        let view = tehai.view();
        let mut pais: [i32; 48] = [0i32; 48];
        let mut num_pais: i32 = 0;
        let mut k: usize = 0;
        proof {
            lemma_pos_sum_zero(pais@.map_values(|x: i32| x as int), 48);
        }
        while k < view.len()
            invariant
                k <= view@.len(),
                view@ == tehai.tiles(),
                view@.len() <= MAX_TILES,
                num_pais == k,
                forall|i: int| 0 <= i < 48 ==> #[trigger] pais[i] == unify_count(view@.take(k as int), i),
                forall|i: int| 0 <= i < 48 ==> 0 <= #[trigger] pais[i] <= k,
                tiles_held(pais@.map_values(|x: i32| x as int)) == k,
            decreases view@.len() - k,
        {
            let ghost before = pais@.map_values(|x: i32| x as int);
            let pai = view[k];
            let u = pai.as_unify_u8() as usize;
            proof {
                assert(view@.take(k + 1).drop_last() =~= view@.take(k as int));
                assert(view@.take(k + 1).last() == pai);
            }
            num_pais += 1;
            pais[u] += 1;
            k += 1;
            proof {
                lemma_pos_sum_update(before, u as int, before[u as int] + 1, 48);
                assert(pais@.map_values(|x: i32| x as int) =~= before.update(u as int, before[u as int] + 1));
            }
        }
        proof {
            assert(view@.take(k as int) =~= view@);
        }
        let s = ShantenHelper { pais, num_tehai: num_pais };
        proof {
            assert(s.counts() =~= tile_counts(tehai.tiles()));
            assert forall|i: int| 0 <= i < 48 && s.counts()[i] > 0 implies valid_index(i) by {
                lemma_unify_count_valid(tehai.tiles(), i);
            }
        }
        s
    }
}

} // verus!
