//! What the shanten search computes, written over tile counts.
//!
//! A hand is held as 48 counters, one per unified tile code (red fives count
//! as plain fives). The normal form is four melds (three of a kind or three
//! in a row) and a pair, where each call made counts as a meld. An
//! arrangement sets aside a pair, melds and partial melds (a pair, two in a
//! row, two with a gap) out of the counters; its score says how many tiles
//! the hand is from ready with it, and the normal-form shanten is the least
//! score of any arrangement.
use vstd::prelude::*;
use crate::pai::{
    Pai, one_if, lemma_unify_below_48, copies, same_tiles, lemma_copies_found, lemma_copies_nonneg,
    lemma_copies_remove,
};

verus! {

/// A counter index that names a tile.
pub open spec fn valid_index(i: int) -> bool {
    0 <= i < 48 && Pai::from_code(i as u8) is Some
}

/// The tile that a valid counter index names.
pub open spec fn pai_at(i: int) -> Pai {
    Pai::from_code(i as u8).unwrap()
}

/// Characters, circles or bamboos one to seven: the tiles that can start a
/// run of three.
pub open spec fn suit_up_to_seven(i: int) -> bool {
    (11 <= i < 18) || (21 <= i < 28) || (31 <= i < 38)
}

/// Terminals and honours: the tiles of thirteen orphans.
pub open spec fn is_yaochu(p: Pai) -> bool {
    match p {
        Pai::East | Pai::South | Pai::West | Pai::North | Pai::Chun | Pai::Haku | Pai::Hatsu
        | Pai::Man1 | Pai::Man9 | Pai::Pin1 | Pai::Pin9 | Pai::Sou1 | Pai::Sou9 => true,
        _ => false,
    }
}

/// The valid counter indices are exactly the codes of the tiles that are not
/// red fives.
pub proof fn lemma_valid_index(i: int)
    requires
        0 <= i < 48,
    ensures
        valid_index(i) <==> (i == 0 || (11 <= i <= 19) || (21 <= i <= 29) || (31 <= i <= 39) || (
        41 <= i <= 47)),
        valid_index(i) ==> pai_at(i).unify_code() == i,
{
    if valid_index(i) {
        lemma_unify_below_48(i as u8);
    }
}

/// `x` if it is positive, else zero.
pub open spec fn max0(x: int) -> int {
    if x > 0 {
        x
    } else {
        0
    }
}

/// The sum of the positive counters among the first `n`.
pub open spec fn pos_sum(c: Seq<int>, n: int) -> nat
    decreases n,
{
    if n <= 0 {
        0
    } else {
        (pos_sum(c, n - 1) + max0(c[n - 1])) as nat
    }
}

/// The tiles still held: the sum of the positive counters.
pub open spec fn tiles_held(c: Seq<int>) -> nat {
    pos_sum(c, 48)
}

/// Counters that are nowhere above those of `y`.
pub open spec fn counts_le(x: Seq<int>, y: Seq<int>) -> bool {
    forall|i: int| 0 <= i < 48 ==> #[trigger] x[i] <= y[i]
}

/// Lower counters hold fewer tiles.
pub proof fn lemma_pos_sum_mono(x: Seq<int>, y: Seq<int>, n: int)
    requires
        0 <= n <= 48,
        counts_le(x, y),
    ensures
        pos_sum(x, n) <= pos_sum(y, n),
    decreases n,
{
    if n > 0 {
        lemma_pos_sum_mono(x, y, n - 1);
        assert(x[n - 1] <= y[n - 1]);
    }
}

/// Setting one counter changes the tiles held by the change of its
/// positive part.
pub proof fn lemma_pos_sum_update(c: Seq<int>, j: int, v: int, n: int)
    requires
        0 <= j < n <= 48,
        c.len() == 48,
    ensures
        pos_sum(c.update(j, v), n) == pos_sum(c, n) - max0(c[j]) + max0(v),
    decreases n,
{
    if j < n - 1 {
        lemma_pos_sum_update(c, j, v, n - 1);
    } else {
        lemma_pos_sum_same(c, c.update(j, v), n - 1);
    }
}

/// Counters that are nowhere positive hold no tiles.
pub proof fn lemma_pos_sum_zero(c: Seq<int>, n: int)
    requires
        0 <= n <= 48,
        forall|i: int| 0 <= i < n ==> #[trigger] c[i] <= 0,
    ensures
        pos_sum(c, n) == 0,
    decreases n,
{
    if n > 0 {
        lemma_pos_sum_zero(c, n - 1);
    }
}

/// Equal counters hold as many tiles.
pub proof fn lemma_pos_sum_same(x: Seq<int>, y: Seq<int>, n: int)
    requires
        0 <= n <= 48,
        forall|i: int| 0 <= i < n ==> #[trigger] x[i] == y[i],
    ensures
        pos_sum(x, n) == pos_sum(y, n),
    decreases n,
{
    if n > 0 {
        lemma_pos_sum_same(x, y, n - 1);
    }
}

/// The first positive counter from `i` on lies between `i` and 48, and the
/// counters before it are not positive.
pub proof fn lemma_next_not_zero(c: Seq<int>, i: int)
    requires
        0 <= i <= 48,
    ensures
        i <= next_not_zero(c, i) <= 48,
        forall|k: int| i <= k < next_not_zero(c, i) ==> #[trigger] c[k] <= 0,
        next_not_zero(c, i) < 48 ==> c[next_not_zero(c, i)] > 0,
    decreases 48 - i,
{
    if i < 48 {
        lemma_next_not_zero(c, i + 1);
    }
}

/// The number of tiles of `ps` whose unified code is `i`.
pub open spec fn unify_count(ps: Seq<Pai>, i: int) -> int
    decreases ps.len(),
{
    if ps.len() == 0 {
        0
    } else {
        unify_count(ps.drop_last(), i) + one_if(ps.last().unify_code() == i)
    }
}

/// The counters after putting the tiles `ps` back, one at a time.
pub open spec fn add_tiles(c: Seq<int>, ps: Seq<Pai>) -> Seq<int>
    decreases ps.len(),
{
    if ps.len() == 0 {
        c
    } else {
        let d = add_tiles(c, ps.drop_last());
        let u = ps.last().unify_code() as int;
        d.update(u, d[u] + 1)
    }
}

/// Putting tiles back raises each counter by the number of them with its
/// code.
pub proof fn lemma_add_tiles(c: Seq<int>, ps: Seq<Pai>)
    requires
        c.len() == 48,
    ensures
        add_tiles(c, ps).len() == 48,
        forall|i: int|
            0 <= i < 48 ==> #[trigger] add_tiles(c, ps)[i] == c[i] + unify_count(ps, i),
    decreases ps.len(),
{
    if ps.len() > 0 {
        lemma_add_tiles(c, ps.drop_last());
        crate::pai::lemma_unify_lt_48(ps.last());
    }
}

/// The tiles with a given unified code among one, two or three tiles.
pub proof fn lemma_unify_count3(a: Pai, b: Pai, c: Pai, i: int)
    ensures
        unify_count(seq![a], i) == one_if(a.unify_code() == i),
        unify_count(seq![a, b], i) == one_if(a.unify_code() == i) + one_if(b.unify_code() == i),
        unify_count(seq![a, b, c], i) == one_if(a.unify_code() == i) + one_if(b.unify_code() == i)
            + one_if(c.unify_code() == i),
{
    reveal_with_fuel(unify_count, 4);
    assert(seq![a, b, c].drop_last() =~= seq![a, b]);
    assert(seq![a, b].drop_last() =~= seq![a]);
    assert(seq![a].drop_last() =~= Seq::<Pai>::empty());
}

/// `x / 3` rounded towards zero.
pub open spec fn div3_toward_zero(x: int) -> int {
    if x >= 0 {
        x / 3
    } else {
        -((-x) / 3)
    }
}

/// The first index from `i` on whose counter is positive, or 48.
pub open spec fn next_not_zero(c: Seq<int>, i: int) -> int
    decreases 48 - i,
{
    if i >= 48 {
        48
    } else if c[i] > 0 {
        i
    } else {
        next_not_zero(c, i + 1)
    }
}

/// The tiles of which at least two are held, in code order.
pub open spec fn eye_candidates(c: Seq<int>, n: int) -> Seq<Pai>
    decreases n,
{
    if n <= 0 {
        Seq::empty()
    } else if c[n - 1] >= 2 && valid_index(n - 1) {
        eye_candidates(c, n - 1).push(pai_at(n - 1))
    } else {
        eye_candidates(c, n - 1)
    }
}

/// Each eye candidate is a tile that is held at least twice.
pub proof fn lemma_eye_candidates(c: Seq<int>, n: int)
    requires
        0 <= n <= 48,
    ensures
        forall|m: int|
            0 <= m < eye_candidates(c, n).len() ==> valid_index(
                #[trigger] eye_candidates(c, n)[m].unify_code() as int,
            ) && c[eye_candidates(c, n)[m].unify_code() as int] >= 2 && eye_candidates(c, n)[m]
                == pai_at(eye_candidates(c, n)[m].unify_code() as int),
    decreases n,
{
    if n > 0 {
        lemma_eye_candidates(c, n - 1);
        let prev = eye_candidates(c, n - 1);
        let cur = eye_candidates(c, n);
        if c[n - 1] >= 2 && valid_index(n - 1) {
            lemma_valid_index(n - 1);
            assert forall|m: int| 0 <= m < cur.len() implies valid_index(
                #[trigger] cur[m].unify_code() as int,
            ) && c[cur[m].unify_code() as int] >= 2 && cur[m] == pai_at(
                cur[m].unify_code() as int,
            ) by {
                if m < prev.len() {
                    assert(cur[m] == prev[m]);
                } else {
                    assert(cur[m] == pai_at(n - 1));
                }
            }
        }
    }
}

/// The number of kinds of terminals and honours held among the first `n`
/// counters.
pub open spec fn yaochu_kinds(c: Seq<int>, n: int) -> int
    decreases n,
{
    if n <= 0 {
        0
    } else {
        yaochu_kinds(c, n - 1) + one_if(
            c[n - 1] != 0 && valid_index(n - 1) && is_yaochu(pai_at(n - 1)),
        )
    }
}

/// Whether a terminal or honour is held twice among the first `n` counters.
pub open spec fn yaochu_pair(c: Seq<int>, n: int) -> bool
    decreases n,
{
    if n <= 0 {
        false
    } else {
        yaochu_pair(c, n - 1) || (c[n - 1] > 1 && valid_index(n - 1) && is_yaochu(
            pai_at(n - 1),
        ))
    }
}

/// The shanten towards thirteen orphans.
pub open spec fn kokushi_shanten(c: Seq<int>, num_tehai: int) -> int {
    if num_tehai < 13 {
        8
    } else {
        13 - yaochu_kinds(c, 48) - one_if(yaochu_pair(c, 48))
    }
}

/// The number of kinds held among the first `n` counters.
pub open spec fn kinds_held(c: Seq<int>, n: int) -> int
    decreases n,
{
    if n <= 0 {
        0
    } else {
        kinds_held(c, n - 1) + one_if(c[n - 1] != 0 && valid_index(n - 1))
    }
}

/// The number of kinds held at least twice among the first `n` counters.
pub open spec fn pairs_held(c: Seq<int>, n: int) -> int
    decreases n,
{
    if n <= 0 {
        0
    } else {
        pairs_held(c, n - 1) + one_if(c[n - 1] >= 2 && valid_index(n - 1))
    }
}

/// The shanten towards seven pairs.
pub open spec fn chiitoi_shanten(c: Seq<int>, num_tehai: int) -> int {
    if num_tehai < 13 {
        6
    } else {
        let kinds = kinds_held(c, 48);
        6 - pairs_held(c, 48) + if 7 - kinds > 0 {
            7 - kinds
        } else {
            0
        }
    }
}

/// The number of tiles of `s` whose unified code is `i`.
pub open spec fn tile_counts(s: Seq<Pai>) -> Seq<int> {
    Seq::new(48, |i: int| unify_count(s, i))
}

/// The shanten of a hand: the least of the three forms.
pub open spec fn shanten_of(s: Seq<Pai>) -> int {
    let c = tile_counts(s);
    let t = s.len() as int;
    let k = kokushi_shanten(c, t);
    let ch = chiitoi_shanten(c, t);
    let n = normal_shanten(c, t);
    let m = if k < ch {
        k
    } else {
        ch
    };
    if m < n {
        m
    } else {
        n
    }
}


/// Each kind of terminal or honour held takes a tile, and a pair among them a
/// second one.
pub proof fn lemma_yaochu_tiles(c: Seq<int>, n: int)
    requires
        0 <= n <= 48,
        forall|i: int| 0 <= i < n ==> #[trigger] c[i] >= 0,
    ensures
        yaochu_kinds(c, n) + one_if(yaochu_pair(c, n)) <= pos_sum(c, n),
        yaochu_kinds(c, n) >= 0,
    decreases n,
{
    if n > 0 {
        lemma_yaochu_tiles(c, n - 1);
        assert(c[n - 1] >= 0);
    }
}

/// Each kind held takes a tile, and each pair a second one.
pub proof fn lemma_kind_tiles(c: Seq<int>, n: int)
    requires
        0 <= n <= 48,
        forall|i: int| 0 <= i < n ==> #[trigger] c[i] >= 0,
    ensures
        kinds_held(c, n) + pairs_held(c, n) <= pos_sum(c, n),
        0 <= pairs_held(c, n) <= kinds_held(c, n),
    decreases n,
{
    if n > 0 {
        lemma_kind_tiles(c, n - 1);
        assert(c[n - 1] >= 0);
    }
}

/// In a hand of at most fourteen tiles, thirteen orphans and seven pairs are
/// at least -1 away, and at least 0 away with 3k+1 tiles.
pub proof fn lemma_special_forms_at_least_minus_one(c: Seq<int>, num_tehai: int)
    requires
        c.len() == 48,
        num_tehai <= 14,
        tiles_held(c) <= num_tehai,
        forall|i: int| 0 <= i < 48 ==> #[trigger] c[i] >= 0,
    ensures
        kokushi_shanten(c, num_tehai) >= -1,
        chiitoi_shanten(c, num_tehai) >= -1,
        num_tehai % 3 == 1 ==> kokushi_shanten(c, num_tehai) >= 0,
        num_tehai % 3 == 1 ==> chiitoi_shanten(c, num_tehai) >= 0,
{
    lemma_yaochu_tiles(c, 48);
    lemma_kind_tiles(c, 48);
}

/// Tiles with the same unified codes, position by position, give the same
/// counters: red fives count as plain fives.
pub proof fn lemma_same_codes_same_counts(s: Seq<Pai>, t: Seq<Pai>, i: int)
    requires
        s.len() == t.len(),
        forall|k: int| 0 <= k < s.len() ==> #[trigger] s[k].unify_code() == t[k].unify_code(),
    ensures
        unify_count(s, i) == unify_count(t, i),
    decreases s.len(),
{
    if s.len() > 0 {
        lemma_same_codes_same_counts(s.drop_last(), t.drop_last(), i);
        assert(s.last().unify_code() == t.last().unify_code());
    }
}

/// A hand holds as many tiles as its counters add up to.
pub proof fn lemma_counts_add_up(s: Seq<Pai>, n: int)
    requires
        0 <= n <= 48,
    ensures
        count_prefix(s, n) >= 0,
        n == 48 ==> count_prefix(s, n) == s.len(),
    decreases s.len(), n,
{
    if n == 48 {
        if s.len() > 0 {
            lemma_counts_add_up(s.drop_last(), 48);
            lemma_count_prefix_push(s.drop_last(), s.last(), 48);
            crate::pai::lemma_unify_lt_48(s.last());
            assert(s.drop_last().push(s.last()) =~= s);
        } else {
            lemma_count_prefix_empty(s, 48);
        }
    } else if n > 0 {
        lemma_counts_add_up(s, n - 1);
        lemma_unify_count_nonneg(s, n - 1);
    }
}

/// The tiles of `s` whose unified code is below `n`.
pub open spec fn count_prefix(s: Seq<Pai>, n: int) -> int
    decreases n,
{
    if n <= 0 {
        0
    } else {
        count_prefix(s, n - 1) + unify_count(s, n - 1)
    }
}

/// No code is held a negative number of times.
proof fn lemma_unify_count_nonneg(s: Seq<Pai>, i: int)
    ensures
        unify_count(s, i) >= 0,
    decreases s.len(),
{
    if s.len() > 0 {
        lemma_unify_count_nonneg(s.drop_last(), i);
    }
}

/// An empty hand has no tiles below any code.
proof fn lemma_count_prefix_empty(s: Seq<Pai>, n: int)
    requires
        s.len() == 0,
        0 <= n,
    ensures
        count_prefix(s, n) == 0,
    decreases n,
{
    if n > 0 {
        lemma_count_prefix_empty(s, n - 1);
    }
}

/// Adding a tile adds one below every code above its own.
proof fn lemma_count_prefix_push(s: Seq<Pai>, p: Pai, n: int)
    requires
        0 <= n <= 48,
    ensures
        count_prefix(s.push(p), n) == count_prefix(s, n) + one_if(p.unify_code() < n),
    decreases n,
{
    if n > 0 {
        lemma_count_prefix_push(s, p, n - 1);
        assert(s.push(p).drop_last() =~= s);
    }
}

/// The shanten of a hand depends only on how many tiles of each unified
/// code it holds: not on their order, and not on which fives are red.
pub proof fn lemma_shanten_by_counts(s: Seq<Pai>, t: Seq<Pai>)
    requires
        forall|i: int| 0 <= i < 48 ==> #[trigger] unify_count(s, i) == unify_count(t, i),
    ensures
        shanten_of(s) == shanten_of(t),
{
    lemma_counts_add_up(s, 48);
    lemma_counts_add_up(t, 48);
    lemma_count_prefix_same(s, t, 48);
    assert(tile_counts(s) =~= tile_counts(t));
}

/// Equal counters give equal totals below every code.
proof fn lemma_count_prefix_same(s: Seq<Pai>, t: Seq<Pai>, n: int)
    requires
        0 <= n <= 48,
        forall|i: int| 0 <= i < 48 ==> #[trigger] unify_count(s, i) == unify_count(t, i),
    ensures
        count_prefix(s, n) == count_prefix(t, n),
    decreases n,
{
    if n > 0 {
        lemma_count_prefix_same(s, t, n - 1);
        assert(unify_count(s, n - 1) == unify_count(t, n - 1));
    }
}

/// Red fives count as plain fives: a hand and the same hand with any red
/// five swapped for a plain one (or back) have the same shanten.
pub proof fn lemma_red_fives_do_not_matter(s: Seq<Pai>, t: Seq<Pai>)
    requires
        s.len() == t.len(),
        forall|k: int| 0 <= k < s.len() ==> #[trigger] s[k].unify_code() == t[k].unify_code(),
    ensures
        shanten_of(s) == shanten_of(t),
{
    assert forall|i: int| 0 <= i < 48 implies #[trigger] unify_count(s, i) == unify_count(t, i) by {
        lemma_same_codes_same_counts(s, t, i);
    }
    lemma_shanten_by_counts(s, t);
}


/// Removing the tile at `k` lowers its copies and its code's counter by one.
proof fn lemma_remove_counts(t: Seq<Pai>, k: int, p: Pai, i: int)
    requires
        0 <= k < t.len(),
    ensures
        copies(t.remove(k), p) == copies(t, p) - one_if(t[k] == p),
        unify_count(t.remove(k), i) == unify_count(t, i) - one_if(t[k].unify_code() == i),
    decreases t.len(),
{
    lemma_copies_remove(t, k, p);
    if k == t.len() - 1 {
        assert(t.remove(k) =~= t.drop_last());
    } else {
        lemma_remove_counts(t.drop_last(), k, p, i);
        assert(t.remove(k) =~= t.drop_last().remove(k).push(t.last()));
        assert(t.remove(k).drop_last() =~= t.drop_last().remove(k));
    }
}

/// Two hands that hold the same tiles, each as many times, have the same
/// counters.
pub proof fn lemma_same_tiles_same_counts(s: Seq<Pai>, t: Seq<Pai>)
    requires
        same_tiles(s, t),
    ensures
        forall|i: int| #[trigger] unify_count(s, i) == unify_count(t, i),
    decreases s.len(),
{
    if s.len() == 0 {
        if t.len() > 0 {
            lemma_copies_nonneg(t.drop_last(), t.last());
            assert(copies(t, t.last()) >= 1);
            assert(copies(s, t.last()) == 0);
        }
    } else {
        let x = s.last();
        lemma_copies_nonneg(s.drop_last(), x);
        assert(copies(s, x) >= 1);
        assert(copies(t, x) >= 1);
        let k = lemma_copies_found(t, x);
        let t2 = t.remove(k);
        assert forall|p: Pai| #[trigger] copies(s.drop_last(), p) == copies(t2, p) by {
            lemma_remove_counts(t, k, p, 0);
            assert(copies(s, p) == copies(t, p));
        }
        lemma_same_tiles_same_counts(s.drop_last(), t2);
        assert forall|i: int| #[trigger] unify_count(s, i) == unify_count(t, i) by {
            lemma_remove_counts(t, k, x, i);
            assert(unify_count(s.drop_last(), i) == unify_count(t2, i));
        }
    }
}

/// The order of the tiles in a hand does not change its shanten.
pub proof fn lemma_order_does_not_matter(s: Seq<Pai>, t: Seq<Pai>)
    requires
        same_tiles(s, t),
    ensures
        shanten_of(s) == shanten_of(t),
{
    lemma_same_tiles_same_counts(s, t);
    lemma_shanten_by_counts(s, t);
}


/// Forty-eight counters at zero.
pub open spec fn zeros() -> Seq<int> {
    Seq::new(48, |i: int| 0int)
}

/// Counters at zero or above that are nowhere above `y` and hold as many
/// tiles as `y` are `y`.
pub proof fn lemma_le_same_sum(x: Seq<int>, y: Seq<int>, n: int)
    requires
        0 <= n <= 48,
        forall|i: int| 0 <= i < n ==> 0 <= #[trigger] x[i] <= y[i],
        pos_sum(x, n) == pos_sum(y, n),
    ensures
        forall|i: int| 0 <= i < n ==> #[trigger] x[i] == y[i],
    decreases n,
{
    if n > 0 {
        lemma_pos_sum_mono_prefix(x, y, n - 1);
        assert(x[n - 1] <= y[n - 1]);
        lemma_le_same_sum(x, y, n - 1);
    }
}

/// `pos_sum` over a prefix is monotone in the counters.
pub proof fn lemma_pos_sum_mono_prefix(x: Seq<int>, y: Seq<int>, n: int)
    requires
        0 <= n <= 48,
        forall|i: int| 0 <= i < n ==> #[trigger] x[i] <= y[i],
    ensures
        pos_sum(x, n) <= pos_sum(y, n),
    decreases n,
{
    if n > 0 {
        lemma_pos_sum_mono_prefix(x, y, n - 1);
        assert(x[n - 1] <= y[n - 1]);
    }
}

/// Characters, circles or bamboos one to eight: the tiles that can start two
/// in a row.
pub open spec fn suit_up_to_eight(i: int) -> bool {
    (11 <= i < 19) || (21 <= i < 29) || (31 <= i < 39)
}

/// The unified code of a tile is a counter index that names a tile.
pub proof fn lemma_unify_code_valid(p: Pai)
    ensures
        valid_index(p.unify_code() as int),
{
    reveal(Pai::code);
}

/// A meld, by the counter where it starts: three of a kind (kind 0) or three
/// in a row from a tile of one to seven (kind 1).
pub open spec fn is_meld(p: (int, int)) -> bool {
    (p.1 == 0 && valid_index(p.0)) || (p.1 == 1 && suit_up_to_seven(p.0))
}

/// A partial meld, by the counter where it starts: a pair (kind 2), two in a
/// row from a tile of one to eight (kind 3), or two with a gap from a tile of
/// one to seven (kind 4).
pub open spec fn is_partial(p: (int, int)) -> bool {
    ||| (p.1 == 2 && valid_index(p.0))
    ||| (p.1 == 3 && suit_up_to_eight(p.0))
    ||| (p.1 == 4 && suit_up_to_seven(p.0))
}

/// How many tiles of counter `i` the piece `p` takes.
pub open spec fn piece_use(p: (int, int), i: int) -> int {
    let j = p.0;
    if p.1 == 0 {
        if i == j { 3 } else { 0 }
    } else if p.1 == 1 {
        if j <= i <= j + 2 { 1 } else { 0 }
    } else if p.1 == 2 {
        if i == j { 2 } else { 0 }
    } else if p.1 == 3 {
        if j <= i <= j + 1 { 1 } else { 0 }
    } else {
        if i == j || i == j + 2 { 1 } else { 0 }
    }
}

/// How many tiles of counter `i` the pieces `ps` take together.
pub open spec fn uses(ps: Seq<(int, int)>, i: int) -> int
    decreases ps.len(),
{
    if ps.len() == 0 {
        0
    } else {
        uses(ps.drop_last(), i) + piece_use(ps.last(), i)
    }
}

/// How many tiles of counter `i` the pair `eye` takes, if there is one.
pub open spec fn eye_use(eye: Option<int>, i: int) -> int {
    match eye {
        Some(e) => if i == e { 2 } else { 0 },
        None => 0,
    }
}

/// The counters `c` without the tiles of the piece `p`.
pub open spec fn take_piece(c: Seq<int>, p: (int, int)) -> Seq<int> {
    Seq::new(48, |i: int| c[i] - piece_use(p, i))
}

/// The tiles of the piece `p`, in code order.
pub open spec fn piece_tiles(p: (int, int)) -> Seq<Pai> {
    let j = p.0;
    if p.1 == 0 {
        seq![pai_at(j), pai_at(j), pai_at(j)]
    } else if p.1 == 1 {
        seq![pai_at(j), pai_at(j + 1), pai_at(j + 2)]
    } else if p.1 == 2 {
        seq![pai_at(j), pai_at(j)]
    } else if p.1 == 3 {
        seq![pai_at(j), pai_at(j + 1)]
    } else {
        seq![pai_at(j), pai_at(j + 2)]
    }
}

/// A way to set aside, out of the counters `c`, the pair `eye` (if any), the
/// melds `qs` and the partial melds `ps`; what is left are single tiles.
pub open spec fn arrangement(
    c: Seq<int>,
    eye: Option<int>,
    qs: Seq<(int, int)>,
    ps: Seq<(int, int)>,
) -> bool {
    &&& (eye matches Some(e) ==> valid_index(e))
    &&& forall|k: int| 0 <= k < qs.len() ==> is_meld(#[trigger] qs[k])
    &&& forall|k: int| 0 <= k < ps.len() ==> is_partial(#[trigger] ps[k])
    &&& forall|i: int|
        0 <= i < 48 ==> eye_use(eye, i) + uses(qs, i) + uses(ps, i) <= #[trigger] c[i]
}

/// The calls made by a hand of `t` tiles: each took three tiles out of
/// fourteen.
pub open spec fn calls_for(t: int) -> int {
    div3_toward_zero(14 - t)
}

/// How far a hand of `t` tiles is from ready with `m` melds, `d` partial
/// melds and `e` pairs: each call counts as a meld, and partial melds count
/// only up to the melds still missing.
pub open spec fn score(t: int, m: int, d: int, e: int) -> int {
    let mm = m + calls_for(t);
    let dd = if d < 4 - mm {
        d
    } else {
        4 - mm
    };
    8 - 2 * mm - dd - e
}

/// The score of an arrangement.
pub open spec fn arrangement_score(
    t: int,
    eye: Option<int>,
    qs: Seq<(int, int)>,
    ps: Seq<(int, int)>,
) -> int {
    score(t, qs.len() as int, ps.len() as int, one_if(eye is Some))
}

/// `r` is the normal-form shanten of the counters `c` of a hand of `t`
/// tiles: it is at most 8, no arrangement scores below it, and it is 8 or
/// the score of an arrangement.
pub open spec fn is_least_score(c: Seq<int>, t: int, r: int) -> bool {
    &&& r <= 8
    &&& forall|eye: Option<int>, qs: Seq<(int, int)>, ps: Seq<(int, int)>|
        arrangement(c, eye, qs, ps) ==> r <= #[trigger] arrangement_score(t, eye, qs, ps)
    &&& (r == 8 || exists|eye: Option<int>, qs: Seq<(int, int)>, ps: Seq<(int, int)>|
        arrangement(c, eye, qs, ps) && r == #[trigger] arrangement_score(t, eye, qs, ps))
}

/// The normal-form shanten of the counters `c` of a hand of `t` tiles: the
/// least score of any arrangement, and at most 8.
pub open spec fn normal_shanten(c: Seq<int>, t: int) -> int {
    choose|r: int| is_least_score(c, t, r)
}

/// There is only one least score.
pub proof fn lemma_least_score_unique(c: Seq<int>, t: int, r1: int, r2: int)
    requires
        is_least_score(c, t, r1),
        is_least_score(c, t, r2),
    ensures
        r1 == r2,
{
    if r1 != 8 {
        let (e, q, p) = choose|eye: Option<int>, qs: Seq<(int, int)>, ps: Seq<(int, int)>|
            arrangement(c, eye, qs, ps) && r1 == #[trigger] arrangement_score(t, eye, qs, ps);
        assert(r2 <= arrangement_score(t, e, q, p));
    }
    if r2 != 8 {
        let (e, q, p) = choose|eye: Option<int>, qs: Seq<(int, int)>, ps: Seq<(int, int)>|
            arrangement(c, eye, qs, ps) && r2 == #[trigger] arrangement_score(t, eye, qs, ps);
        assert(r1 <= arrangement_score(t, e, q, p));
    }
}

/// A least score is the normal-form shanten.
pub proof fn lemma_least_score_is_normal_shanten(c: Seq<int>, t: int, r: int)
    requires
        is_least_score(c, t, r),
    ensures
        normal_shanten(c, t) == r,
{
    lemma_least_score_unique(c, t, normal_shanten(c, t), r);
}

/// The pair `eye` and the melds `qs` are exactly the counters `c`.
pub open spec fn complete_with(c: Seq<int>, eye: int, qs: Seq<(int, int)>) -> bool {
    &&& valid_index(eye)
    &&& forall|k: int| 0 <= k < qs.len() ==> is_meld(#[trigger] qs[k])
    &&& forall|i: int| 0 <= i < 48 ==> eye_use(Some(eye), i) + uses(qs, i) == #[trigger] c[i]
}

/// A complete hand: a pair and melds, with nothing left over.
pub open spec fn is_complete(c: Seq<int>) -> bool {
    exists|eye: int, qs: Seq<(int, int)>| #[trigger] complete_with(c, eye, qs)
}

/// A hand with a tile whose discard leaves it ready.
pub open spec fn ready_after_discard(c: Seq<int>) -> bool {
    exists|x: int| 0 <= x < 48 && c[x] >= 1 && #[trigger] is_tenpai(c.update(x, c[x] - 1))
}

/// A ready hand: one more tile makes it complete.
pub open spec fn is_tenpai(c: Seq<int>) -> bool {
    exists|x: int| valid_index(x) && is_complete(#[trigger] c.update(x, c[x] + 1))
}

/// Counters of a hand of `t` tiles: 48 of them, none negative, only tiles
/// counted, `t` in all.
pub open spec fn hand_counts(c: Seq<int>, t: int) -> bool {
    &&& c.len() == 48
    &&& forall|i: int| 0 <= i < 48 ==> 0 <= #[trigger] c[i]
    &&& forall|i: int| 0 <= i < 48 && c[i] > 0 ==> valid_index(i)
    &&& tiles_held(c) == t
}


/// The number of tiles in the piece `p`.
pub open spec fn piece_size(p: (int, int)) -> int {
    if p.1 <= 1 {
        3
    } else {
        2
    }
}

/// The counters `c` hold the tiles of the piece `p`.
pub open spec fn piece_fits(c: Seq<int>, p: (int, int)) -> bool {
    forall|i: int| 0 <= i < 48 ==> piece_use(p, i) <= #[trigger] c[i]
}

/// Partial melds that all start at counter `b` or later.
pub open spec fn partials_from(ps: Seq<(int, int)>, b: int) -> bool {
    forall|k: int| 0 <= k < ps.len() ==> is_partial(#[trigger] ps[k]) && ps[k].0 >= b
}

/// Melds that all start at counter `b` or later.
pub open spec fn melds_from(qs: Seq<(int, int)>, b: int) -> bool {
    forall|k: int| 0 <= k < qs.len() ==> is_meld(#[trigger] qs[k]) && qs[k].0 >= b
}

/// The counters `c` hold the tiles of the melds `qs` and the partial melds
/// `ps` together.
pub open spec fn fits(c: Seq<int>, qs: Seq<(int, int)>, ps: Seq<(int, int)>) -> bool {
    forall|i: int| 0 <= i < 48 ==> uses(qs, i) + uses(ps, i) <= #[trigger] c[i]
}

/// No way to add partial melds from counter `b` on, out of the counters
/// `c`, to `m` melds, `d` partial melds and `e` pairs scores below `s`.
pub open spec fn covers_partials(
    s: int,
    c: Seq<int>,
    b: int,
    t: int,
    m: int,
    d: int,
    e: int,
) -> bool {
    forall|ps: Seq<(int, int)>|
        partials_from(ps, b) && #[trigger] fits(c, Seq::empty(), ps) ==> s <= score(
            t,
            m,
            d + ps.len(),
            e,
        )
}

/// Some way to add partial melds from counter `b` on, out of the counters
/// `c`, to `m` melds, `d` partial melds and `e` pairs scores `s`.
pub open spec fn reaches_partials(
    s: int,
    c: Seq<int>,
    b: int,
    t: int,
    m: int,
    d: int,
    e: int,
) -> bool {
    exists|ps: Seq<(int, int)>|
        partials_from(ps, b) && #[trigger] fits(c, Seq::empty(), ps) && s == score(
            t,
            m,
            d + ps.len(),
            e,
        )
}

/// No way to add melds from counter `b` on and then partial melds, out of
/// the counters `c`, to `m` melds and `e` pairs scores below `s`.
pub open spec fn covers_melds(s: int, c: Seq<int>, b: int, t: int, m: int, e: int) -> bool {
    forall|qs: Seq<(int, int)>, ps: Seq<(int, int)>|
        melds_from(qs, b) && partials_from(ps, 0) && #[trigger] fits(c, qs, ps) ==> s <= score(
            t,
            m + qs.len(),
            ps.len() as int,
            e,
        )
}

/// Some way to add melds from counter `b` on and then partial melds, out of
/// the counters `c`, to `m` melds and `e` pairs scores `s`.
pub open spec fn reaches_melds(s: int, c: Seq<int>, b: int, t: int, m: int, e: int) -> bool {
    exists|qs: Seq<(int, int)>, ps: Seq<(int, int)>|
        melds_from(qs, b) && partials_from(ps, 0) && #[trigger] fits(c, qs, ps) && s == score(
            t,
            m + qs.len(),
            ps.len() as int,
            e,
        )
}

/// What the search with a partial meld of kind `k` at counter `j` does: if
/// that piece fits, the best score goes from `before` down to `after`, over
/// all ways to go on from there; if not, it stays.
pub open spec fn partial_branch(
    c: Seq<int>,
    j: int,
    k: int,
    t: int,
    m: int,
    d: int,
    e: int,
    before: int,
    after: int,
) -> bool {
    let p = (j, k);
    if is_partial(p) && piece_fits(c, p) {
        &&& after <= before
        &&& covers_partials(after, take_piece(c, p), j, t, m, d + 1, e)
        &&& (after == before || reaches_partials(after, take_piece(c, p), j, t, m, d + 1, e))
    } else {
        after == before
    }
}

/// What the search with a meld of kind `k` at counter `j` does: if that
/// piece fits, the best score goes from `before` down to `after`, over all
/// ways to go on from there; if not, it stays.
pub open spec fn meld_branch(
    c: Seq<int>,
    j: int,
    k: int,
    t: int,
    m: int,
    e: int,
    before: int,
    after: int,
) -> bool {
    let p = (j, k);
    if is_meld(p) && piece_fits(c, p) {
        &&& after <= before
        &&& covers_melds(after, take_piece(c, p), j, t, m + 1, e)
        &&& (after == before || reaches_melds(after, take_piece(c, p), j, t, m + 1, e))
    } else {
        after == before
    }
}

/// No piece takes a negative number of tiles.
pub proof fn lemma_uses_nonneg(ps: Seq<(int, int)>, i: int)
    ensures
        uses(ps, i) >= 0,
    decreases ps.len(),
{
    if ps.len() > 0 {
        lemma_uses_nonneg(ps.drop_last(), i);
    }
}

/// Adding a piece adds the tiles it takes.
pub proof fn lemma_uses_push(ps: Seq<(int, int)>, p: (int, int), i: int)
    ensures
        uses(ps.push(p), i) == uses(ps, i) + piece_use(p, i),
{
    assert(ps.push(p).drop_last() =~= ps);
}

/// Removing a piece removes the tiles it takes.
pub proof fn lemma_uses_remove(ps: Seq<(int, int)>, k: int, i: int)
    requires
        0 <= k < ps.len(),
    ensures
        uses(ps, i) == uses(ps.remove(k), i) + piece_use(ps[k], i),
    decreases ps.len(),
{
    if k == ps.len() - 1 {
        assert(ps.remove(k) =~= ps.drop_last());
    } else {
        lemma_uses_remove(ps.drop_last(), k, i);
        assert(ps.remove(k) =~= ps.drop_last().remove(k).push(ps.last()));
        lemma_uses_push(ps.drop_last().remove(k), ps.last(), i);
    }
}

/// A piece takes at least one tile of the counter where it starts.
pub proof fn lemma_piece_start(ps: Seq<(int, int)>, k: int)
    requires
        0 <= k < ps.len(),
        0 <= ps[k].1 <= 4,
    ensures
        uses(ps, ps[k].0) >= 1,
{
    lemma_uses_remove(ps, k, ps[k].0);
    lemma_uses_nonneg(ps.remove(k), ps[k].0);
}

/// The pieces that remain after one is removed, and where they start.
pub proof fn lemma_remove_keeps(ps: Seq<(int, int)>, k: int)
    requires
        0 <= k < ps.len(),
    ensures
        ps.remove(k).len() == ps.len() - 1,
        forall|kk: int|
            0 <= kk < ps.remove(k).len() ==> (#[trigger] ps.remove(k)[kk] == ps[kk] || ps.remove(
                k,
            )[kk] == ps[kk + 1]),
{
    assert forall|kk: int| 0 <= kk < ps.remove(k).len() implies (#[trigger] ps.remove(k)[kk]
        == ps[kk] || ps.remove(k)[kk] == ps[kk + 1]) by {
        if kk < k {
            assert(ps.remove(k)[kk] == ps[kk]);
        } else {
            assert(ps.remove(k)[kk] == ps[kk + 1]);
        }
    }
}

/// Adding a piece at counter `j`, out of counters that hold it, to pieces
/// that fit what is left gives pieces that fit the counters.
pub proof fn lemma_push_fits(
    c: Seq<int>,
    p: (int, int),
    qs: Seq<(int, int)>,
    ps: Seq<(int, int)>,
    onto_melds: bool,
)
    requires
        c.len() == 48,
        fits(take_piece(c, p), qs, ps),
    ensures
        onto_melds ==> fits(c, qs.push(p), ps),
        !onto_melds ==> fits(c, qs, ps.push(p)),
{
    assert forall|i: int| 0 <= i < 48 implies (onto_melds ==> uses(qs.push(p), i) + uses(ps, i)
        <= #[trigger] c[i]) && (!onto_melds ==> uses(qs, i) + uses(ps.push(p), i) <= c[i]) by {
        lemma_uses_push(qs, p, i);
        lemma_uses_push(ps, p, i);
        assert(uses(qs, i) + uses(ps, i) <= take_piece(c, p)[i]);
    }
}

/// The search with partial melds at the first positive counter `j` from `b`
/// on, then without any from `j` on, covers every way to add partial melds
/// from `b` on.
pub proof fn lemma_partial_step(
    c: Seq<int>,
    b: int,
    j: int,
    t: int,
    m: int,
    d: int,
    e: int,
    s0: int,
    s1: int,
    s2: int,
    s3: int,
    s4: int,
)
    requires
        c.len() == 48,
        0 <= b <= j < 48,
        forall|i: int| b <= i < j ==> #[trigger] c[i] <= 0,
        partial_branch(c, j, 2, t, m, d, e, s0, s1),
        partial_branch(c, j, 3, t, m, d, e, s1, s2),
        partial_branch(c, j, 4, t, m, d, e, s2, s3),
        s4 <= s3,
        covers_partials(s4, c, j + 1, t, m, d, e),
        s4 == s3 || reaches_partials(s4, c, j + 1, t, m, d, e),
    ensures
        s4 <= s0,
        covers_partials(s4, c, b, t, m, d, e),
        s4 == s0 || reaches_partials(s4, c, b, t, m, d, e),
{
    let q0 = Seq::<(int, int)>::empty();
    assert forall|ps: Seq<(int, int)>|
        partials_from(ps, b) && #[trigger] fits(c, q0, ps) implies s4 <= score(
        t,
        m,
        d + ps.len(),
        e,
    ) by {
        assert forall|k: int| 0 <= k < ps.len() implies #[trigger] ps[k].0 >= j by {
            assert(is_partial(ps[k]));
            lemma_piece_start(ps, k);
            assert(uses(q0, ps[k].0) + uses(ps, ps[k].0) <= c[ps[k].0]);
        }
        if exists|k: int| 0 <= k < ps.len() && #[trigger] ps[k].0 == j {
            let k = choose|k: int| 0 <= k < ps.len() && #[trigger] ps[k].0 == j;
            let p = ps[k];
            let rest = ps.remove(k);
            assert(is_partial(p));
            lemma_remove_keeps(ps, k);
            assert forall|i: int| 0 <= i < 48 implies piece_use(p, i) <= #[trigger] c[i] by {
                lemma_uses_remove(ps, k, i);
                lemma_uses_nonneg(rest, i);
                assert(uses(q0, i) + uses(ps, i) <= c[i]);
            }
            assert forall|i: int| 0 <= i < 48 implies uses(q0, i) + uses(rest, i)
                <= #[trigger] take_piece(c, p)[i] by {
                lemma_uses_remove(ps, k, i);
                assert(uses(q0, i) + uses(ps, i) <= c[i]);
            }
            assert(fits(take_piece(c, p), q0, rest));
            assert forall|kk: int| 0 <= kk < rest.len() implies is_partial(#[trigger] rest[kk])
                && rest[kk].0 >= j by {
                assert(rest[kk] == ps[kk] || rest[kk] == ps[kk + 1]);
            }
            assert(partials_from(rest, j));
        } else {
            assert forall|k: int| 0 <= k < ps.len() implies is_partial(#[trigger] ps[k]) && ps[k].0
                >= j + 1 by {
                assert(ps[k].0 >= j);
                assert(ps[k].0 != j);
            }
            assert(partials_from(ps, j + 1));
        }
    }
    if s4 != s0 {
        if s4 != s3 {
            let ps = choose|ps: Seq<(int, int)>|
                partials_from(ps, j + 1) && #[trigger] fits(c, q0, ps) && s4 == score(
                    t,
                    m,
                    d + ps.len(),
                    e,
                );
            assert(partials_from(ps, b));
        } else {
            let k: int = if s3 != s2 {
                4
            } else if s2 != s1 {
                3
            } else {
                2
            };
            let p = (j, k);
            let rest = choose|ps: Seq<(int, int)>|
                partials_from(ps, j) && #[trigger] fits(take_piece(c, p), q0, ps) && s4 == score(
                    t,
                    m,
                    d + 1 + ps.len(),
                    e,
                );
            lemma_push_fits(c, p, q0, rest, false);
            let ps = rest.push(p);
            assert forall|kk: int| 0 <= kk < ps.len() implies is_partial(#[trigger] ps[kk])
                && ps[kk].0 >= b by {
                if kk < rest.len() {
                    assert(ps[kk] == rest[kk]);
                }
            }
            assert(fits(c, q0, ps));
            assert(s4 == score(t, m, d + ps.len(), e));
        }
    }
}


/// The search with melds at the first positive counter `j` from `b` on,
/// then without any from `j` on, covers every way to add melds from `b` on.
pub proof fn lemma_meld_step(
    c: Seq<int>,
    b: int,
    j: int,
    t: int,
    m: int,
    e: int,
    s0: int,
    s1: int,
    s2: int,
    s3: int,
)
    requires
        c.len() == 48,
        0 <= b <= j < 48,
        forall|i: int| b <= i < j ==> #[trigger] c[i] <= 0,
        meld_branch(c, j, 0, t, m, e, s0, s1),
        meld_branch(c, j, 1, t, m, e, s1, s2),
        s3 <= s2,
        covers_melds(s3, c, j + 1, t, m, e),
        s3 == s2 || reaches_melds(s3, c, j + 1, t, m, e),
    ensures
        s3 <= s0,
        covers_melds(s3, c, b, t, m, e),
        s3 == s0 || reaches_melds(s3, c, b, t, m, e),
{
    assert forall|qs: Seq<(int, int)>, ps: Seq<(int, int)>|
        melds_from(qs, b) && partials_from(ps, 0) && #[trigger] fits(c, qs, ps) implies s3
        <= score(t, m + qs.len(), ps.len() as int, e) by {
        assert forall|k: int| 0 <= k < qs.len() implies #[trigger] qs[k].0 >= j by {
            assert(is_meld(qs[k]));
            lemma_piece_start(qs, k);
            lemma_uses_nonneg(ps, qs[k].0);
            assert(uses(qs, qs[k].0) + uses(ps, qs[k].0) <= c[qs[k].0]);
        }
        if exists|k: int| 0 <= k < qs.len() && #[trigger] qs[k].0 == j {
            let k = choose|k: int| 0 <= k < qs.len() && #[trigger] qs[k].0 == j;
            let p = qs[k];
            let rest = qs.remove(k);
            assert(is_meld(p));
            lemma_remove_keeps(qs, k);
            assert forall|i: int| 0 <= i < 48 implies piece_use(p, i) <= #[trigger] c[i] by {
                lemma_uses_remove(qs, k, i);
                lemma_uses_nonneg(rest, i);
                lemma_uses_nonneg(ps, i);
                assert(uses(qs, i) + uses(ps, i) <= c[i]);
            }
            assert forall|i: int| 0 <= i < 48 implies uses(rest, i) + uses(ps, i)
                <= #[trigger] take_piece(c, p)[i] by {
                lemma_uses_remove(qs, k, i);
                assert(uses(qs, i) + uses(ps, i) <= c[i]);
            }
            assert(fits(take_piece(c, p), rest, ps));
            assert forall|kk: int| 0 <= kk < rest.len() implies is_meld(#[trigger] rest[kk])
                && rest[kk].0 >= j by {
                assert(rest[kk] == qs[kk] || rest[kk] == qs[kk + 1]);
            }
            assert(melds_from(rest, j));
        } else {
            assert forall|k: int| 0 <= k < qs.len() implies is_meld(#[trigger] qs[k]) && qs[k].0
                >= j + 1 by {
                assert(qs[k].0 >= j);
                assert(qs[k].0 != j);
            }
            assert(melds_from(qs, j + 1));
        }
    }
    if s3 != s0 {
        if s3 != s2 {
            let (qs, ps) = choose|qs: Seq<(int, int)>, ps: Seq<(int, int)>|
                melds_from(qs, j + 1) && partials_from(ps, 0) && #[trigger] fits(c, qs, ps) && s3
                    == score(t, m + qs.len(), ps.len() as int, e);
            assert(melds_from(qs, b));
        } else {
            let k: int = if s2 != s1 {
                1
            } else {
                0
            };
            let p = (j, k);
            let (rest, ps) = choose|qs: Seq<(int, int)>, ps: Seq<(int, int)>|
                melds_from(qs, j) && partials_from(ps, 0) && #[trigger] fits(
                    take_piece(c, p),
                    qs,
                    ps,
                ) && s3 == score(t, m + 1 + qs.len(), ps.len() as int, e);
            lemma_push_fits(c, p, rest, ps, true);
            let qs = rest.push(p);
            assert forall|kk: int| 0 <= kk < qs.len() implies is_meld(#[trigger] qs[kk])
                && qs[kk].0 >= b by {
                if kk < rest.len() {
                    assert(qs[kk] == rest[kk]);
                }
            }
            assert(fits(c, qs, ps));
            assert(s3 == score(t, m + qs.len(), ps.len() as int, e));
        }
    }
}

/// With no positive counter from `b` on, no partial meld can be added, and
/// the search scores the pieces set aside so far.
pub proof fn lemma_partial_leaf(c: Seq<int>, b: int, t: int, m: int, d: int, e: int, s0: int, s1: int)
    requires
        c.len() == 48,
        0 <= b <= 48,
        forall|i: int| 0 <= i < 48 ==> 0 <= #[trigger] c[i],
        forall|i: int| b <= i < 48 ==> #[trigger] c[i] <= 0,
        s1 == (if score(t, m, d, e) < s0 {
            score(t, m, d, e)
        } else {
            s0
        }),
    ensures
        s1 <= s0,
        covers_partials(s1, c, b, t, m, d, e),
        s1 == s0 || reaches_partials(s1, c, b, t, m, d, e),
{
    let q0 = Seq::<(int, int)>::empty();
    assert forall|ps: Seq<(int, int)>|
        partials_from(ps, b) && #[trigger] fits(c, q0, ps) implies s1 <= score(
        t,
        m,
        d + ps.len(),
        e,
    ) by {
        if ps.len() > 0 {
            assert(is_partial(ps[0]));
            lemma_piece_start(ps, 0);
            assert(uses(q0, ps[0].0) + uses(ps, ps[0].0) <= c[ps[0].0]);
        }
    }
    if s1 != s0 {
        assert(fits(c, q0, q0));
        assert(partials_from(q0, b));
        assert(s1 == score(t, m, d + q0.len(), e));
    }
}

/// With no positive counter from `b` on, no meld can be added, and the
/// search goes on with partial melds from the first counter.
pub proof fn lemma_meld_leaf(c: Seq<int>, b: int, t: int, m: int, e: int, s0: int, s1: int)
    requires
        c.len() == 48,
        0 <= b <= 48,
        forall|i: int| 0 <= i < 48 ==> 0 <= #[trigger] c[i],
        forall|i: int| b <= i < 48 ==> #[trigger] c[i] <= 0,
        s1 <= s0,
        covers_partials(s1, c, 0, t, m, 0, e),
        s1 == s0 || reaches_partials(s1, c, 0, t, m, 0, e),
    ensures
        covers_melds(s1, c, b, t, m, e),
        s1 == s0 || reaches_melds(s1, c, b, t, m, e),
{
    let q0 = Seq::<(int, int)>::empty();
    assert forall|qs: Seq<(int, int)>, ps: Seq<(int, int)>|
        melds_from(qs, b) && partials_from(ps, 0) && #[trigger] fits(c, qs, ps) implies s1
        <= score(t, m + qs.len(), ps.len() as int, e) by {
        if qs.len() > 0 {
            assert(is_meld(qs[0]));
            lemma_piece_start(qs, 0);
            lemma_uses_nonneg(ps, qs[0].0);
            assert(uses(qs, qs[0].0) + uses(ps, qs[0].0) <= c[qs[0].0]);
        }
        assert(qs =~= q0);
        assert(fits(c, q0, ps));
    }
    if s1 != s0 {
        let ps = choose|ps: Seq<(int, int)>|
            partials_from(ps, 0) && #[trigger] fits(c, q0, ps) && s1 == score(
                t,
                m,
                0 + ps.len() as int,
                e,
            );
        assert(melds_from(q0, b));
        assert(s1 == score(t, m + q0.len(), ps.len() as int, e));
    }
}


/// A meld or partial meld lies within the counters, on tiles.
pub proof fn lemma_piece_in_range(p: (int, int))
    requires
        is_meld(p) || is_partial(p),
    ensures
        0 <= p.0 < 48,
        valid_index(p.0),
        p.1 == 1 ==> valid_index(p.0 + 1) && valid_index(p.0 + 2) && p.0 + 2 < 48,
        p.1 == 3 ==> valid_index(p.0 + 1) && p.0 + 1 < 48,
        p.1 == 4 ==> valid_index(p.0 + 2) && p.0 + 2 < 48,
{
    lemma_valid_index(p.0);
    if p.1 == 1 || p.1 == 3 || p.1 == 4 {
        lemma_valid_index(p.0 + 1);
        lemma_valid_index(p.0 + 2);
    }
}

/// The tiles of a piece are, code by code, the tiles it takes.
pub proof fn lemma_piece_tiles(p: (int, int))
    requires
        is_meld(p) || is_partial(p),
    ensures
        piece_tiles(p).len() == piece_size(p),
        forall|i: int| #[trigger] unify_count(piece_tiles(p), i) == piece_use(p, i),
{
    lemma_piece_in_range(p);
    let j = p.0;
    lemma_valid_index(j);
    if p.1 == 1 || p.1 == 3 || p.1 == 4 {
        lemma_valid_index(j + 1);
        lemma_valid_index(j + 2);
    }
    assert forall|i: int| #[trigger] unify_count(piece_tiles(p), i) == piece_use(p, i) by {
        lemma_unify_count3(pai_at(j), pai_at(j), pai_at(j), i);
        if p.1 == 1 {
            lemma_unify_count3(pai_at(j), pai_at(j + 1), pai_at(j + 2), i);
        } else if p.1 == 3 {
            lemma_unify_count3(pai_at(j), pai_at(j + 1), pai_at(j + 2), i);
        } else if p.1 == 4 {
            lemma_unify_count3(pai_at(j), pai_at(j + 2), pai_at(j + 2), i);
        }
    }
}

/// Putting the tiles of a piece back undoes taking it.
pub proof fn lemma_restore_piece(c: Seq<int>, p: (int, int))
    requires
        c.len() == 48,
        is_meld(p) || is_partial(p),
    ensures
        add_tiles(take_piece(c, p), piece_tiles(p)) == c,
{
    lemma_piece_tiles(p);
    lemma_add_tiles(take_piece(c, p), piece_tiles(p));
    assert(add_tiles(take_piece(c, p), piece_tiles(p)) =~= c);
}

/// Counters that are, counter by counter, the sums of two at zero or above
/// hold the tiles of both.
pub proof fn lemma_pos_sum_add(x: Seq<int>, y: Seq<int>, z: Seq<int>, n: int)
    requires
        0 <= n <= 48,
        forall|i: int| 0 <= i < n ==> 0 <= #[trigger] x[i] && 0 <= y[i] && z[i] == x[i] + y[i],
    ensures
        pos_sum(z, n) == pos_sum(x, n) + pos_sum(y, n),
    decreases n,
{
    if n > 0 {
        lemma_pos_sum_add(x, y, z, n - 1);
        assert(0 <= x[n - 1]);
    }
}

/// The counters of what a piece takes.
pub open spec fn piece_counts(p: (int, int)) -> Seq<int> {
    Seq::new(48, |i: int| piece_use(p, i))
}

/// A piece takes as many tiles as its size.
pub proof fn lemma_piece_counts(p: (int, int))
    requires
        is_meld(p) || is_partial(p),
    ensures
        tiles_held(piece_counts(p)) == piece_size(p),
        forall|i: int| 0 <= i < 48 ==> 0 <= #[trigger] piece_counts(p)[i],
{
    lemma_piece_in_range(p);
    let j = p.0;
    let z = zeros();
    lemma_pos_sum_zero(z, 48);
    if p.1 == 0 {
        lemma_pos_sum_update(z, j, 3, 48);
        assert(piece_counts(p) =~= z.update(j, 3));
    } else if p.1 == 2 {
        lemma_pos_sum_update(z, j, 2, 48);
        assert(piece_counts(p) =~= z.update(j, 2));
    } else if p.1 == 3 {
        lemma_pos_sum_update(z, j, 1, 48);
        lemma_pos_sum_update(z.update(j, 1), j + 1, 1, 48);
        assert(piece_counts(p) =~= z.update(j, 1).update(j + 1, 1));
    } else if p.1 == 4 {
        lemma_pos_sum_update(z, j, 1, 48);
        lemma_pos_sum_update(z.update(j, 1), j + 2, 1, 48);
        assert(piece_counts(p) =~= z.update(j, 1).update(j + 2, 1));
    } else {
        lemma_pos_sum_update(z, j, 1, 48);
        lemma_pos_sum_update(z.update(j, 1), j + 1, 1, 48);
        lemma_pos_sum_update(z.update(j, 1).update(j + 1, 1), j + 2, 1, 48);
        assert(piece_counts(p) =~= z.update(j, 1).update(j + 1, 1).update(j + 2, 1));
    }
}

/// Taking a piece out of counters that hold it leaves counters at zero or
/// above, with the piece's tiles fewer.
pub proof fn lemma_take_piece(c: Seq<int>, p: (int, int))
    requires
        c.len() == 48,
        is_meld(p) || is_partial(p),
        piece_fits(c, p),
    ensures
        take_piece(c, p).len() == 48,
        forall|i: int| 0 <= i < 48 ==> #[trigger] take_piece(c, p)[i] <= c[i],
        tiles_held(take_piece(c, p)) == tiles_held(c) - piece_size(p),
{
    lemma_piece_counts(p);
    lemma_pos_sum_add(take_piece(c, p), piece_counts(p), c, 48);
}


/// Among the first `k` eye candidates `es` there is one with code `v`.
pub open spec fn eye_done(es: Seq<Pai>, k: int, v: int) -> bool {
    exists|m: int| 0 <= m < k && #[trigger] es[m].unify_code() == v
}

/// Every tile held at least twice is an eye candidate.
pub proof fn lemma_eye_candidates_complete(c: Seq<int>, n: int)
    requires
        0 <= n <= 48,
    ensures
        forall|v: int|
            0 <= v < n && valid_index(v) && c[v] >= 2 ==> #[trigger] eye_done(
                eye_candidates(c, n),
                eye_candidates(c, n).len() as int,
                v,
            ),
    decreases n,
{
    if n > 0 {
        lemma_eye_candidates_complete(c, n - 1);
        let prev = eye_candidates(c, n - 1);
        let cur = eye_candidates(c, n);
        assert forall|v: int| 0 <= v < n && valid_index(v) && c[v] >= 2 implies #[trigger] eye_done(
            cur,
            cur.len() as int,
            v,
        ) by {
            if v < n - 1 {
                assert(eye_done(prev, prev.len() as int, v));
                let m = choose|m: int| 0 <= m < prev.len() && #[trigger] prev[m].unify_code() == v;
                assert(cur[m] == prev[m]);
            } else {
                lemma_valid_index(v);
                assert(cur[cur.len() - 1] == pai_at(v));
                assert(cur[cur.len() - 1].unify_code() == v);
            }
        }
    }
}

/// A counter that is positive in the counts of a hand names a tile.
pub proof fn lemma_unify_count_valid(s: Seq<Pai>, i: int)
    requires
        unify_count(s, i) > 0,
    ensures
        valid_index(i),
    decreases s.len(),
{
    if s.len() > 0 {
        if unify_count(s.drop_last(), i) > 0 {
            lemma_unify_count_valid(s.drop_last(), i);
        } else {
            lemma_unify_code_valid(s.last());
        }
    }
}

/// The search with the pair `v` set aside scores every arrangement with that
/// pair.
pub proof fn lemma_eye_search(c: Seq<int>, v: int, t: int, s0: int, s1: int)
    requires
        c.len() == 48,
        valid_index(v),
        piece_fits(c, (v, 2)),
        covers_melds(s1, take_piece(c, (v, 2)), 0, t, 0, 1),
        s1 == s0 || reaches_melds(s1, take_piece(c, (v, 2)), 0, t, 0, 1),
    ensures
        forall|qs: Seq<(int, int)>, ps: Seq<(int, int)>|
            arrangement(c, Some(v), qs, ps) ==> s1 <= #[trigger] arrangement_score(t, Some(v), qs, ps),
        s1 == s0 || exists|eye: Option<int>, qs: Seq<(int, int)>, ps: Seq<(int, int)>|
            arrangement(c, eye, qs, ps) && s1 == #[trigger] arrangement_score(t, eye, qs, ps),
{
    let ce = take_piece(c, (v, 2));
    assert forall|qs: Seq<(int, int)>, ps: Seq<(int, int)>|
        arrangement(c, Some(v), qs, ps) implies s1 <= #[trigger] arrangement_score(t, Some(v), qs, ps) by {
        assert forall|k: int| 0 <= k < qs.len() implies is_meld(#[trigger] qs[k]) && qs[k].0 >= 0 by {
            lemma_piece_in_range(qs[k]);
        }
        assert forall|k: int| 0 <= k < ps.len() implies is_partial(#[trigger] ps[k]) && ps[k].0 >= 0 by {
            lemma_piece_in_range(ps[k]);
        }
        assert forall|i: int| 0 <= i < 48 implies uses(qs, i) + uses(ps, i) <= #[trigger] ce[i] by {
            assert(eye_use(Some(v), i) + uses(qs, i) + uses(ps, i) <= c[i]);
        }
        assert(fits(ce, qs, ps));
        assert(melds_from(qs, 0));
        assert(partials_from(ps, 0));
    }
    if s1 != s0 {
        let (qs, ps) = choose|qs: Seq<(int, int)>, ps: Seq<(int, int)>|
            melds_from(qs, 0) && partials_from(ps, 0) && #[trigger] fits(ce, qs, ps) && s1 == score(
                t,
                0 + qs.len() as int,
                ps.len() as int,
                1,
            );
        assert forall|i: int| 0 <= i < 48 implies eye_use(Some(v), i) + uses(qs, i) + uses(ps, i)
            <= #[trigger] c[i] by {
            assert(uses(qs, i) + uses(ps, i) <= ce[i]);
        }
        assert(arrangement(c, Some(v), qs, ps));
        assert(s1 == arrangement_score(t, Some(v), qs, ps));
    }
}

/// The search with no pair set aside scores every arrangement without a
/// pair.
pub proof fn lemma_no_eye_search(c: Seq<int>, t: int, s0: int, s1: int)
    requires
        c.len() == 48,
        covers_melds(s1, c, 0, t, 0, 0),
        s1 == s0 || reaches_melds(s1, c, 0, t, 0, 0),
    ensures
        forall|qs: Seq<(int, int)>, ps: Seq<(int, int)>|
            arrangement(c, None, qs, ps) ==> s1 <= #[trigger] arrangement_score(t, None, qs, ps),
        s1 == s0 || exists|eye: Option<int>, qs: Seq<(int, int)>, ps: Seq<(int, int)>|
            arrangement(c, eye, qs, ps) && s1 == #[trigger] arrangement_score(t, eye, qs, ps),
{
    assert forall|qs: Seq<(int, int)>, ps: Seq<(int, int)>|
        arrangement(c, None, qs, ps) implies s1 <= #[trigger] arrangement_score(t, None, qs, ps) by {
        assert forall|k: int| 0 <= k < qs.len() implies is_meld(#[trigger] qs[k]) && qs[k].0 >= 0 by {
            lemma_piece_in_range(qs[k]);
        }
        assert forall|k: int| 0 <= k < ps.len() implies is_partial(#[trigger] ps[k]) && ps[k].0 >= 0 by {
            lemma_piece_in_range(ps[k]);
        }
        assert forall|i: int| 0 <= i < 48 implies uses(qs, i) + uses(ps, i) <= #[trigger] c[i] by {
            assert(eye_use(None, i) + uses(qs, i) + uses(ps, i) <= c[i]);
        }
        assert(fits(c, qs, ps));
        assert(melds_from(qs, 0));
        assert(partials_from(ps, 0));
    }
    if s1 != s0 {
        let (qs, ps) = choose|qs: Seq<(int, int)>, ps: Seq<(int, int)>|
            melds_from(qs, 0) && partials_from(ps, 0) && #[trigger] fits(c, qs, ps) && s1 == score(
                t,
                0 + qs.len() as int,
                ps.len() as int,
                0,
            );
        assert forall|i: int| 0 <= i < 48 implies eye_use(None, i) + uses(qs, i) + uses(ps, i)
            <= #[trigger] c[i] by {
            assert(uses(qs, i) + uses(ps, i) <= c[i]);
        }
        assert(arrangement(c, None, qs, ps));
        assert(s1 == arrangement_score(t, None, qs, ps));
    }
}


/// What the score says of a hand of up to fourteen tiles, by the tiles that
/// its pieces take.
pub proof fn lemma_score_facts(t: int, m: int, d: int, e: int)
    requires
        0 <= t <= 14,
        0 <= m,
        0 <= d,
        0 <= e <= 1,
        3 * m + 2 * d + 2 * e <= t,
    ensures
        score(t, m, d, e) >= -1,
        t % 3 == 1 ==> score(t, m, d, e) >= 0,
        score(t, m, d, e) == -1 ==> e == 1 && d == 0 && 3 * m + 2 == t,
        t % 3 == 1 && score(t, m, d, e) == 0 ==> (e == 1 && d == 1 && 3 * m + 4 == t) || (e == 0
            && d == 0 && 3 * m + 1 == t),
        t % 3 == 2 && score(t, m, d, e) == 0 ==> (e == 1 && d == 1 && 3 * m + 5 == t) || (e == 0
            && 3 * m + 2 == t),
        3 * m + 2 == t ==> score(t, m, 0, 1) == -1,
        3 * m + 2 == t ==> score(t, m, 0, 0) == 0,
        3 * m + 1 == t ==> score(t, m, 0, 0) == 0,
        3 * m + 4 == t ==> score(t, m, 1, 1) == 0,
{
    assert(calls_for(t) == 4 - t / 3);
}

/// The counters of what the pieces `ps` take together.
pub open spec fn uses_counts(ps: Seq<(int, int)>) -> Seq<int> {
    Seq::new(48, |i: int| uses(ps, i))
}

/// Pieces of one size take that many tiles each.
pub proof fn lemma_uses_total(ps: Seq<(int, int)>, size: int)
    requires
        forall|k: int|
            0 <= k < ps.len() ==> (is_meld(#[trigger] ps[k]) || is_partial(ps[k])) && piece_size(
                ps[k],
            ) == size,
    ensures
        tiles_held(uses_counts(ps)) == size * ps.len(),
        forall|i: int| 0 <= i < 48 ==> 0 <= #[trigger] uses_counts(ps)[i],
    decreases ps.len(),
{
    assert forall|i: int| 0 <= i < 48 implies 0 <= #[trigger] uses_counts(ps)[i] by {
        lemma_uses_nonneg(ps, i);
    }
    if ps.len() == 0 {
        lemma_pos_sum_zero(uses_counts(ps), 48);
    } else {
        let rest = ps.drop_last();
        assert forall|k: int| 0 <= k < rest.len() implies (is_meld(#[trigger] rest[k]) || is_partial(
            rest[k],
        )) && piece_size(rest[k]) == size by {
            assert(rest[k] == ps[k]);
        }
        lemma_uses_total(rest, size);
        lemma_piece_counts(ps.last());
        lemma_pos_sum_add(uses_counts(rest), piece_counts(ps.last()), uses_counts(ps), 48);
        assert(size * ps.len() == size * rest.len() + size) by (nonlinear_arith)
            requires
                ps.len() == rest.len() + 1,
        ;
    }
}

/// The counters of a pair, if there is one.
pub open spec fn eye_counts(eye: Option<int>) -> Seq<int> {
    Seq::new(48, |i: int| eye_use(eye, i))
}

/// The counters of everything an arrangement sets aside.
pub open spec fn arrangement_counts(
    eye: Option<int>,
    qs: Seq<(int, int)>,
    ps: Seq<(int, int)>,
) -> Seq<int> {
    Seq::new(48, |i: int| eye_use(eye, i) + uses(qs, i) + uses(ps, i))
}

/// An arrangement sets aside three tiles per meld and two per partial meld
/// or pair.
pub proof fn lemma_arrangement_counts(eye: Option<int>, qs: Seq<(int, int)>, ps: Seq<(int, int)>)
    requires
        eye matches Some(v) ==> valid_index(v),
        forall|k: int| 0 <= k < qs.len() ==> is_meld(#[trigger] qs[k]),
        forall|k: int| 0 <= k < ps.len() ==> is_partial(#[trigger] ps[k]),
    ensures
        tiles_held(arrangement_counts(eye, qs, ps)) == 3 * qs.len() + 2 * ps.len() + 2 * one_if(
            eye is Some,
        ),
        forall|i: int| 0 <= i < 48 ==> 0 <= #[trigger] arrangement_counts(eye, qs, ps)[i],
{
    assert forall|k: int| 0 <= k < qs.len() implies (is_meld(#[trigger] qs[k]) || is_partial(qs[k]))
        && piece_size(qs[k]) == 3 by {}
    assert forall|k: int| 0 <= k < ps.len() implies (is_meld(#[trigger] ps[k]) || is_partial(ps[k]))
        && piece_size(ps[k]) == 2 by {}
    lemma_uses_total(qs, 3);
    lemma_uses_total(ps, 2);
    match eye {
        Some(v) => {
            lemma_piece_counts((v, 2));
            assert(eye_counts(eye) =~= piece_counts((v, 2)));
        },
        None => {
            lemma_pos_sum_zero(eye_counts(eye), 48);
        },
    }
    let eq = Seq::new(48, |i: int| eye_use(eye, i) + uses(qs, i));
    assert forall|i: int| 0 <= i < 48 implies 0 <= #[trigger] eye_counts(eye)[i] && 0
        <= uses_counts(qs)[i] && eq[i] == eye_counts(eye)[i] + uses_counts(qs)[i] by {
        assert(0 <= uses_counts(qs)[i]);
    }
    lemma_pos_sum_add(eye_counts(eye), uses_counts(qs), eq, 48);
    assert forall|i: int| 0 <= i < 48 implies 0 <= #[trigger] eq[i] && 0 <= uses_counts(ps)[i]
        && arrangement_counts(eye, qs, ps)[i] == eq[i] + uses_counts(ps)[i] by {
        assert(0 <= uses_counts(qs)[i]);
        assert(0 <= uses_counts(ps)[i]);
    }
    lemma_pos_sum_add(eq, uses_counts(ps), arrangement_counts(eye, qs, ps), 48);
    assert forall|i: int| 0 <= i < 48 implies 0 <= #[trigger] arrangement_counts(eye, qs, ps)[i] by {
        lemma_uses_nonneg(qs, i);
        lemma_uses_nonneg(ps, i);
    }
}

/// An arrangement of the counters `c` sets aside no more tiles than they
/// hold.
pub proof fn lemma_arrangement_size(
    c: Seq<int>,
    eye: Option<int>,
    qs: Seq<(int, int)>,
    ps: Seq<(int, int)>,
)
    requires
        c.len() == 48,
        arrangement(c, eye, qs, ps),
    ensures
        3 * qs.len() + 2 * ps.len() + 2 * one_if(eye is Some) <= tiles_held(c),
        3 * qs.len() + 2 * ps.len() + 2 * one_if(eye is Some) == tiles_held(c) ==> forall|i: int|
            0 <= i < 48 ==> eye_use(eye, i) + uses(qs, i) + uses(ps, i) == #[trigger] c[i],
{
    lemma_arrangement_counts(eye, qs, ps);
    let a = arrangement_counts(eye, qs, ps);
    assert forall|i: int| 0 <= i < 48 implies #[trigger] a[i] <= c[i] by {
        assert(eye_use(eye, i) + uses(qs, i) + uses(ps, i) <= c[i]);
    }
    lemma_pos_sum_mono(a, c, 48);
    if 3 * qs.len() + 2 * ps.len() + 2 * one_if(eye is Some) == tiles_held(c) {
        lemma_le_same_sum(a, c, 48);
        assert forall|i: int| 0 <= i < 48 implies eye_use(eye, i) + uses(qs, i) + uses(ps, i)
            == #[trigger] c[i] by {
            assert(a[i] == c[i]);
        }
    }
}


/// A tile taken by some pieces is taken by one of them.
pub proof fn lemma_taken_by_one(ps: Seq<(int, int)>, x: int) -> (k: int)
    requires
        uses(ps, x) > 0,
    ensures
        0 <= k < ps.len(),
        piece_use(ps[k], x) > 0,
    decreases ps.len(),
{
    if uses(ps.drop_last(), x) > 0 {
        let k = lemma_taken_by_one(ps.drop_last(), x);
        assert(ps.drop_last()[k] == ps[k]);
        k
    } else {
        (ps.len() - 1) as int
    }
}

/// A meld less one of its tiles `x`.
pub open spec fn meld_without(q: (int, int), x: int) -> (int, int) {
    if q.1 == 0 {
        (q.0, 2)
    } else if x == q.0 {
        (q.0 + 1, 3)
    } else if x == q.0 + 1 {
        (q.0, 4)
    } else {
        (q.0, 3)
    }
}

/// A meld less one of its tiles is a partial meld.
pub proof fn lemma_meld_without(q: (int, int), x: int)
    requires
        is_meld(q),
        piece_use(q, x) > 0,
    ensures
        is_partial(meld_without(q, x)),
        forall|i: int| #[trigger] piece_use(meld_without(q, x), i) == piece_use(q, i) - one_if(i == x),
{
}

/// The tile that turns the partial meld `p` into a meld.
pub open spec fn missing_tile(p: (int, int)) -> int {
    if p.1 == 2 {
        p.0
    } else if p.1 == 4 {
        p.0 + 1
    } else if suit_up_to_seven(p.0) {
        p.0 + 2
    } else {
        p.0 - 1
    }
}

/// The meld that a partial meld `p` becomes with its missing tile.
pub open spec fn completed(p: (int, int)) -> (int, int) {
    if p.1 == 2 {
        (p.0, 0)
    } else if p.1 == 4 || suit_up_to_seven(p.0) {
        (p.0, 1)
    } else {
        (p.0 - 1, 1)
    }
}

/// A partial meld with its missing tile is a meld.
pub proof fn lemma_completed(p: (int, int))
    requires
        is_partial(p),
    ensures
        is_meld(completed(p)),
        valid_index(missing_tile(p)),
        forall|i: int| #[trigger] piece_use(completed(p), i) == piece_use(p, i) + one_if(
            i == missing_tile(p),
        ),
{
    lemma_valid_index(p.0);
    lemma_valid_index(missing_tile(p));
}

/// A ready hand of 3k+1 tiles has an arrangement that scores 0.
pub proof fn lemma_ready_scores_zero(c: Seq<int>, t: int)
    requires
        hand_counts(c, t),
        t <= 14,
        t % 3 == 1,
        is_tenpai(c),
    ensures
        exists|eye: Option<int>, qs: Seq<(int, int)>, ps: Seq<(int, int)>|
            arrangement(c, eye, qs, ps) && #[trigger] arrangement_score(t, eye, qs, ps) == 0,
{
    let x = choose|x: int| valid_index(x) && is_complete(#[trigger] c.update(x, c[x] + 1));
    let c2 = c.update(x, c[x] + 1);
    let (v, qs) = choose|eye: int, qs: Seq<(int, int)>| #[trigger] complete_with(c2, eye, qs);
    let p0 = Seq::<(int, int)>::empty();
    lemma_valid_index(x);
    lemma_pos_sum_update(c, x, c[x] + 1, 48);
    lemma_arrangement_counts(Some(v), qs, p0);
    assert forall|i: int| 0 <= i < 48 implies #[trigger] arrangement_counts(Some(v), qs, p0)[i]
        == c2[i] by {
        assert(eye_use(Some(v), i) + uses(qs, i) == c2[i]);
    }
    lemma_pos_sum_same(arrangement_counts(Some(v), qs, p0), c2, 48);
    assert(3 * qs.len() + 2 == t + 1);
    if v == x {
        assert forall|i: int| 0 <= i < 48 implies eye_use(None, i) + uses(qs, i) + uses(p0, i)
            <= #[trigger] c[i] by {
            assert(eye_use(Some(v), i) + uses(qs, i) == c2[i]);
        }
        assert(arrangement(c, None, qs, p0));
        lemma_score_facts(t, qs.len() as int, 0, 0);
        assert(arrangement_score(t, None, qs, p0) == 0);
    } else {
        assert(eye_use(Some(v), x) + uses(qs, x) == c2[x]);
        let k = lemma_taken_by_one(qs, x);
        let q = qs[k];
        let pp = meld_without(q, x);
        lemma_meld_without(q, x);
        let rest = qs.remove(k);
        let ps = seq![pp];
        lemma_remove_keeps(qs, k);
        assert(ps =~= p0.push(pp));
        assert forall|i: int| 0 <= i < 48 implies eye_use(Some(v), i) + uses(rest, i) + uses(ps, i)
            <= #[trigger] c[i] by {
            assert(eye_use(Some(v), i) + uses(qs, i) == c2[i]);
            lemma_uses_remove(qs, k, i);
            lemma_uses_push(p0, pp, i);
        }
        assert forall|kk: int| 0 <= kk < rest.len() implies is_meld(#[trigger] rest[kk]) by {
            assert(rest[kk] == qs[kk] || rest[kk] == qs[kk + 1]);
        }
        assert(arrangement(c, Some(v), rest, ps));
        lemma_score_facts(t, rest.len() as int, 1, 1);
        assert(arrangement_score(t, Some(v), rest, ps) == 0);
    }
}

/// A hand of 3k+1 tiles with an arrangement that scores 0 is ready.
pub proof fn lemma_zero_score_ready(
    c: Seq<int>,
    t: int,
    eye: Option<int>,
    qs: Seq<(int, int)>,
    ps: Seq<(int, int)>,
)
    requires
        hand_counts(c, t),
        t <= 14,
        t % 3 == 1,
        arrangement(c, eye, qs, ps),
        arrangement_score(t, eye, qs, ps) == 0,
    ensures
        is_tenpai(c),
{
    lemma_arrangement_size(c, eye, qs, ps);
    lemma_score_facts(t, qs.len() as int, ps.len() as int, one_if(eye is Some));
    if eye is Some {
        let v = eye.unwrap();
        let p = ps[0];
        let x = missing_tile(p);
        let q = completed(p);
        lemma_completed(p);
        assert(ps =~= Seq::<(int, int)>::empty().push(p));
        let c2 = c.update(x, c[x] + 1);
        let qs2 = qs.push(q);
        assert forall|i: int| 0 <= i < 48 implies eye_use(Some(v), i) + uses(qs2, i)
            == #[trigger] c2[i] by {
            lemma_uses_push(qs, q, i);
            lemma_uses_push(Seq::<(int, int)>::empty(), p, i);
            assert(eye_use(eye, i) + uses(qs, i) + uses(ps, i) == c[i]);
        }
        assert forall|kk: int| 0 <= kk < qs2.len() implies is_meld(#[trigger] qs2[kk]) by {
            if kk < qs.len() {
                assert(qs2[kk] == qs[kk]);
            }
        }
        assert(complete_with(c2, v, qs2));
        assert(is_complete(c2));
    } else {
        let p0 = Seq::<(int, int)>::empty();
        assert(ps =~= p0);
        lemma_arrangement_counts(None, qs, p0);
        let a = arrangement_counts(None, qs, p0);
        assert forall|i: int| 0 <= i < 48 implies #[trigger] a[i] <= c[i] by {
            assert(eye_use(eye, i) + uses(qs, i) + uses(ps, i) <= c[i]);
        }
        if forall|i: int| 0 <= i < 48 ==> #[trigger] a[i] >= c[i] {
            lemma_pos_sum_same(a, c, 48);
        }
        let y = choose|i: int| 0 <= i < 48 && #[trigger] a[i] < c[i];
        let a2 = a.update(y, a[y] + 1);
        lemma_pos_sum_update(a, y, a[y] + 1, 48);
        lemma_le_same_sum(a2, c, 48);
        assert(valid_index(y));
        let c2 = c.update(y, c[y] + 1);
        assert forall|i: int| 0 <= i < 48 implies eye_use(Some(y), i) + uses(qs, i)
            == #[trigger] c2[i] by {
            assert(a2[i] == c[i]);
        }
        assert(complete_with(c2, y, qs));
        assert(is_complete(c2));
    }
}

/// The normal-form shanten `r` of a hand of up to fourteen tiles is at
/// least -1, and at least 0 with 3k+1 tiles; with 3k+2 tiles it is -1
/// exactly when the hand is complete, and with 3k+1 tiles it is 0 exactly
/// when the hand is ready.
pub proof fn lemma_normal_laws(c: Seq<int>, t: int, r: int)
    requires
        hand_counts(c, t),
        t <= 14,
        is_least_score(c, t, r),
    ensures
        r >= -1,
        t % 3 == 1 ==> r >= 0,
        t % 3 == 2 ==> (r == -1 <==> is_complete(c)),
        t % 3 == 1 ==> (r == 0 <==> is_tenpai(c)),
{
    let p0 = Seq::<(int, int)>::empty();
    if r != 8 {
        let (eye, qs, ps) = choose|eye: Option<int>, qs: Seq<(int, int)>, ps: Seq<(int, int)>|
            arrangement(c, eye, qs, ps) && r == #[trigger] arrangement_score(t, eye, qs, ps);
        lemma_arrangement_size(c, eye, qs, ps);
        lemma_score_facts(t, qs.len() as int, ps.len() as int, one_if(eye is Some));
        if t % 3 == 2 && r == -1 {
            let v = eye.unwrap();
            assert(ps =~= p0);
            assert forall|i: int| 0 <= i < 48 implies eye_use(Some(v), i) + uses(qs, i)
                == #[trigger] c[i] by {
                assert(eye_use(eye, i) + uses(qs, i) + uses(ps, i) == c[i]);
            }
            assert(complete_with(c, v, qs));
        }
        if t % 3 == 1 && r == 0 {
            lemma_zero_score_ready(c, t, eye, qs, ps);
        }
    }
    if t % 3 == 2 && is_complete(c) {
        let (v, qs) = choose|eye: int, qs: Seq<(int, int)>| #[trigger] complete_with(c, eye, qs);
        lemma_arrangement_counts(Some(v), qs, p0);
        assert forall|i: int| 0 <= i < 48 implies #[trigger] arrangement_counts(Some(v), qs, p0)[i]
            == c[i] by {
            assert(eye_use(Some(v), i) + uses(qs, i) == c[i]);
        }
        lemma_pos_sum_same(arrangement_counts(Some(v), qs, p0), c, 48);
        assert(arrangement(c, Some(v), qs, p0));
        lemma_score_facts(t, qs.len() as int, 0, 1);
        assert(arrangement_score(t, Some(v), qs, p0) == -1);
    }
    if t % 3 == 1 && is_tenpai(c) {
        lemma_ready_scores_zero(c, t);
        let (eye, qs, ps) = choose|eye: Option<int>, qs: Seq<(int, int)>, ps: Seq<(int, int)>|
            arrangement(c, eye, qs, ps) && #[trigger] arrangement_score(t, eye, qs, ps) == 0;
        assert(r <= arrangement_score(t, eye, qs, ps));
    }
}


/// A hand of 3k+2 tiles makes as many calls as the same hand less a tile.
pub proof fn lemma_calls_one_less(t: int)
    requires
        2 <= t <= 14,
        t % 3 == 2,
    ensures
        calls_for(t) == calls_for(t - 1),
{
}

/// A hand of 3k+2 tiles with an arrangement that scores 0 has a discard that
/// leaves it ready.
pub proof fn lemma_zero_score_discard(
    c: Seq<int>,
    t: int,
    eye: Option<int>,
    qs: Seq<(int, int)>,
    ps: Seq<(int, int)>,
)
    requires
        hand_counts(c, t),
        t <= 14,
        t % 3 == 2,
        arrangement(c, eye, qs, ps),
        arrangement_score(t, eye, qs, ps) == 0,
    ensures
        ready_after_discard(c),
{
    lemma_arrangement_size(c, eye, qs, ps);
    lemma_score_facts(t, qs.len() as int, ps.len() as int, one_if(eye is Some));
    let p0 = Seq::<(int, int)>::empty();
    let ps2 = if eye is Some {
        ps
    } else {
        p0
    };
    assert forall|i: int| 0 <= i < 48 implies eye_use(eye, i) + uses(qs, i) + uses(ps2, i)
        <= #[trigger] c[i] by {
        lemma_uses_nonneg(ps, i);
        assert(eye_use(eye, i) + uses(qs, i) + uses(ps, i) <= c[i]);
    }
    assert(arrangement(c, eye, qs, ps2));
    lemma_arrangement_counts(eye, qs, ps2);
    let a = arrangement_counts(eye, qs, ps2);
    assert forall|i: int| 0 <= i < 48 implies #[trigger] a[i] <= c[i] by {
        assert(eye_use(eye, i) + uses(qs, i) + uses(ps2, i) <= c[i]);
    }
    if forall|i: int| 0 <= i < 48 ==> #[trigger] a[i] >= c[i] {
        lemma_pos_sum_same(a, c, 48);
    }
    let y = choose|i: int| 0 <= i < 48 && #[trigger] a[i] < c[i];
    let c1 = c.update(y, c[y] - 1);
    lemma_pos_sum_update(c, y, c[y] - 1, 48);
    assert(0 <= a[y]);
    assert forall|i: int| 0 <= i < 48 implies eye_use(eye, i) + uses(qs, i) + uses(ps2, i)
        <= #[trigger] c1[i] by {
        assert(a[i] <= c[i]);
    }
    assert(arrangement(c1, eye, qs, ps2));
    assert forall|i: int| 0 <= i < 48 implies 0 <= #[trigger] c1[i] by {
        assert(0 <= a[i]);
    }
    assert(hand_counts(c1, t - 1));
    lemma_calls_one_less(t);
    lemma_score_facts(t - 1, qs.len() as int, ps2.len() as int, one_if(eye is Some));
    assert(arrangement_score(t - 1, eye, qs, ps2) == 0);
    lemma_zero_score_ready(c1, t - 1, eye, qs, ps2);
    assert(is_tenpai(c.update(y, c[y] - 1)));
}

/// A hand of 3k+2 tiles with a discard that leaves it ready has an
/// arrangement that scores 0.
pub proof fn lemma_discard_scores_zero(c: Seq<int>, t: int)
    requires
        hand_counts(c, t),
        t <= 14,
        t % 3 == 2,
        ready_after_discard(c),
    ensures
        exists|eye: Option<int>, qs: Seq<(int, int)>, ps: Seq<(int, int)>|
            arrangement(c, eye, qs, ps) && #[trigger] arrangement_score(t, eye, qs, ps) == 0,
{
    let x = choose|x: int| 0 <= x < 48 && c[x] >= 1 && #[trigger] is_tenpai(c.update(x, c[x] - 1));
    let c1 = c.update(x, c[x] - 1);
    lemma_pos_sum_update(c, x, c[x] - 1, 48);
    assert(hand_counts(c1, t - 1));
    lemma_ready_scores_zero(c1, t - 1);
    let (eye, qs, ps) = choose|eye: Option<int>, qs: Seq<(int, int)>, ps: Seq<(int, int)>|
        arrangement(c1, eye, qs, ps) && #[trigger] arrangement_score(t - 1, eye, qs, ps) == 0;
    assert forall|i: int| 0 <= i < 48 implies eye_use(eye, i) + uses(qs, i) + uses(ps, i)
        <= #[trigger] c[i] by {
        assert(eye_use(eye, i) + uses(qs, i) + uses(ps, i) <= c1[i]);
    }
    assert(arrangement(c, eye, qs, ps));
    lemma_calls_one_less(t);
    assert(arrangement_score(t, eye, qs, ps) == 0);
}

/// With 3k+2 tiles (up to fourteen), the normal-form shanten `r` is at most
/// 0 exactly when some discard leaves the hand ready, and 0 exactly when
/// some discard does and the hand is not already complete.
pub proof fn lemma_normal_discard_law(c: Seq<int>, t: int, r: int)
    requires
        hand_counts(c, t),
        t <= 14,
        t % 3 == 2,
        is_least_score(c, t, r),
    ensures
        r <= 0 <==> ready_after_discard(c),
        !is_complete(c) ==> (r == 0 <==> ready_after_discard(c)),
{
    lemma_normal_laws(c, t, r);
    if r <= 0 {
        let (eye, qs, ps) = choose|eye: Option<int>, qs: Seq<(int, int)>, ps: Seq<(int, int)>|
            arrangement(c, eye, qs, ps) && r == #[trigger] arrangement_score(t, eye, qs, ps);
        lemma_arrangement_size(c, eye, qs, ps);
        lemma_score_facts(t, qs.len() as int, ps.len() as int, one_if(eye is Some));
        if r == 0 {
            lemma_zero_score_discard(c, t, eye, qs, ps);
        } else {
            let p0 = Seq::<(int, int)>::empty();
            assert forall|i: int| 0 <= i < 48 implies eye_use(None, i) + uses(qs, i) + uses(p0, i)
                <= #[trigger] c[i] by {
                lemma_uses_nonneg(ps, i);
                assert(eye_use(eye, i) + uses(qs, i) + uses(ps, i) <= c[i]);
            }
            assert(arrangement(c, None, qs, p0));
            assert(arrangement_score(t, None, qs, p0) == 0);
            lemma_zero_score_discard(c, t, None, qs, p0);
        }
    }
    if ready_after_discard(c) {
        lemma_discard_scores_zero(c, t);
        let (eye, qs, ps) = choose|eye: Option<int>, qs: Seq<(int, int)>, ps: Seq<(int, int)>|
            arrangement(c, eye, qs, ps) && #[trigger] arrangement_score(t, eye, qs, ps) == 0;
        assert(r <= arrangement_score(t, eye, qs, ps));
    }
}


/// The codes of the thirteen orphans: 1m 9m 1p 9p 1s 9s and the seven honours.
pub open spec fn orphan_code(i: int) -> bool {
    i == 11 || i == 19 || i == 21 || i == 29 || i == 31 || i == 39 || (41 <= i <= 47)
}

/// The terminals and honours that thirteen orphans counts are exactly the
/// thirteen orphan codes.
pub proof fn lemma_yaochu_is_orphan(i: int)
    requires
        0 <= i < 48,
    ensures
        (valid_index(i) && is_yaochu(pai_at(i))) <==> orphan_code(i),
{
    lemma_valid_index(i);
}

/// How many of the first `n` counters satisfy `f`.
pub open spec fn count_below(f: spec_fn(int) -> bool, n: int) -> nat
    decreases n,
{
    if n <= 0 {
        0
    } else {
        count_below(f, n - 1) + if f(n - 1) {
            1nat
        } else {
            0nat
        }
    }
}

/// The counters below `n` that satisfy `f` form a finite set of that size.
pub proof fn lemma_count_below_set(f: spec_fn(int) -> bool, n: int)
    requires
        0 <= n,
    ensures
        Set::new(|i: int| 0 <= i < n && f(i)).finite(),
        Set::new(|i: int| 0 <= i < n && f(i)).len() == count_below(f, n),
    decreases n,
{
    let sn = Set::new(|i: int| 0 <= i < n && f(i));
    if n == 0 {
        assert(sn =~= Set::<int>::empty());
    } else {
        lemma_count_below_set(f, n - 1);
        let sp = Set::new(|i: int| 0 <= i < n - 1 && f(i));
        if f(n - 1) {
            assert(sn =~= sp.insert(n - 1));
            assert(!sp.contains(n - 1));
        } else {
            assert(sn =~= sp);
        }
    }
}

/// The kinds of terminals and honours held, counted one by one.
proof fn lemma_yaochu_kinds_count(c: Seq<int>, n: int)
    requires
        0 <= n <= 48,
    ensures
        yaochu_kinds(c, n) == count_below(|i: int| orphan_code(i) && c[i] != 0, n),
        yaochu_pair(c, n) <==> exists|i: int| 0 <= i < n && orphan_code(i) && #[trigger] c[i] > 1,
    decreases n,
{
    if n > 0 {
        lemma_yaochu_kinds_count(c, n - 1);
        lemma_yaochu_is_orphan(n - 1);
        if yaochu_pair(c, n - 1) {
            let i = choose|i: int| 0 <= i < n - 1 && orphan_code(i) && #[trigger] c[i] > 1;
            assert(0 <= i < n && orphan_code(i) && c[i] > 1);
        }
    }
}

/// Thirteen orphans counts, for a hand of at least thirteen tiles, the
/// kinds of the thirteen orphan codes held and whether one of them is held
/// twice: 13 less the kinds, less one for such a pair. Fewer tiles cannot
/// make the form, which is then 8 away.
pub proof fn lemma_kokushi_by_codes(c: Seq<int>, t: int)
    ensures
        kokushi_shanten(c, t) == if t < 13 {
            8
        } else {
            13 - Set::new(|i: int| 0 <= i < 48 && orphan_code(i) && c[i] != 0).len() - if exists|
                i: int,
            |
                0 <= i < 48 && orphan_code(i) && #[trigger] c[i] > 1 {
                1int
            } else {
                0int
            }
        },
{
    let f = |i: int| orphan_code(i) && c[i] != 0;
    lemma_yaochu_kinds_count(c, 48);
    lemma_count_below_set(f, 48);
    assert(Set::new(|i: int| 0 <= i < 48 && orphan_code(i) && c[i] != 0) =~= Set::new(
        |i: int| 0 <= i < 48 && f(i),
    ));
}

/// A hand of at least thirteen tiles that holds every one of the thirteen
/// orphans, one of them twice, is complete towards thirteen orphans: -1.
pub proof fn lemma_kokushi_complete(c: Seq<int>, t: int)
    requires
        t >= 13,
        c[11] >= 1 && c[19] >= 1 && c[21] >= 1 && c[29] >= 1 && c[31] >= 1 && c[39] >= 1,
        c[41] >= 1 && c[42] >= 1 && c[43] >= 1 && c[44] >= 1 && c[45] >= 1 && c[46] >= 1 && c[47]
            >= 1,
        c[11] >= 2 || c[19] >= 2 || c[21] >= 2 || c[29] >= 2 || c[31] >= 2 || c[39] >= 2 || c[41]
            >= 2 || c[42] >= 2 || c[43] >= 2 || c[44] >= 2 || c[45] >= 2 || c[46] >= 2 || c[47] >= 2,
    ensures
        kokushi_shanten(c, t) == -1,
{
    lemma_yaochu_kinds_count(c, 48);
    reveal_with_fuel(count_below, 49);
    let f = |i: int| orphan_code(i) && c[i] != 0;
    assert(count_below(f, 48) == 13);
    if c[11] >= 2 {
        assert(c[11] > 1);
    } else if c[19] >= 2 {
        assert(c[19] > 1);
    } else if c[21] >= 2 {
        assert(c[21] > 1);
    } else if c[29] >= 2 {
        assert(c[29] > 1);
    } else if c[31] >= 2 {
        assert(c[31] > 1);
    } else if c[39] >= 2 {
        assert(c[39] > 1);
    } else if c[41] >= 2 {
        assert(c[41] > 1);
    } else if c[42] >= 2 {
        assert(c[42] > 1);
    } else if c[43] >= 2 {
        assert(c[43] > 1);
    } else if c[44] >= 2 {
        assert(c[44] > 1);
    } else if c[45] >= 2 {
        assert(c[45] > 1);
    } else if c[46] >= 2 {
        assert(c[46] > 1);
    } else {
        assert(c[47] > 1);
    }
}

/// The kinds held and the kinds held twice, counted one by one.
proof fn lemma_kinds_count(c: Seq<int>, n: int)
    requires
        0 <= n <= 48,
    ensures
        kinds_held(c, n) == count_below(|i: int| valid_index(i) && c[i] != 0, n),
        pairs_held(c, n) == count_below(|i: int| valid_index(i) && c[i] >= 2, n),
    decreases n,
{
    if n > 0 {
        lemma_kinds_count(c, n - 1);
    }
}

/// Seven pairs, for a hand of at least thirteen tiles: 6 less the kinds held
/// at least twice, plus the kinds missing from seven. Fewer tiles cannot
/// make the form, which is then 6 away.
pub proof fn lemma_chiitoi_by_kinds(c: Seq<int>, t: int)
    ensures
        chiitoi_shanten(c, t) == if t < 13 {
            6
        } else {
            let pairs = Set::new(|i: int| 0 <= i < 48 && valid_index(i) && c[i] >= 2).len() as int;
            let kinds = Set::new(|i: int| 0 <= i < 48 && valid_index(i) && c[i] != 0).len() as int;
            6 - pairs + if 7 - kinds > 0 {
                7 - kinds
            } else {
                0
            }
        },
{
    let fk = |i: int| valid_index(i) && c[i] != 0;
    let fp = |i: int| valid_index(i) && c[i] >= 2;
    lemma_kinds_count(c, 48);
    lemma_count_below_set(fk, 48);
    lemma_count_below_set(fp, 48);
    assert(Set::new(|i: int| 0 <= i < 48 && valid_index(i) && c[i] >= 2) =~= Set::new(
        |i: int| 0 <= i < 48 && fp(i),
    ));
    assert(Set::new(|i: int| 0 <= i < 48 && valid_index(i) && c[i] != 0) =~= Set::new(
        |i: int| 0 <= i < 48 && fk(i),
    ));
}

} // verus!
