use mjai_state::mjai::{Consumed2, Consumed3, Consumed4, Event};
use mjai_state::pai::Pai;
use mjai_state::shanten::{Distance, ShantenHelper};
use mjai_state::state::{Fuuro, State, StateError};
use mjai_state::tehai::Tehai;

/// Reads a hand written as digits followed by their suit letter, such as
/// "40m12356p4699s222z" (0 is a red five, 1z..7z are the honours).
fn get_pais_from_str(s: &str) -> Vec<Pai> {
    let mut out = Vec::new();
    let mut digits: Vec<u8> = Vec::new();
    for ch in s.chars() {
        if let Some(d) = ch.to_digit(10) {
            digits.push(d as u8);
            continue;
        }
        for &d in &digits {
            let code = match (ch, d) {
                ('m', 0) => 51,
                ('p', 0) => 52,
                ('s', 0) => 53,
                ('m', d) => 10 + d,
                ('p', d) => 20 + d,
                ('s', d) => 30 + d,
                ('z', d) => 40 + d,
                _ => panic!("bad tile"),
            };
            out.push(Pai::try_from_u8(code).expect("bad tile"));
        }
        digits.clear();
    }
    out
}

fn helper_for(s: &str) -> ShantenHelper {
    ShantenHelper::new(&Tehai::from(get_pais_from_str(s)))
}

#[test]
fn test_chi_to_pais() {
    let f = Fuuro::Chi {
        target: 0,
        pai: Pai::Man1,
        consumed: Consumed2::from([Pai::Man2, Pai::Man3]),
    };
    let pais = f.into_pais();
    assert_eq!(pais.len(), 3);
    assert_eq!(pais[0], Pai::Man1);
    assert_eq!(pais[1], Pai::Man2);
    assert_eq!(pais[2], Pai::Man3);
}

#[test]
fn test_pon_to_pais() {
    let f = Fuuro::Pon {
        target: 0,
        pai: Pai::Man1,
        consumed: Consumed2::from([Pai::Man1, Pai::Man1]),
    };
    let pais = f.into_pais();
    assert_eq!(pais.len(), 3);
    assert_eq!(pais[0], Pai::Man1);
    assert_eq!(pais[1], Pai::Man1);
    assert_eq!(pais[2], Pai::Man1);
}

#[test]
fn test_kan_to_pais() {
    let cases = [
        Fuuro::Daiminkan {
            target: 0,
            pai: Pai::Man1,
            consumed: Consumed3::from([Pai::Man1, Pai::Man1, Pai::Man1]),
        },
        Fuuro::Kakan {
            pai: Pai::Man1,
            previous_pon_target: 0,
            previous_pon_pai: Pai::Man1,
            consumed: Consumed2::from([Pai::Man1, Pai::Man1]),
        },
        Fuuro::Ankan {
            consumed: Consumed4::from([Pai::Man1, Pai::Man1, Pai::Man1, Pai::Man1]),
        },
    ];
    for case in cases {
        let pais = case.into_pais();
        assert_eq!(pais.len(), 4);
        assert_eq!(pais[0], Pai::Man1);
        assert_eq!(pais[1], Pai::Man1);
        assert_eq!(pais[2], Pai::Man1);
        assert_eq!(pais[3], Pai::Man1);
    }
}

#[test]
fn test_iter_stat_pais() {
    let cases = [("40m12356p4699s222z", 1)];
    for (input, s) in cases {
        println!("input: '{}'", input);
        let mut helper = helper_for(input);
        let normal = helper.get_normal_shanten();
        println!("shanten: {} for '{}'(normal)", s, input);
        assert_eq!(s, normal, "for '{}'", input);
    }
}

#[test]
fn normal_shanten_of_known_hands() {
    let cases = [
        ("0m12356p4699s4m", 1),
        ("12345678p123s55m1z", 0),
        ("12345678p12s55m12z", 1),
        ("0m125p1469s24z6p", 3),
        ("0m1256p469s24z9s", 2),
        ("0m1256p4699s4z3p", 1),
        ("245m12356p99s222z4p", 0),
        ("45m123456p99s222z2m", 0),
        ("45m235678p399s22z6s", 2),
        ("45m23568p3699s22z4m", 3),
        ("4444m6666p1111s55z", 1),
        ("123456789p123s55m", -1),
        ("45m123456p99s222z3m", -1),
        ("445m2358p23469s2z9m", 4),
        ("49m2358p23469s24z1m", 5),
        ("149m258p2369s124z7s", 6),
        ("458m666p116688s55z", 2),
        ("44m6666p116688s55z", 2),
    ];
    for (input, s) in cases {
        let mut helper = helper_for(input);
        assert_eq!(helper.get_normal_shanten(), s, "for '{}'", input);
    }
}

#[test]
fn kokushi_shanten_of_known_hands() {
    assert_eq!(helper_for("159m19p19s1234677z").get_kokushi_shanten(), 0);
    assert_eq!(helper_for("159m19p19s1236677z").get_kokushi_shanten(), 1);
    // fewer than thirteen tiles: the form is out of reach
    assert_eq!(helper_for("19m19p19s12345z").get_kokushi_shanten(), 8);
}

#[test]
fn chiitoi_shanten_of_known_hands() {
    assert_eq!(helper_for("458m666p116688s55z").get_chiitoi_shanten(), 1);
    assert_eq!(helper_for("44m6666p116688s55z").get_chiitoi_shanten(), 1);
    assert_eq!(helper_for("4444m6666p1111s55z").get_chiitoi_shanten(), 5);
    assert_eq!(helper_for("11223344556677m").get_chiitoi_shanten(), -1);
    // fewer than thirteen tiles: the form is out of reach
    assert_eq!(helper_for("1122m").get_chiitoi_shanten(), 6);
}

#[test]
fn overall_shanten_is_the_least_form() {
    // thirteen orphans wins over the normal form
    assert_eq!(helper_for("159m19p19s1234677z").get_shanten(), 0);
    // seven pairs wins over the normal form
    assert_eq!(helper_for("458m666p116688s55z").get_shanten(), 1);
    assert_eq!(helper_for("40m12356p4699s222z").get_shanten(), 1);
}

#[test]
fn red_fives_and_order_do_not_change_shanten() {
    let mut a = State::new(0);
    let mut b = State::new(0);
    let mut c = State::new(0);
    for p in get_pais_from_str("40m12356p4699s222z") {
        a.update(&Event::Tsumo { actor: 0, pai: p }).unwrap();
    }
    for p in get_pais_from_str("45m12356p4699s222z") {
        b.update(&Event::Tsumo { actor: 0, pai: p }).unwrap();
    }
    for p in get_pais_from_str("222z4699s65321p04m") {
        c.update(&Event::Tsumo { actor: 0, pai: p }).unwrap();
    }
    assert_eq!(a.calc_shanten(), 1);
    assert_eq!(b.calc_shanten(), 1);
    assert_eq!(c.calc_shanten(), 1);
}

#[test]
fn shanten_range_for_a_complete_hand() {
    let mut s = State::new(0);
    for p in get_pais_from_str("11223344556677m") {
        s.update(&Event::Tsumo { actor: 0, pai: p }).unwrap();
    }
    assert_eq!(s.calc_shanten(), -1);
}

fn deal(actor_hand: &str) -> Event {
    let mine: Vec<Pai> = get_pais_from_str(actor_hand);
    let mut hand = [Pai::Unknown; 13];
    for (i, p) in mine.iter().enumerate() {
        hand[i] = *p;
    }
    Event::StartKyoku {
        bakaze: Pai::East,
        dora_marker: Pai::Man1,
        kyoku: 1,
        honba: 0,
        kyotaku: 0,
        oya: 0,
        scores: [25000; 4],
        tehais: [hand, [Pai::Unknown; 13], [Pai::Unknown; 13], [Pai::Unknown; 13]],
    }
}

#[test]
fn start_kyoku_deals_and_clears_melds() {
    let mut s = State::new(0);
    s.update(&deal("123m456p789s1122z")).unwrap();
    assert_eq!(s.tehai.view().to_vec(), get_pais_from_str("123m456p789s1122z"));
    s.update(&Event::Pon {
        actor: 0,
        target: 1,
        pai: Pai::East,
        consumed: Consumed2::from([Pai::East, Pai::East]),
    })
    .unwrap();
    assert_eq!(s.fuuros.len(), 1);
    s.update(&deal("111m222p333s4455z")).unwrap();
    assert_eq!(s.fuuros.len(), 0);
    assert_eq!(s.tehai.view().to_vec(), get_pais_from_str("111m222p333s4455z"));
}

#[test]
fn tsumo_then_tsumogiri_restores_the_hand() {
    let mut s = State::new(2);
    let mut t = [Pai::Unknown; 13];
    let mine = get_pais_from_str("123m456p789s1122z");
    t.copy_from_slice(&mine);
    s.update(&Event::StartKyoku {
        bakaze: Pai::East,
        dora_marker: Pai::Man1,
        kyoku: 1,
        honba: 0,
        kyotaku: 0,
        oya: 0,
        scores: [25000; 4],
        tehais: [[Pai::Unknown; 13], [Pai::Unknown; 13], t, [Pai::Unknown; 13]],
    })
    .unwrap();
    let before = s.tehai.view().to_vec();
    s.update(&Event::Tsumo { actor: 2, pai: Pai::Chun }).unwrap();
    assert_eq!(s.tehai.view().len(), 14);
    assert_eq!(s.tehai.view()[13], Pai::Chun);
    s.update(&Event::Dahai { actor: 2, pai: Pai::Chun, tsumogiri: true }).unwrap();
    assert_eq!(s.tehai.view().to_vec(), before);
}

#[test]
fn tedashi_discards_the_first_copy() {
    let mut s = State::new(0);
    s.update(&deal("123m456p789s1122z")).unwrap();
    s.update(&Event::Tsumo { actor: 0, pai: Pai::Haku }).unwrap();
    s.update(&Event::Dahai { actor: 0, pai: Pai::Man2, tsumogiri: false }).unwrap();
    assert_eq!(s.tehai.view().to_vec(), get_pais_from_str("13m456p789s11225z"));
    // a tile the hand does not hold: nothing changes
    s.update(&Event::Dahai { actor: 0, pai: Pai::Sou1, tsumogiri: false }).unwrap();
    assert_eq!(s.tehai.view().to_vec(), get_pais_from_str("13m456p789s11225z"));
}

#[test]
fn events_of_other_players_change_nothing() {
    let mut s = State::new(1);
    s.update(&Event::Tsumo { actor: 1, pai: Pai::Man1 }).unwrap();
    s.update(&Event::Tsumo { actor: 0, pai: Pai::Man2 }).unwrap();
    s.update(&Event::Dahai { actor: 3, pai: Pai::Man1, tsumogiri: false }).unwrap();
    s.update(&Event::Chi {
        actor: 2,
        target: 1,
        pai: Pai::Man3,
        consumed: Consumed2::from([Pai::Man1, Pai::Man2]),
    })
    .unwrap();
    s.update(&Event::Reach { actor: 1 }).unwrap();
    s.update(&Event::Dora { dora_marker: Pai::Pin1 }).unwrap();
    s.update(&Event::EndKyoku).unwrap();
    assert_eq!(s.tehai.view().to_vec(), vec![Pai::Man1]);
    assert!(s.fuuros.is_empty());
}

#[test]
fn calls_take_tiles_and_add_melds() {
    let mut s = State::new(0);
    s.update(&deal("23m45p78999s1111z")).unwrap();
    s.update(&Event::Chi {
        actor: 0,
        target: 3,
        pai: Pai::Man1,
        consumed: Consumed2::from([Pai::Man3, Pai::Man2]),
    })
    .unwrap();
    assert_eq!(s.tehai.view().to_vec(), get_pais_from_str("45p78999s1111z"));
    assert_eq!(s.fuuros.len(), 1);
    assert_eq!(s.fuuros[0].into_pais(), vec![Pai::Man1, Pai::Man2, Pai::Man3]);
    s.update(&Event::Ankan {
        actor: 0,
        consumed: Consumed4::from([Pai::East, Pai::East, Pai::East, Pai::East]),
    })
    .unwrap();
    assert_eq!(s.fuuros.len(), 2);
    assert_eq!(s.tehai.view().to_vec(), get_pais_from_str("45p78999s"));
}

#[test]
fn kakan_turns_the_pon_into_a_kan() {
    let mut s = State::new(0);
    s.update(&deal("1234m0556p789s11z")).unwrap();
    s.update(&Event::Pon {
        actor: 0,
        target: 2,
        pai: Pai::Pin5,
        consumed: Consumed2::from([Pai::AkaPin5, Pai::Pin5]),
    })
    .unwrap();
    s.update(&Event::Chi {
        actor: 0,
        target: 3,
        pai: Pai::Man5,
        consumed: Consumed2::from([Pai::Man3, Pai::Man4]),
    })
    .unwrap();
    s.update(&Event::Tsumo { actor: 0, pai: Pai::Pin5 }).unwrap();
    // the kakan names the pon's tiles in another order
    let r = s.update(&Event::Kakan {
        actor: 0,
        pai: Pai::Pin5,
        consumed: Consumed3::from([Pai::Pin5, Pai::Pin5, Pai::AkaPin5]),
    });
    assert!(r.is_ok());
    assert_eq!(s.fuuros.len(), 2);
    match s.fuuros[0] {
        Fuuro::Kakan { pai, previous_pon_target, previous_pon_pai, .. } => {
            assert_eq!(pai, Pai::Pin5);
            assert_eq!(previous_pon_target, 2);
            assert_eq!(previous_pon_pai, Pai::Pin5);
        }
        _ => panic!("expected a kakan"),
    }
    assert_eq!(s.fuuros[0].into_pais().len(), 4);
    assert!(matches!(s.fuuros[1], Fuuro::Chi { .. }));
}

#[test]
fn kakan_without_pon_is_an_error() {
    let mut s = State::new(0);
    s.update(&deal("1234m0556p789s11z")).unwrap();
    s.update(&Event::Tsumo { actor: 0, pai: Pai::Sou9 }).unwrap();
    let r = s.update(&Event::Kakan {
        actor: 0,
        pai: Pai::Sou9,
        consumed: Consumed3::from([Pai::Sou9, Pai::Sou9, Pai::Sou9]),
    });
    assert_eq!(r, Err(StateError::PreviousPonNotFound));
    assert!(s.fuuros.is_empty());
    // the named tile has already left the hand: its first copy
    assert_eq!(s.tehai.view().to_vec(), get_pais_from_str("1234m0556p78s11z9s"));
}

#[test]
fn iterator_walks_hand_then_melds() {
    let mut s = State::new(0);
    s.update(&deal("235m456p789s1122z")).unwrap();
    s.update(&Event::Chi {
        actor: 0,
        target: 3,
        pai: Pai::Man1,
        consumed: Consumed2::from([Pai::Man2, Pai::Man3]),
    })
    .unwrap();
    s.update(&Event::Pon {
        actor: 0,
        target: 1,
        pai: Pai::South,
        consumed: Consumed2::from([Pai::South, Pai::South]),
    })
    .unwrap();
    let mut it = s.iter();
    let mut all = Vec::new();
    while let Some(p) = it.next() {
        all.push(p);
    }
    assert!(it.next().is_none());
    let mut expected = get_pais_from_str("5m456p789s11z");
    expected.extend([Pai::Man1, Pai::Man2, Pai::Man3, Pai::South, Pai::South, Pai::South]);
    assert_eq!(all, expected);
}

#[test]
fn consumed_tiles_are_kept_in_code_order() {
    assert_eq!(Consumed2::from([Pai::Man3, Pai::Man2]).as_array(), [Pai::Man2, Pai::Man3]);
    assert_eq!(
        Consumed3::from([Pai::AkaSou5, Pai::Sou5, Pai::Sou5]).as_array(),
        [Pai::Sou5, Pai::Sou5, Pai::AkaSou5]
    );
    assert_eq!(
        Consumed3::from([Pai::Sou5, Pai::AkaSou5, Pai::Sou5]),
        Consumed3::from([Pai::AkaSou5, Pai::Sou5, Pai::Sou5])
    );
    assert_eq!(
        Consumed4::from([Pai::Chun, Pai::Man1, Pai::Pin9, Pai::Man1]).as_array(),
        [Pai::Man1, Pai::Man1, Pai::Pin9, Pai::Chun]
    );
}

#[test]
fn tile_codes_and_names() {
    for v in 0u8..=255 {
        if let Some(p) = Pai::try_from_u8(v) {
            assert_eq!(p.as_u8(), v);
            assert!(p.as_unify_u8() < 48);
        }
    }
    assert_eq!(Pai::try_from_u8(10), None);
    assert_eq!(Pai::try_from_u8(48), None);
    assert_eq!(Pai::AkaMan5.as_unify_u8(), 15);
    assert_eq!(Pai::AkaPin5.as_unify_u8(), 25);
    assert_eq!(Pai::AkaSou5.as_unify_u8(), 35);
    assert_eq!(Pai::Chun.as_unify_u8(), 47);
    assert_eq!(Pai::Man1.to_mjai_str(), "1m");
    assert_eq!(Pai::AkaPin5.to_mjai_str(), "5pr");
    assert_eq!(Pai::Haku.to_mjai_str(), "P");
    assert_eq!(Pai::Unknown.to_mjai_str(), "?");
}

#[test]
fn distance_symbols() {
    assert_eq!(Distance::One.symbol(), '1');
    assert_eq!(Distance::Two.symbol(), '2');
    assert_eq!(Distance::Inf.symbol(), '\u{221e}');
}

#[test]
fn minus_one_only_for_a_complete_hand() {
    // four melds and a pair
    assert_eq!(helper_for("123456789p123s55m").get_normal_shanten(), -1);
    assert_eq!(helper_for("11223344556677m").get_normal_shanten(), -1);
    assert_eq!(helper_for("1112345678999m5m").get_normal_shanten(), -1);
    // two melds and a pair in an eight-tile hand (two calls made)
    assert_eq!(helper_for("123m456p55z").get_normal_shanten(), -1);
    assert_eq!(helper_for("55z").get_normal_shanten(), -1);
    // one tile away from that: not -1
    assert_eq!(helper_for("12345678p123s55m1z").get_normal_shanten(), 0);
    assert_eq!(helper_for("123m456p5z9s").get_normal_shanten(), 0);
}

#[test]
fn zero_exactly_for_a_ready_hand() {
    // a pair wait, a closed wait on 89m, and the nine-gates shape
    assert_eq!(helper_for("123m456p789s1155z").get_normal_shanten(), 0);
    assert_eq!(helper_for("123m456p789s55z89m").get_normal_shanten(), 0);
    assert_eq!(helper_for("1112345678999m").get_normal_shanten(), 0);
    assert_eq!(helper_for("123m456p789s5z").get_normal_shanten(), 0);
    // three melds, a pair and three lone honours: one away from ready
    assert_eq!(helper_for("123m456p789s11357z").get_normal_shanten(), 1);
}

#[test]
fn zero_exactly_when_a_discard_leaves_a_ready_hand() {
    // fourteen tiles: discarding 9m leaves a pair wait
    assert_eq!(helper_for("123m456p789s1155z9m").get_normal_shanten(), 0);
    // no discard leaves a ready hand
    assert_eq!(helper_for("123m456p789s11357z9m").get_normal_shanten(), 1);
}

#[test]
fn partial_melds_count_until_four_blocks() {
    // two in a row, two with a gap, and a pair each count as a partial meld
    assert_eq!(helper_for("12m").get_normal_shanten(), 0);
    assert_eq!(helper_for("13m").get_normal_shanten(), 0);
    assert_eq!(helper_for("89m").get_normal_shanten(), 0);
    // terminal triplets are melds
    assert_eq!(helper_for("999m").get_normal_shanten(), 0);
    assert_eq!(helper_for("111999m").get_normal_shanten(), 0);
    assert_eq!(helper_for("123m99p").get_normal_shanten(), -1);
}

#[test]
fn the_search_leaves_the_counts_as_they_were() {
    let mut helper = helper_for("40m12356p4699s222z");
    assert_eq!(helper.get_normal_shanten(), 1);
    assert_eq!(helper.get_normal_shanten(), 1);
    assert_eq!(helper.get_shanten(), 1);
}

#[test]
fn calc_shanten_of_known_hands() {
    let mut s = State::new(0);
    s.tehai = Tehai::from(get_pais_from_str("123m456p789s11357z"));
    assert_eq!(s.calc_shanten(), 1);
    s.tehai = Tehai::from(get_pais_from_str("123456789p123s55m"));
    assert_eq!(s.calc_shanten(), -1);
    s.tehai = Tehai::from(get_pais_from_str("123m456p789s1155z"));
    assert_eq!(s.calc_shanten(), 0);
}

#[test]
fn state_getters_show_hand_and_melds() {
    let mut s = State::new(2);
    assert!(s.tehai().view().is_empty());
    assert!(s.fuuros().is_empty());
    s.update(&Event::Tsumo { actor: 2, pai: Pai::Man1 }).unwrap();
    assert_eq!(s.tehai().view(), vec![Pai::Man1]);
    assert_eq!(s.actor(), 2);
}

#[test]
fn tehai_operations() {
    let mut t = Tehai::default();
    assert!(t.view().is_empty());
    let mut deal = [Pai::Man1; 13];
    deal[3] = Pai::Pin2;
    deal[7] = Pai::Pin2;
    t.haipai(&deal);
    assert_eq!(t.view().to_vec(), deal.to_vec());
    t.tsumo(Pai::Chun);
    assert_eq!(t.view().len(), 14);
    t.tsumogiri();
    assert_eq!(t.view().to_vec(), deal.to_vec());
    // the first copy of each named tile goes
    t.remove_multiple(&[Pai::Pin2, Pai::Man1, Pai::Pin2]);
    assert_eq!(t.view().len(), 10);
    assert!(t.view().iter().all(|p| *p == Pai::Man1));
    // a tile that is not held: nothing changes
    t.tedashi(Pai::Sou9);
    assert_eq!(t.view().len(), 10);
    let mut empty = Tehai::from(Vec::new());
    empty.tsumogiri();
    assert!(empty.view().is_empty());
}

#[test]
fn default_state_is_empty() {
    let s = State::default();
    assert_eq!(s.actor(), 0);
    assert!(s.tehai.view().is_empty());
    assert!(s.fuuros.is_empty());
    assert_eq!(State::new(3).actor(), 3);
}

fn all_tiles(s: &State) -> Vec<Pai> {
    let mut it = s.iter();
    let mut v = Vec::new();
    while let Some(p) = it.next() {
        v.push(p);
    }
    v.sort_by_key(|p| p.as_u8());
    v
}

#[test]
fn calls_keep_the_players_tiles() {
    let mut s = State::new(0);
    s.update(&deal("1234m0556p789s11z")).unwrap();
    let before = all_tiles(&s);
    s.update(&Event::Pon {
        actor: 0,
        target: 2,
        pai: Pai::Pin5,
        consumed: Consumed2::from([Pai::AkaPin5, Pai::Pin5]),
    })
    .unwrap();
    let mut expected = before.clone();
    expected.push(Pai::Pin5);
    expected.sort_by_key(|p| p.as_u8());
    assert_eq!(all_tiles(&s), expected);
    // a kakan moves a held tile into the pon
    s.update(&Event::Tsumo { actor: 0, pai: Pai::Pin5 }).unwrap();
    let before_kakan = all_tiles(&s);
    s.update(&Event::Kakan {
        actor: 0,
        pai: Pai::Pin5,
        consumed: Consumed3::from([Pai::Pin5, Pai::AkaPin5, Pai::Pin5]),
    })
    .unwrap();
    assert_eq!(all_tiles(&s), before_kakan);
}
