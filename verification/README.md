# mjai_state

A verified hand tracker for mahjong logs in the mjai format, written in Verus.

`State` follows one player's closed hand and called melds as mjai events
arrive (`State::update`), and computes the hand's shanten number
(`State::calc_shanten`): the least of the thirteen-orphans, seven-pairs and
normal (four melds and a pair) forms. The normal form is the least score of
any way to set aside a pair, melds and partial melds, each call counting as a
meld; for hands of up to fourteen tiles it is proved to be -1 exactly for a
complete hand of 3k+2 tiles, 0 exactly for a ready hand of 3k+1 tiles, and
0 exactly for an incomplete hand of 3k+2 tiles with a discard that leaves it
ready.

- `src/pai.rs`: tiles and their tenhou codes.
- `src/mjai.rs`: events, and the tiles that calls take from the hand.
- `src/tehai.rs`: the closed hand.
- `src/state.rs`: the tracker; `step` says what each event does.
- `src/shanten_model.rs`: arrangements of 48 tile counters and their scores,
  with the laws about them.
- `src/shanten.rs`: the exhaustive search, proved to find the least score.
- `app/`: serde copies of `State` and `Fuuro`.
