//! The cube game: hands of red, green and blue counts parsed from game
//! lines, validity against a limit hand, and the power of a game.

use vstd::prelude::*;

use crate::error::ParseError;
use crate::input::{trim_newlines, Input};
use crate::text::{
    digits_value, find_index, is_u32_text, parse_u32, split_by, split_chars, split_first,
    split_lines, trim_spaces, trim_str,
};

verus! {

/// One hand of cubes: how many of each colour were shown.
#[derive(Clone, Copy, Debug, PartialEq, Eq, Structural, Default)]
pub struct Hand {
    pub red: u32,
    pub green: u32,
    pub blue: u32,
}

/// One game: its id and the hands shown in it.
#[derive(Clone, Debug, PartialEq, Eq)]
pub struct Game {
    pub id: u32,
    pub hands: Vec<Hand>,
}

/// The empty hand.
pub open spec fn zero_hand() -> Hand {
    Hand { red: 0, green: 0, blue: 0 }
}

/// `h` stays within `limits`, colour by colour.
pub open spec fn hand_within(h: Hand, limits: Hand) -> bool {
    h.red <= limits.red && h.green <= limits.green && h.blue <= limits.blue
}

/// `h` with the colour named by `colour` (0 red, 1 green, 2 blue) replaced.
pub open spec fn apply_cube(h: Hand, colour: int, count: int) -> Hand {
    if colour == 0 {
        Hand { red: count as u32, green: h.green, blue: h.blue }
    } else if colour == 1 {
        Hand { red: h.red, green: count as u32, blue: h.blue }
    } else {
        Hand { red: h.red, green: h.green, blue: count as u32 }
    }
}

/// One cube declaration, read as a colour code and a count: the trimmed text
/// split at its first space, the count before it, the colour after it.
pub open spec fn cube_value(c: Seq<char>) -> Result<(int, int), ParseError> {
    let ct = trim_spaces(c);
    match find_index(ct, ' ') {
        None => Err(ParseError::InvalidCube),
        Some(p) => {
            let count_s = trim_spaces(ct.take(p));
            let colour_s = trim_spaces(ct.skip(p + 1));
            if !is_u32_text(count_s) {
                Err(ParseError::InvalidNumber)
            } else if colour_s == seq!['r', 'e', 'd'] {
                Ok((0, digits_value(count_s) as int))
            } else if colour_s == seq!['g', 'r', 'e', 'e', 'n'] {
                Ok((1, digits_value(count_s) as int))
            } else if colour_s == seq!['b', 'l', 'u', 'e'] {
                Ok((2, digits_value(count_s) as int))
            } else {
                Err(ParseError::InvalidColour)
            }
        },
    }
}

/// The hand described by the cube declarations, applied left to right onto
/// `acc`; a later declaration of a colour overwrites an earlier one.
pub open spec fn parse_cubes(cubes: Seq<Seq<char>>, acc: Hand) -> Result<Hand, ParseError>
    decreases cubes.len(),
{
    if cubes.len() == 0 {
        Ok(acc)
    } else {
        match cube_value(cubes[0]) {
            Ok(cv) => parse_cubes(cubes.drop_first(), apply_cube(acc, cv.0, cv.1)),
            Err(e) => Err(e),
        }
    }
}

/// The hand described by one comma-separated list of cube declarations.
pub open spec fn parse_hand(t: Seq<char>) -> Result<Hand, ParseError> {
    parse_cubes(split_chars(t, seq![',']), zero_hand())
}

/// The hands of one game's semicolon-separated list, first error first.
pub open spec fn parse_hands(parts: Seq<Seq<char>>) -> Result<Seq<Hand>, ParseError>
    decreases parts.len(),
{
    if parts.len() == 0 {
        Ok(Seq::empty())
    } else {
        match parse_hand(parts[0]) {
            Ok(h) => match parse_hands(parts.drop_first()) {
                Ok(rest) => Ok(seq![h] + rest),
                Err(e) => Err(e),
            },
            Err(e) => Err(e),
        }
    }
}

/// One game line, read as its id and hands: the text split at its first
/// `:`, the id after the declaration's first space, the hands after the `:`.
pub open spec fn parse_game(t: Seq<char>) -> Result<(int, Seq<Hand>), ParseError> {
    match find_index(t, ':') {
        None => Err(ParseError::InvalidGame),
        Some(p) => {
            let declaration = t.take(p);
            let cubes = t.skip(p + 1);
            match find_index(declaration, ' ') {
                None => Err(ParseError::InvalidGameId),
                Some(q) => {
                    let id_s = declaration.skip(q + 1);
                    if !is_u32_text(id_s) {
                        Err(ParseError::InvalidNumber)
                    } else {
                        match parse_hands(split_chars(cubes, seq![';'])) {
                            Ok(hs) => Ok((digits_value(id_s) as int, hs)),
                            Err(e) => Err(e),
                        }
                    }
                },
            }
        },
    }
}

/// The games of the given lines, first error first.
pub open spec fn parse_games(lines: Seq<Seq<char>>) -> Result<
    Seq<(int, Seq<Hand>)>,
    ParseError,
>
    decreases lines.len(),
{
    if lines.len() == 0 {
        Ok(Seq::empty())
    } else {
        match parse_game(lines[0]) {
            Ok(g) => match parse_games(lines.drop_first()) {
                Ok(rest) => Ok(seq![g] + rest),
                Err(e) => Err(e),
            },
            Err(e) => Err(e),
        }
    }
}

/// A game as its mathematical reading: id and hand sequence.
pub open spec fn game_view(g: Game) -> (int, Seq<Hand>) {
    (g.id as int, g.hands@)
}

/// The larger of each colour count.
pub open spec fn hand_max(a: Hand, b: Hand) -> Hand {
    Hand {
        red: if a.red >= b.red {
            a.red
        } else {
            b.red
        },
        green: if a.green >= b.green {
            a.green
        } else {
            b.green
        },
        blue: if a.blue >= b.blue {
            a.blue
        } else {
            b.blue
        },
    }
}

/// The colour-wise maximum of the hands, folded left onto `acc`.
pub open spec fn fold_max(hands: Seq<Hand>, acc: Hand) -> Hand
    decreases hands.len(),
{
    if hands.len() == 0 {
        acc
    } else {
        fold_max(hands.drop_first(), hand_max(acc, hands[0]))
    }
}

/// The power of a game: the product of the fewest cubes of each colour
/// that could have made its hands possible.
pub open spec fn game_power(hands: Seq<Hand>) -> int {
    let m = fold_max(hands, zero_hand());
    m.red * m.green * m.blue
}

/// The power's two products, in evaluation order, both fit in a `u32`.
pub open spec fn power_fits(hands: Seq<Hand>) -> bool {
    let m = fold_max(hands, zero_hand());
    m.red * m.green <= u32::MAX && m.red * m.green * m.blue <= u32::MAX
}

/// Every hand of `hands` stays within `limits`.
pub open spec fn game_valid(hands: Seq<Hand>, limits: Hand) -> bool {
    forall|j: int| 0 <= j < hands.len() ==> hand_within(#[trigger] hands[j], limits)
}

impl Hand {
    /// A hand with the given counts.
    pub fn new(red: u32, green: u32, blue: u32) -> (h: Hand)
        ensures
            h == (Hand { red, green, blue }),
    {
        Hand { red, green, blue }
    }

    /// The hand described by a comma-separated list of cube declarations,
    /// such as `3 blue, 4 red`. Errors exactly as `parse_hand` reads it.
    pub fn parse(input: &str) -> (r: Result<Hand, ParseError>)
        ensures
            r == parse_hand(input@),
    {
        let ghost cubes = split_chars(input@, seq![',']);
        let mut seps: Vec<char> = Vec::new();
        seps.push(',');
        proof {
            assert(seps@ =~= seq![',']);
        }
        let parts = split_by(input, &seps);
        let mut hand = Hand { red: 0, green: 0, blue: 0 };
        let mut k: usize = 0;
        proof {
            assert(cubes.skip(0) =~= cubes);
        }
        while k < parts.len()
            invariant
                0 <= k <= parts@.len(),
                parts.deep_view() == cubes,
                parts@.len() == cubes.len(),
                parse_cubes(cubes.skip(k as int), hand) == parse_hand(input@),
            decreases parts@.len() - k,
        {
            proof {
                assert(parts@[k as int]@ == cubes[k as int]);
                assert(cubes.skip(k as int)[0] == cubes[k as int]);
                assert(cubes.skip(k as int).drop_first() =~= cubes.skip(k + 1));
            }
            let ct = trim_str(parts[k].as_str());
            match split_first(ct.as_str(), ' ') {
                None => {
                    return Err(ParseError::InvalidCube);
                },
                Some(halves) => {
                    let count_s = trim_str(halves.0.as_str());
                    let colour_s = trim_str(halves.1.as_str());
                    let count = match parse_u32(count_s.as_str()) {
                        Some(v) => v,
                        None => {
                            return Err(ParseError::InvalidNumber);
                        },
                    };
                    proof {
                        reveal_strlit("red");
                        reveal_strlit("green");
                        reveal_strlit("blue");
                        assert("red"@ =~= seq!['r', 'e', 'd']);
                        assert("green"@ =~= seq!['g', 'r', 'e', 'e', 'n']);
                        assert("blue"@ =~= seq!['b', 'l', 'u', 'e']);
                    }
                    if colour_s == String::from_str("red") {
                        hand = Hand { red: count, green: hand.green, blue: hand.blue };
                    } else if colour_s == String::from_str("green") {
                        hand = Hand { red: hand.red, green: count, blue: hand.blue };
                    } else if colour_s == String::from_str("blue") {
                        hand = Hand { red: hand.red, green: hand.green, blue: count };
                    } else {
                        return Err(ParseError::InvalidColour);
                    }
                },
            }
            k += 1;
        }
        proof {
            assert(cubes.skip(cubes.len() as int).len() == 0);
        }
        Ok(hand)
    }

    /// Whether this hand stays within `limits`, colour by colour.
    pub fn is_valid(&self, limits: &Hand) -> (b: bool)
        ensures
            b == hand_within(*self, *limits),
    {
        self.red <= limits.red && self.green <= limits.green && self.blue <= limits.blue
    }

    /// The product of the three colour counts.
    pub fn power(&self) -> (p: u32)
        requires
            self.red * self.green <= u32::MAX,
            self.red * self.green * self.blue <= u32::MAX,
        ensures
            p == self.red * self.green * self.blue,
    {
        self.red * self.green * self.blue
    }
}

impl Game {
    /// The games of the input, one per line, first error first.
    /// The input is read with trailing newlines trimmed.
    pub fn parse_many(input: &Input) -> (r: Result<Vec<Game>, ParseError>)
        ensures
            match parse_games(split_lines(trim_newlines(input@))) {
                Ok(gs) => r is Ok && r->Ok_0@.map_values(|g: Game| game_view(g)) == gs,
                Err(e) => r == Err::<Vec<Game>, ParseError>(e),
            },
    {
        let ghost all = split_lines(trim_newlines(input@));
        let lines = input.trim_trailing_newlines().as_lines();
        let mut out: Vec<Game> = Vec::new();
        let mut k: usize = 0;
        proof {
            assert(all.take(0) =~= Seq::<Seq<char>>::empty());
            assert(out@.map_values(|g: Game| game_view(g)) =~= Seq::<(int, Seq<Hand>)>::empty());
        }
        while k < lines.len()
            invariant
                0 <= k <= lines@.len(),
                all == split_lines(trim_newlines(input@)),
                lines.deep_view() == all,
                all.len() == lines@.len(),
                parse_games(all.take(k as int)) == Ok::<Seq<(int, Seq<Hand>)>, ParseError>(
                    out@.map_values(|g: Game| game_view(g)),
                ),
            decreases lines@.len() - k,
        {
            let ghost pre = out@.map_values(|g: Game| game_view(g));
            proof {
                assert(all[k as int] == lines@[k as int]@);
            }
            match Game::parse(lines[k].as_str()) {
                Ok(g) => {
                    let ghost gv = game_view(g);
                    out.push(g);
                    proof {
                        lemma_parse_games_push(all.take(k as int), all[k as int]);
                        assert(all.take(k + 1) =~= all.take(k as int).push(all[k as int]));
                        assert(out@.map_values(|g2: Game| game_view(g2)) =~= pre.push(gv));
                        assert(pre.push(gv) =~= pre + seq![gv]);
                        assert(parse_games(all.take(k + 1)) == Ok::<
                            Seq<(int, Seq<Hand>)>,
                            ParseError,
                        >(pre.push(gv)));
                    }
                },
                Err(e) => {
                    proof {
                        assert(parse_game(all[k as int]) == Err::<(int, Seq<Hand>), ParseError>(e));
                        lemma_parse_games_err(all, k as int, e);
                        assert(parse_games(all) == Err::<Seq<(int, Seq<Hand>)>, ParseError>(e));
                    }
                    return Err(e);
                },
            }
            k += 1;
        }
        proof {
            assert(all.take(all.len() as int) =~= all);
        }
        Ok(out)
    }

    /// The game of one line, such as `Game 1: 3 blue, 4 red; 2 green`.
    /// Errors exactly as `parse_game` reads it.
    pub fn parse(input: &str) -> (r: Result<Game, ParseError>)
        ensures
            match parse_game(input@) {
                Ok(g) => r is Ok && game_view(r->Ok_0) == g,
                Err(e) => r == Err::<Game, ParseError>(e),
            },
    {
        let halves = match split_first(input, ':') {
            Some(h) => h,
            None => {
                return Err(ParseError::InvalidGame);
            },
        };
        let declaration = halves.0;
        let cubes = halves.1;
        let id_part = match split_first(declaration.as_str(), ' ') {
            Some(h) => h.1,
            None => {
                return Err(ParseError::InvalidGameId);
            },
        };
        let id = match parse_u32(id_part.as_str()) {
            Some(v) => v,
            None => {
                return Err(ParseError::InvalidNumber);
            },
        };
        let ghost hand_texts = split_chars(cubes@, seq![';']);
        proof {
            let t = input@;
            assert(find_index(t, ':') is Some);
            let p = find_index(t, ':')->Some_0;
            assert(declaration@ == t.take(p));
            assert(cubes@ == t.skip(p + 1));
            assert(find_index(t.take(p), ' ') is Some);
            let q = find_index(t.take(p), ' ')->Some_0;
            assert(id_part@ == t.take(p).skip(q + 1));
            assert(is_u32_text(t.take(p).skip(q + 1)));
            assert(id as int == digits_value(t.take(p).skip(q + 1)));
            assert(hand_texts == split_chars(t.skip(p + 1), seq![';']));
        }
        let mut seps: Vec<char> = Vec::new();
        seps.push(';');
        proof {
            assert(seps@ =~= seq![';']);
        }
        let parts = split_by(cubes.as_str(), &seps);
        let mut hands: Vec<Hand> = Vec::new();
        let mut k: usize = 0;
        proof {
            assert(hand_texts.skip(0) =~= hand_texts);
            assert(parse_hands(hand_texts) == parse_hands(hand_texts.skip(0)));
            assert(hands@ + Seq::<Hand>::empty() =~= hands@);
        }
        while k < parts.len()
            invariant
                0 <= k <= parts@.len(),
                parts.deep_view() == hand_texts,
                parts@.len() == hand_texts.len(),
                parse_game(input@) == (match parse_hands(hand_texts) {
                    Ok(hs) => Ok::<(int, Seq<Hand>), ParseError>((id as int, hs)),
                    Err(e) => Err::<(int, Seq<Hand>), ParseError>(e),
                }),
                parse_hands(hand_texts) == (match parse_hands(hand_texts.skip(k as int)) {
                    Ok(rest) => Ok::<Seq<Hand>, ParseError>(hands@ + rest),
                    Err(e) => Err::<Seq<Hand>, ParseError>(e),
                }),
            decreases parts@.len() - k,
        {
            let ghost pre = hands@;
            proof {
                assert(parts@[k as int]@ == hand_texts[k as int]);
                assert(hand_texts.skip(k as int)[0] == hand_texts[k as int]);
                assert(hand_texts.skip(k as int).drop_first() =~= hand_texts.skip(k + 1));
            }
            match Hand::parse(parts[k].as_str()) {
                Ok(h) => {
                    hands.push(h);
                    proof {
                        assert(hands@ =~= pre.push(h));
                        assert forall|rest: Seq<Hand>| pre + (seq![h] + rest) =~= hands@
                            + rest by {}
                    }
                },
                Err(e) => {
                    proof {
                        assert(parse_hands(hand_texts.skip(k as int)) == Err::<
                            Seq<Hand>,
                            ParseError,
                        >(e));
                        assert(parse_hands(hand_texts) == Err::<Seq<Hand>, ParseError>(e));
                        assert(parse_game(input@) == Err::<(int, Seq<Hand>), ParseError>(e));
                    }
                    return Err(e);
                },
            }
            k += 1;
        }
        proof {
            assert(hand_texts.skip(hand_texts.len() as int).len() == 0);
            assert(hands@ + Seq::<Hand>::empty() =~= hands@);
        }
        Ok(Game { id, hands })
    }

    /// Whether every hand of this game stays within `limits`.
    pub fn is_valid(&self, limits: &Hand) -> (b: bool)
        ensures
            b == game_valid(self.hands@, *limits),
    {
        let mut k: usize = 0;
        while k < self.hands.len()
            invariant
                0 <= k <= self.hands@.len(),
                forall|j: int| 0 <= j < k ==> hand_within(#[trigger] self.hands@[j], *limits),
            decreases self.hands@.len() - k,
        {
            if !self.hands[k].is_valid(limits) {
                return false;
            }
            k += 1;
        }
        true
    }

    /// The power of this game: the product of the largest count of each
    /// colour over its hands.
    pub fn power(&self) -> (p: u32)
        requires
            power_fits(self.hands@),
        ensures
            p == game_power(self.hands@),
    {
        let mut maximums = Hand { red: 0, green: 0, blue: 0 };
        let mut k: usize = 0;
        proof {
            assert(self.hands@.skip(0) =~= self.hands@);
        }
        while k < self.hands.len()
            invariant
                0 <= k <= self.hands@.len(),
                fold_max(self.hands@.skip(k as int), maximums) == fold_max(
                    self.hands@,
                    zero_hand(),
                ),
            decreases self.hands@.len() - k,
        {
            proof {
                assert(self.hands@.skip(k as int)[0] == self.hands@[k as int]);
                assert(self.hands@.skip(k as int).drop_first() =~= self.hands@.skip(k + 1));
            }
            let h = self.hands[k];
            maximums = Hand {
                red: if maximums.red >= h.red {
                    maximums.red
                } else {
                    h.red
                },
                green: if maximums.green >= h.green {
                    maximums.green
                } else {
                    h.green
                },
                blue: if maximums.blue >= h.blue {
                    maximums.blue
                } else {
                    h.blue
                },
            };
            k += 1;
        }
        maximums.red * maximums.green * maximums.blue
    }
}

/// Appending a line extends the parsed games with its game, or fails as it
/// fails once every earlier line parsed.
proof fn lemma_parse_games_push(lines: Seq<Seq<char>>, x: Seq<char>)
    ensures
        parse_games(lines.push(x)) == (if parse_games(lines) is Err {
            parse_games(lines)
        } else if parse_game(x) is Err {
            Err::<Seq<(int, Seq<Hand>)>, ParseError>(parse_game(x)->Err_0)
        } else {
            Ok::<Seq<(int, Seq<Hand>)>, ParseError>(
                parse_games(lines)->Ok_0.push(parse_game(x)->Ok_0),
            )
        }),
    decreases lines.len(),
{
    let p = lines.push(x);
    if lines.len() == 0 {
        assert(p.len() == 1);
        assert(p[0] == x);
        assert(p.drop_first() =~= Seq::<Seq<char>>::empty());
        match parse_game(x) {
            Ok(g) => {
                assert(parse_games(p) == Ok::<Seq<(int, Seq<Hand>)>, ParseError>(
                    seq![g] + Seq::<(int, Seq<Hand>)>::empty(),
                ));
                assert(seq![g] + Seq::<(int, Seq<Hand>)>::empty() =~= Seq::<
                    (int, Seq<Hand>),
                >::empty().push(g));
            },
            Err(_) => {},
        }
    } else {
        assert(p[0] == lines[0]);
        assert(p.drop_first() =~= lines.drop_first().push(x));
        lemma_parse_games_push(lines.drop_first(), x);
        match parse_game(lines[0]) {
            Ok(g0) => {
                match parse_games(lines.drop_first()) {
                    Ok(rest) => {
                        match parse_game(x) {
                            Ok(g) => {
                                assert(seq![g0] + rest.push(g) =~= (seq![g0] + rest).push(g));
                            },
                            Err(_) => {},
                        }
                    },
                    Err(_) => {},
                }
            },
            Err(_) => {},
        }
    }
}

/// A line that fails to parse, after a clean prefix, fails the whole list
/// with its own error.
proof fn lemma_parse_games_err(lines: Seq<Seq<char>>, k: int, e: ParseError)
    requires
        0 <= k < lines.len(),
        parse_games(lines.take(k)) is Ok,
        parse_game(lines[k]) == Err::<(int, Seq<Hand>), ParseError>(e),
    ensures
        parse_games(lines) == Err::<Seq<(int, Seq<Hand>)>, ParseError>(e),
    decreases k,
{
    if k == 0 {
    } else {
        assert(lines.take(k)[0] == lines[0]);
        assert(parse_game(lines[0]) is Ok);
        assert(lines.take(k).drop_first() =~= lines.drop_first().take(k - 1));
        assert(parse_games(lines.take(k).drop_first()) is Ok);
        assert(lines.drop_first()[k - 1] == lines[k]);
        lemma_parse_games_err(lines.drop_first(), k - 1, e);
    }
}

/// The limit hand of the first puzzle question.
pub open spec fn day_limits() -> Hand {
    Hand { red: 12, green: 13, blue: 14 }
}

/// The sum of the ids of the games valid under `limits`.
pub open spec fn games_id_sum(gs: Seq<(int, Seq<Hand>)>, limits: Hand) -> int
    decreases gs.len(),
{
    if gs.len() == 0 {
        0
    } else {
        (if game_valid(gs[0].1, limits) {
            gs[0].0
        } else {
            0
        }) + games_id_sum(gs.drop_first(), limits)
    }
}

/// The sum of the powers of the games.
pub open spec fn games_power_sum(gs: Seq<(int, Seq<Hand>)>) -> int
    decreases gs.len(),
{
    if gs.len() == 0 {
        0
    } else {
        game_power(gs[0].1) + games_power_sum(gs.drop_first())
    }
}

/// Ids read from `u32` games are never negative, so neither is their sum.
proof fn lemma_id_sum_nonneg(gs: Seq<(int, Seq<Hand>)>, limits: Hand)
    requires
        forall|j: int| 0 <= j < gs.len() ==> (#[trigger] gs[j]).0 >= 0,
    ensures
        games_id_sum(gs, limits) >= 0,
    decreases gs.len(),
{
    if gs.len() > 0 {
        assert(forall|j: int|
            0 <= j < gs.drop_first().len() ==> (#[trigger] gs.drop_first()[j]).0 >= 0);
        lemma_id_sum_nonneg(gs.drop_first(), limits);
    }
}

/// A game's power is a product of counts, never negative.
proof fn lemma_power_nonneg(hands: Seq<Hand>)
    ensures
        game_power(hands) >= 0,
{
    let m = fold_max(hands, zero_hand());
    assert(m.red * m.green >= 0) by (nonlinear_arith);
    assert(m.red * m.green * m.blue >= 0) by (nonlinear_arith);
}

proof fn lemma_power_sum_nonneg(gs: Seq<(int, Seq<Hand>)>)
    ensures
        games_power_sum(gs) >= 0,
    decreases gs.len(),
{
    if gs.len() > 0 {
        lemma_power_nonneg(gs[0].1);
        lemma_power_sum_nonneg(gs.drop_first());
    }
}

/// The sum of the ids of the games valid under 12 red, 13 green, 14 blue.
/// Fails exactly as parsing the lines fails.
pub fn part1(input: &Input) -> (r: Result<u32, ParseError>)
    requires
        parse_games(split_lines(trim_newlines(input@))) is Ok ==> games_id_sum(
            parse_games(split_lines(trim_newlines(input@)))->Ok_0,
            day_limits(),
        ) <= u32::MAX,
    ensures
        match parse_games(split_lines(trim_newlines(input@))) {
            Ok(gs) => r == Ok::<u32, ParseError>(games_id_sum(gs, day_limits()) as u32),
            Err(e) => r == Err::<u32, ParseError>(e),
        },
{
    let ghost gs = parse_games(split_lines(trim_newlines(input@)))->Ok_0;
    let games = match Game::parse_many(input) {
        Ok(v) => v,
        Err(e) => {
            return Err(e);
        },
    };
    let limits = Hand::new(12, 13, 14);
    let mut acc: u32 = 0;
    let mut k: usize = 0;
    proof {
        assert(games@.map_values(|g: Game| game_view(g)) == gs);
        assert(gs.skip(0) =~= gs);
        assert(forall|j: int| 0 <= j < gs.len() ==> (#[trigger] gs[j]).0 >= 0);
    }
    while k < games.len()
        invariant
            0 <= k <= games@.len(),
            games@.map_values(|g: Game| game_view(g)) == gs,
            gs.len() == games@.len(),
            limits == day_limits(),
            forall|j: int| 0 <= j < gs.len() ==> (#[trigger] gs[j]).0 >= 0,
            games_id_sum(gs, day_limits()) <= u32::MAX,
            acc + games_id_sum(gs.skip(k as int), day_limits()) == games_id_sum(gs, day_limits()),
        decreases games@.len() - k,
    {
        proof {
            assert(gs[k as int] == game_view(games@[k as int]));
            assert(gs.skip(k as int)[0] == gs[k as int]);
            assert(gs.skip(k as int).drop_first() =~= gs.skip(k + 1));
            assert(forall|j: int|
                0 <= j < gs.skip(k as int).len() ==> (#[trigger] gs.skip(k as int)[j]).0 >= 0);
            lemma_id_sum_nonneg(gs.skip(k as int), day_limits());
            lemma_id_sum_nonneg(gs.skip(k + 1), day_limits());
        }
        if games[k].is_valid(&limits) {
            acc = acc + games[k].id;
        }
        k += 1;
    }
    proof {
        assert(gs.skip(gs.len() as int).len() == 0);
    }
    Ok(acc)
}

/// The sum of the powers of all games. Fails exactly as parsing fails.
pub fn part2(input: &Input) -> (r: Result<u32, ParseError>)
    requires
        parse_games(split_lines(trim_newlines(input@))) is Ok ==> {
            let gs = parse_games(split_lines(trim_newlines(input@)))->Ok_0;
            &&& forall|j: int| 0 <= j < gs.len() ==> power_fits((#[trigger] gs[j]).1)
            &&& games_power_sum(gs) <= u32::MAX
        },
    ensures
        match parse_games(split_lines(trim_newlines(input@))) {
            Ok(gs) => r == Ok::<u32, ParseError>(games_power_sum(gs) as u32),
            Err(e) => r == Err::<u32, ParseError>(e),
        },
{
    let ghost gs = parse_games(split_lines(trim_newlines(input@)))->Ok_0;
    let games = match Game::parse_many(input) {
        Ok(v) => v,
        Err(e) => {
            return Err(e);
        },
    };
    let mut acc: u32 = 0;
    let mut k: usize = 0;
    proof {
        assert(games@.map_values(|g: Game| game_view(g)) == gs);
        assert(gs.skip(0) =~= gs);
    }
    while k < games.len()
        invariant
            0 <= k <= games@.len(),
            games@.map_values(|g: Game| game_view(g)) == gs,
            gs.len() == games@.len(),
            forall|j: int| 0 <= j < gs.len() ==> power_fits((#[trigger] gs[j]).1),
            games_power_sum(gs) <= u32::MAX,
            acc + games_power_sum(gs.skip(k as int)) == games_power_sum(gs),
        decreases games@.len() - k,
    {
        proof {
            assert(gs[k as int] == game_view(games@[k as int]));
            assert(gs.skip(k as int)[0] == gs[k as int]);
            assert(gs.skip(k as int).drop_first() =~= gs.skip(k + 1));
            lemma_power_sum_nonneg(gs.skip(k as int));
            lemma_power_sum_nonneg(gs.skip(k + 1));
            lemma_power_nonneg(gs[k as int].1);
        }
        let p = games[k].power();
        acc = acc + p;
        k += 1;
    }
    proof {
        assert(gs.skip(gs.len() as int).len() == 0);
    }
    Ok(acc)
}

} // verus!
