//! Scratchcards: winning numbers against drawn numbers, the score of one
//! card, and the cascade of card copies that matches earn.

use vstd::prelude::*;

use itertools::Itertools;

use vstd::arithmetic::power2::{
    lemma2_to64, lemma2_to64_rest, lemma_pow2_strictly_increases, lemma_pow2_unfold, pow2,
};

use crate::error::ParseError;
use crate::input::{trim_newlines, Input};
use crate::text::{is_u32_text, digits_value, parse_u32, split_by, split_chars, split_lines,
    trim_spaces, trim_str};

verus! {

/// One scratchcard: the winning numbers and the numbers drawn, each kept
/// once in first-seen order.
#[derive(Clone, Debug, PartialEq, Eq)]
pub struct Card {
    pub winners: Vec<u32>,
    pub numbers: Vec<u32>,
}

/// The numbers named by space-separated chunks, blanks skipped, each value
/// kept once, in first-seen order, onto `acc`.
pub open spec fn parse_num_list(chunks: Seq<Seq<char>>, acc: Seq<u32>) -> Result<
    Seq<u32>,
    ParseError,
>
    decreases chunks.len(),
{
    if chunks.len() == 0 {
        Ok(acc)
    } else {
        let ct = trim_spaces(chunks[0]);
        if ct.len() == 0 {
            parse_num_list(chunks.drop_first(), acc)
        } else if !is_u32_text(ct) {
            Err(ParseError::InvalidNumber)
        } else {
            let v = digits_value(ct) as u32;
            parse_num_list(
                chunks.drop_first(),
                if acc.contains(v) {
                    acc
                } else {
                    acc.push(v)
                },
            )
        }
    }
}

/// The distinct numbers of one space-separated list.
pub open spec fn parse_nums(t: Seq<char>) -> Result<Seq<u32>, ParseError> {
    parse_num_list(split_chars(t, seq![' ']), Seq::empty())
}

/// One card line, split on `:` and `|` into declaration, winners and drawn
/// numbers: exactly three parts, or nothing.
pub open spec fn parse_card(t: Seq<char>) -> Result<(Seq<u32>, Seq<u32>), ParseError> {
    let parts = split_chars(t, seq![':', '|']);
    if parts.len() != 3 {
        Err(ParseError::InvalidCard)
    } else {
        match parse_nums(parts[1]) {
            Ok(w) => match parse_nums(parts[2]) {
                Ok(n) => Ok((w, n)),
                Err(e) => Err(e),
            },
            Err(e) => Err(e),
        }
    }
}

/// The cards of the given lines, first error first.
pub open spec fn parse_cards(lines: Seq<Seq<char>>) -> Result<
    Seq<(Seq<u32>, Seq<u32>)>,
    ParseError,
>
    decreases lines.len(),
{
    if lines.len() == 0 {
        Ok(Seq::empty())
    } else {
        match parse_card(lines[0]) {
            Ok(c) => match parse_cards(lines.drop_first()) {
                Ok(rest) => Ok(seq![c] + rest),
                Err(e) => Err(e),
            },
            Err(e) => Err(e),
        }
    }
}

/// A card as its mathematical reading: winners and drawn numbers.
pub open spec fn card_view(c: Card) -> (Seq<u32>, Seq<u32>) {
    (c.winners@, c.numbers@)
}

/// How many of `winners` are among `numbers`.
pub open spec fn match_count(winners: Seq<u32>, numbers: Seq<u32>) -> nat
    decreases winners.len(),
{
    if winners.len() == 0 {
        0
    } else {
        ((if numbers.contains(winners[0]) {
            1nat
        } else {
            0nat
        }) + match_count(winners.drop_first(), numbers)) as nat
    }
}

/// The score of a card with `m` matches: nothing, then doubling from one.
pub open spec fn card_score(m: nat) -> nat {
    if m == 0 {
        0
    } else {
        pow2((m - 1) as nat)
    }
}

/// Whether `x` is among the values of `v`.
fn contains_u32(v: &Vec<u32>, x: u32) -> (b: bool)
    ensures
        b == v@.contains(x),
{
    let mut k: usize = 0;
    while k < v.len()
        invariant
            0 <= k <= v@.len(),
            forall|j: int| 0 <= j < k ==> v@[j] != x,
        decreases v@.len() - k,
    {
        if v[k] == x {
            return true;
        }
        k += 1;
    }
    false
}

/// The distinct numbers of one space-separated list, blanks skipped.
fn parse_num_vec(t: &str) -> (r: Result<Vec<u32>, ParseError>)
    ensures
        match parse_nums(t@) {
            Ok(vs) => r is Ok && r->Ok_0@ == vs,
            Err(e) => r == Err::<Vec<u32>, ParseError>(e),
        },
{
    let ghost chunk_texts = split_chars(t@, seq![' ']);
    let mut seps: Vec<char> = Vec::new();
    seps.push(' ');
    proof {
        assert(seps@ =~= seq![' ']);
    }
    let chunks = split_by(t, &seps);
    let mut out: Vec<u32> = Vec::new();
    let mut k: usize = 0;
    proof {
        assert(chunk_texts.skip(0) =~= chunk_texts);
    }
    while k < chunks.len()
        invariant
            0 <= k <= chunks@.len(),
            chunks.deep_view() == chunk_texts,
            chunks@.len() == chunk_texts.len(),
            parse_num_list(chunk_texts.skip(k as int), out@) == parse_nums(t@),
        decreases chunks@.len() - k,
    {
        proof {
            assert(chunks@[k as int]@ == chunk_texts[k as int]);
            assert(chunk_texts.skip(k as int)[0] == chunk_texts[k as int]);
            assert(chunk_texts.skip(k as int).drop_first() =~= chunk_texts.skip(k + 1));
        }
        let ct = trim_str(chunks[k].as_str());
        if !ct.as_str().is_empty() {
            match parse_u32(ct.as_str()) {
                Some(v) => {
                    if !contains_u32(&out, v) {
                        out.push(v);
                    }
                },
                None => {
                    return Err(ParseError::InvalidNumber);
                },
            }
        }
        k += 1;
    }
    proof {
        assert(chunk_texts.skip(chunk_texts.len() as int).len() == 0);
    }
    Ok(out)
}

/// Relies on itertools' `Itertools::collect_tuple` at triple size: `Some` of
/// the three items, in order, exactly when the iterator yields three.
#[verifier::external_body]
fn collect_triple<T>(v: Vec<T>) -> (r: Option<(T, T, T)>)
    ensures
        v@.len() == 3 ==> r == Some((v@[0], v@[1], v@[2])),
        v@.len() != 3 ==> r is None,
{
    v.into_iter().collect_tuple()
}

impl Card {
    /// The card of one line, such as `Card 1: 41 48 | 83 86 48`.
    /// Errors exactly as `parse_card` reads it.
    pub fn parse(s: &str) -> (r: Result<Card, ParseError>)
        ensures
            match parse_card(s@) {
                Ok(c) => r is Ok && card_view(r->Ok_0) == c,
                Err(e) => r == Err::<Card, ParseError>(e),
            },
    {
        let ghost part_texts = split_chars(s@, seq![':', '|']);
        let mut seps: Vec<char> = Vec::new();
        seps.push(':');
        seps.push('|');
        proof {
            assert(seps@ =~= seq![':', '|']);
        }
        let parts = split_by(s, &seps);
        let triple = match collect_triple(parts) {
            Some(p) => p,
            None => {
                return Err(ParseError::InvalidCard);
            },
        };
        let winners = match parse_num_vec(triple.1.as_str()) {
            Ok(v) => v,
            Err(e) => {
                return Err(e);
            },
        };
        let numbers = match parse_num_vec(triple.2.as_str()) {
            Ok(v) => v,
            Err(e) => {
                return Err(e);
            },
        };
        Ok(Card { winners, numbers })
    }

    /// How many of this card's winning numbers were drawn.
    pub fn matches(&self) -> (m: usize)
        ensures
            m == match_count(self.winners@, self.numbers@),
    {
        let mut cnt: usize = 0;
        let mut k: usize = 0;
        proof {
            assert(self.winners@.skip(0) =~= self.winners@);
        }
        while k < self.winners.len()
            invariant
                0 <= k <= self.winners@.len(),
                cnt <= k,
                cnt + match_count(self.winners@.skip(k as int), self.numbers@) == match_count(
                    self.winners@,
                    self.numbers@,
                ),
            decreases self.winners@.len() - k,
        {
            proof {
                assert(self.winners@.skip(k as int)[0] == self.winners@[k as int]);
                assert(self.winners@.skip(k as int).drop_first() =~= self.winners@.skip(k + 1));
            }
            if contains_u32(&self.numbers, self.winners[k]) {
                cnt += 1;
            }
            k += 1;
        }
        proof {
            assert(self.winners@.skip(self.winners@.len() as int).len() == 0);
        }
        cnt
    }

    /// The score of this card: zero without a match, else doubling from one
    /// for each further match.
    pub fn score(&self) -> (r: u64)
        requires
            match_count(self.winners@, self.numbers@) <= 64,
        ensures
            r == card_score(match_count(self.winners@, self.numbers@)),
    {
        let m = self.matches();
        if m == 0 {
            return 0;
        }
        let mut p: u64 = 1;
        let mut j: usize = 0;
        proof {
            lemma2_to64();
            lemma2_to64_rest();
        }
        while j < m - 1
            invariant
                0 <= j <= m - 1 <= 63,
                p == pow2(j as nat),
                pow2(64) == 0x10000000000000000,
            decreases m - j,
        {
            proof {
                lemma_pow2_unfold((j + 1) as nat);
                lemma_pow2_strictly_increases((j + 1) as nat, 64);
            }
            p = p * 2;
            j += 1;
        }
        p
    }
}

/// Appending a line extends the parsed cards with its card, or fails as it
/// fails once every earlier line parsed.
proof fn lemma_parse_cards_push(lines: Seq<Seq<char>>, x: Seq<char>)
    ensures
        parse_cards(lines.push(x)) == (if parse_cards(lines) is Err {
            parse_cards(lines)
        } else if parse_card(x) is Err {
            Err::<Seq<(Seq<u32>, Seq<u32>)>, ParseError>(parse_card(x)->Err_0)
        } else {
            Ok::<Seq<(Seq<u32>, Seq<u32>)>, ParseError>(
                parse_cards(lines)->Ok_0.push(parse_card(x)->Ok_0),
            )
        }),
    decreases lines.len(),
{
    let p = lines.push(x);
    if lines.len() == 0 {
        assert(p.len() == 1);
        assert(p[0] == x);
        assert(p.drop_first() =~= Seq::<Seq<char>>::empty());
        match parse_card(x) {
            Ok(c) => {
                assert(parse_cards(p.drop_first()) == Ok::<Seq<(Seq<u32>, Seq<u32>)>, ParseError>(
                    Seq::<(Seq<u32>, Seq<u32>)>::empty(),
                ));
                assert(parse_card(p[0]) == Ok::<(Seq<u32>, Seq<u32>), ParseError>(c));
                assert(parse_cards(p) == Ok::<Seq<(Seq<u32>, Seq<u32>)>, ParseError>(
                    seq![c] + Seq::<(Seq<u32>, Seq<u32>)>::empty(),
                ));
                assert(seq![c] + Seq::<(Seq<u32>, Seq<u32>)>::empty() =~= Seq::<
                    (Seq<u32>, Seq<u32>),
                >::empty().push(c));
            },
            Err(_) => {},
        }
    } else {
        assert(p[0] == lines[0]);
        assert(p.drop_first() =~= lines.drop_first().push(x));
        lemma_parse_cards_push(lines.drop_first(), x);
        match parse_card(lines[0]) {
            Ok(c0) => {
                match parse_cards(lines.drop_first()) {
                    Ok(rest) => {
                        match parse_card(x) {
                            Ok(c) => {
                                assert(seq![c0] + rest.push(c) =~= (seq![c0] + rest).push(c));
                            },
                            Err(_) => {},
                        }
                    },
                    Err(_) => {},
                }
            },
            Err(_) => {},
        }
    }
}

/// A line that fails to parse, after a clean prefix, fails the whole list
/// with its own error.
proof fn lemma_parse_cards_err(lines: Seq<Seq<char>>, k: int, e: ParseError)
    requires
        0 <= k < lines.len(),
        parse_cards(lines.take(k)) is Ok,
        parse_card(lines[k]) == Err::<(Seq<u32>, Seq<u32>), ParseError>(e),
    ensures
        parse_cards(lines) == Err::<Seq<(Seq<u32>, Seq<u32>)>, ParseError>(e),
    decreases k,
{
    if k == 0 {
    } else {
        assert(lines.take(k)[0] == lines[0]);
        assert(parse_card(lines[0]) is Ok);
        assert(lines.take(k).drop_first() =~= lines.drop_first().take(k - 1));
        assert(parse_cards(lines.take(k).drop_first()) is Ok);
        assert(lines.drop_first()[k - 1] == lines[k]);
        lemma_parse_cards_err(lines.drop_first(), k - 1, e);
    }
}

/// The cards of the input, one per line, first error first.
/// The input is read with trailing newlines trimmed.
fn parse_all_cards(input: &Input) -> (r: Result<Vec<Card>, ParseError>)
    ensures
        match parse_cards(split_lines(trim_newlines(input@))) {
            Ok(cs) => r is Ok && r->Ok_0@.map_values(|c: Card| card_view(c)) == cs,
            Err(e) => r == Err::<Vec<Card>, ParseError>(e),
        },
{
    let ghost all = split_lines(trim_newlines(input@));
    let lines = input.trim_trailing_newlines().as_lines();
    let mut out: Vec<Card> = Vec::new();
    let mut k: usize = 0;
    proof {
        assert(all.take(0) =~= Seq::<Seq<char>>::empty());
        assert(out@.map_values(|c: Card| card_view(c)) =~= Seq::<(Seq<u32>, Seq<u32>)>::empty());
    }
    while k < lines.len()
        invariant
            0 <= k <= lines@.len(),
            all == split_lines(trim_newlines(input@)),
            lines.deep_view() == all,
            all.len() == lines@.len(),
            parse_cards(all.take(k as int)) == Ok::<Seq<(Seq<u32>, Seq<u32>)>, ParseError>(
                out@.map_values(|c: Card| card_view(c)),
            ),
        decreases lines@.len() - k,
    {
        let ghost pre = out@.map_values(|c: Card| card_view(c));
        proof {
            assert(all[k as int] == lines@[k as int]@);
        }
        match Card::parse(lines[k].as_str()) {
            Ok(c) => {
                let ghost cv = card_view(c);
                out.push(c);
                proof {
                    lemma_parse_cards_push(all.take(k as int), all[k as int]);
                    assert(all.take(k + 1) =~= all.take(k as int).push(all[k as int]));
                    assert(out@.map_values(|c2: Card| card_view(c2)) =~= pre.push(cv));
                }
            },
            Err(e) => {
                proof {
                    assert(parse_card(all[k as int]) == Err::<(Seq<u32>, Seq<u32>), ParseError>(e));
                    lemma_parse_cards_err(all, k as int, e);
                }
                return Err(e);
            },
        }
        k += 1;
    }
    proof {
        assert(all.take(all.len() as int) =~= all);
    }
    Ok(out)
}

/// Every card of the list has at most 64 matches, so its score fits.
pub open spec fn cards_score_in_range(cs: Seq<(Seq<u32>, Seq<u32>)>) -> bool {
    forall|j: int|
        0 <= j < cs.len() ==> match_count((#[trigger] cs[j]).0, cs[j].1) <= 64
}

/// The sum of the cards' scores.
pub open spec fn scores_sum(cs: Seq<(Seq<u32>, Seq<u32>)>) -> nat
    decreases cs.len(),
{
    if cs.len() == 0 {
        0
    } else {
        (card_score(match_count(cs[0].0, cs[0].1)) + scores_sum(cs.drop_first())) as nat
    }
}

/// The sum of the scores of all cards. Fails exactly as parsing fails.
pub fn part1(input: &Input) -> (r: Result<u64, ParseError>)
    requires
        parse_cards(split_lines(trim_newlines(input@))) is Ok ==> {
            let cs = parse_cards(split_lines(trim_newlines(input@)))->Ok_0;
            &&& cards_score_in_range(cs)
            &&& scores_sum(cs) <= u64::MAX
        },
    ensures
        match parse_cards(split_lines(trim_newlines(input@))) {
            Ok(cs) => r == Ok::<u64, ParseError>(scores_sum(cs) as u64),
            Err(e) => r == Err::<u64, ParseError>(e),
        },
{
    let ghost cs = parse_cards(split_lines(trim_newlines(input@)))->Ok_0;
    let cards = match parse_all_cards(input) {
        Ok(v) => v,
        Err(e) => {
            return Err(e);
        },
    };
    let mut acc: u64 = 0;
    let mut k: usize = 0;
    proof {
        assert(cards@.map_values(|c: Card| card_view(c)) == cs);
        assert(cs.skip(0) =~= cs);
    }
    while k < cards.len()
        invariant
            0 <= k <= cards@.len(),
            cards@.map_values(|c: Card| card_view(c)) == cs,
            cs.len() == cards@.len(),
            cards_score_in_range(cs),
            scores_sum(cs) <= u64::MAX,
            acc + scores_sum(cs.skip(k as int)) == scores_sum(cs),
        decreases cards@.len() - k,
    {
        proof {
            assert(cs[k as int] == card_view(cards@[k as int]));
            assert(cs.skip(k as int)[0] == cs[k as int]);
            assert(cs.skip(k as int).drop_first() =~= cs.skip(k + 1));
        }
        let s = cards[k].score();
        acc = acc + s;
        k += 1;
    }
    proof {
        assert(cs.skip(cs.len() as int).len() == 0);
    }
    Ok(acc)
}

/// The match counts of the cards, in order.
pub open spec fn matches_of(cs: Seq<(Seq<u32>, Seq<u32>)>) -> Seq<nat> {
    cs.map_values(|c: (Seq<u32>, Seq<u32>)| match_count(c.0, c.1))
}

/// One round of copying: each count from `i + 1` through `i + m` grows by
/// the count at `i`.
pub open spec fn apply_step(c: Seq<nat>, i: int, m: nat) -> Seq<nat> {
    Seq::new(
        c.len(),
        |j: int|
            if i < j <= i + m {
                (c[j] + c[i]) as nat
            } else {
                c[j]
            },
    )
}

/// The card counts after the first `step` cards have copied forward,
/// starting from one of each.
pub open spec fn counts_after(ms: Seq<nat>, step: int) -> Seq<nat>
    decreases step,
{
    if step <= 0 {
        Seq::new(ms.len(), |j: int| 1nat)
    } else {
        apply_step(counts_after(ms, step - 1), step - 1, ms[step - 1])
    }
}

/// The sum of a sequence of counts.
pub open spec fn sum_nats(s: Seq<nat>) -> nat
    decreases s.len(),
{
    if s.len() == 0 {
        0
    } else {
        (s[0] + sum_nats(s.drop_first())) as nat
    }
}

/// Copying rounds never shrink a count.
proof fn lemma_counts_grow(ms: Seq<nat>, s1: int, s2: int)
    requires
        s1 <= s2,
    ensures
        counts_after(ms, s1).len() == counts_after(ms, s2).len(),
        forall|j: int|
            0 <= j < counts_after(ms, s1).len() ==> #[trigger] counts_after(ms, s1)[j]
                <= counts_after(ms, s2)[j],
    decreases s2 - s1,
{
    if s1 < s2 {
        lemma_counts_grow(ms, s1, s2 - 1);
    }
}

/// The total of all counts after every card has copied forward.
pub open spec fn copied_total(cs: Seq<(Seq<u32>, Seq<u32>)>) -> nat {
    sum_nats(counts_after(matches_of(cs), cs.len() as int))
}

/// Partial sums of counts stay within the total.
proof fn lemma_sum_nats_skip(s: Seq<nat>, k: int)
    requires
        0 <= k < s.len(),
    ensures
        sum_nats(s.skip(k)) == s[k] + sum_nats(s.skip(k + 1)),
{
    assert(s.skip(k)[0] == s[k]);
    assert(s.skip(k).drop_first() =~= s.skip(k + 1));
}

/// How many cards the cascade of copies leaves in hand: each card adds one
/// copy of each of the next `matches` cards for every copy of itself.
/// Fails exactly as parsing fails.
pub fn part2(input: &Input) -> (r: Result<u64, ParseError>)
    requires
        parse_cards(split_lines(trim_newlines(input@))) is Ok ==> {
            let cs = parse_cards(split_lines(trim_newlines(input@)))->Ok_0;
            let total = counts_after(matches_of(cs), cs.len() as int);
            &&& forall|j: int| 0 <= j < total.len() ==> #[trigger] total[j] <= usize::MAX
            &&& sum_nats(total) <= usize::MAX
        },
    ensures
        match parse_cards(split_lines(trim_newlines(input@))) {
            Ok(cs) => r == Ok::<u64, ParseError>(copied_total(cs) as u64),
            Err(e) => r == Err::<u64, ParseError>(e),
        },
{
    let ghost cs = parse_cards(split_lines(trim_newlines(input@)))->Ok_0;
    let ghost ms = matches_of(cs);
    let cards = match parse_all_cards(input) {
        Ok(v) => v,
        Err(e) => {
            return Err(e);
        },
    };
    let n = cards.len();
    let mut counts: Vec<usize> = Vec::new();
    let mut f: usize = 0;
    while f < n
        invariant
            0 <= f <= n,
            counts@.len() == f,
            forall|j: int| 0 <= j < f ==> counts@[j] == 1,
        decreases n - f,
    {
        counts.push(1);
        f += 1;
    }
    proof {
        assert(ms.len() == cs.len());
        assert(counts@.map_values(|v: usize| v as nat) =~= counts_after(ms, 0));
        lemma_counts_grow(ms, 0, n as int);
        assert(counts_after(ms, n as int).len() == n);
    }
    let mut i: usize = 0;
    while i < n
        invariant
            0 <= i <= n,
            n == cards@.len(),
            cards@.map_values(|c: Card| card_view(c)) == cs,
            cs.len() == n,
            ms == matches_of(cs),
            counts@.len() == n,
            counts_after(ms, n as int).len() == n,
            forall|j: int| 0 <= j < n ==> #[trigger] counts_after(ms, n as int)[j] <= usize::MAX,
            counts@.map_values(|v: usize| v as nat) == counts_after(ms, i as int),
        decreases n - i,
    {
        proof {
            assert(cs[i as int] == card_view(cards@[i as int]));
            assert(ms[i as int] == match_count(cs[i as int].0, cs[i as int].1));
        }
        let m = cards[i].matches();
        let remaining = n - (i + 1);
        let span = if m < remaining {
            m
        } else {
            remaining
        };
        let ghost before = counts@.map_values(|v: usize| v as nat);
        let mut j: usize = i + 1;
        while j < i + 1 + span
            invariant
                0 <= i < n,
                i + 1 <= j <= i + 1 + span,
                i + 1 + span <= n,
                span <= m,
                m == ms[i as int],
                i + m >= i + span,
                n == counts@.len(),
                counts@[i as int] as nat == before[i as int],
                before == counts_after(ms, i as int),
                before.len() == n,
                counts_after(ms, n as int).len() == n,
                forall|jj: int|
                    0 <= jj < n ==> #[trigger] counts_after(ms, n as int)[jj] <= usize::MAX,
                forall|jj: int|
                    0 <= jj < n ==> counts@[jj] as nat == (if i < jj < j && jj <= i + m {
                        (before[jj] + before[i as int]) as nat
                    } else {
                        before[jj]
                    }),
            decreases i + 1 + span - j,
        {
            proof {
                lemma_counts_grow(ms, i as int, i + 1);
                lemma_counts_grow(ms, i + 1, n as int);
                assert(counts_after(ms, i + 1)[j as int] == (before[j as int]
                    + before[i as int]) as nat);
                assert(counts_after(ms, i + 1)[j as int] <= counts_after(ms, n as int)[j as int]);
            }
            let add = counts[i];
            let cur = counts[j];
            counts.set(j, cur + add);
            j += 1;
        }
        proof {
            assert(counts@.map_values(|v: usize| v as nat) =~= apply_step(
                before,
                i as int,
                ms[i as int],
            ));
        }
        i += 1;
    }
    let ghost finals = counts_after(ms, n as int);
    let mut acc: usize = 0;
    let mut k: usize = 0;
    proof {
        assert(counts@.map_values(|v: usize| v as nat) == finals);
        assert(finals.skip(0) =~= finals);
        assert(sum_nats(finals) <= usize::MAX);
    }
    while k < n
        invariant
            0 <= k <= n,
            n == counts@.len(),
            counts@.map_values(|v: usize| v as nat) == finals,
            finals.len() == n,
            sum_nats(finals) <= usize::MAX,
            acc + sum_nats(finals.skip(k as int)) == sum_nats(finals),
        decreases n - k,
    {
        proof {
            lemma_sum_nats_skip(finals, k as int);
            assert(counts@[k as int] as nat == finals[k as int]);
        }
        acc = acc + counts[k];
        k += 1;
    }
    proof {
        assert(finals.skip(finals.len() as int).len() == 0);
    }
    Ok(acc as u64)
}

} // verus!
