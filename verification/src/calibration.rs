//! Calibration values: the first and last digit of each line, read either
//! as literal digits alone or with spelled-out digit words counted too.

use vstd::prelude::*;

use crate::error::ParseError;
use crate::input::{trim_newlines, Input};
use crate::text::{digit_char, digit_val, is_digit, split_lines};

verus! {

/// The spelled-out name of digit `k`.
pub open spec fn word_seq(k: int) -> Seq<char> {
    if k == 0 {
        seq!['z', 'e', 'r', 'o']
    } else if k == 1 {
        seq!['o', 'n', 'e']
    } else if k == 2 {
        seq!['t', 'w', 'o']
    } else if k == 3 {
        seq!['t', 'h', 'r', 'e', 'e']
    } else if k == 4 {
        seq!['f', 'o', 'u', 'r']
    } else if k == 5 {
        seq!['f', 'i', 'v', 'e']
    } else if k == 6 {
        seq!['s', 'i', 'x']
    } else if k == 7 {
        seq!['s', 'e', 'v', 'e', 'n']
    } else if k == 8 {
        seq!['e', 'i', 'g', 'h', 't']
    } else {
        seq!['n', 'i', 'n', 'e']
    }
}

/// The name of digit `k` starts at position `i` of `s`.
pub open spec fn is_word_at(s: Seq<char>, i: int, k: int) -> bool {
    &&& 0 <= i
    &&& i + word_seq(k).len() <= s.len()
    &&& s.subrange(i, i + word_seq(k).len() as int) == word_seq(k)
}

/// Digit value `v` is written at position `i` of `s`, as a digit character
/// or as a spelled-out digit word.
pub open spec fn occurs_at(s: Seq<char>, i: int, v: int) -> bool {
    ||| (0 <= i < s.len() && is_digit(s[i]) && v == digit_val(s[i]))
    ||| (0 <= v < 10 && is_word_at(s, i, v))
}

/// Some digit value is written at position `i`.
pub open spec fn any_at(s: Seq<char>, i: int) -> bool {
    exists|v: int| occurs_at(s, i, v)
}

/// The least digit value written at position `i` (10 when none is).
pub open spec fn min_val_at(s: Seq<char>, i: int) -> int {
    if occurs_at(s, i, 0) {
        0
    } else if occurs_at(s, i, 1) {
        1
    } else if occurs_at(s, i, 2) {
        2
    } else if occurs_at(s, i, 3) {
        3
    } else if occurs_at(s, i, 4) {
        4
    } else if occurs_at(s, i, 5) {
        5
    } else if occurs_at(s, i, 6) {
        6
    } else if occurs_at(s, i, 7) {
        7
    } else if occurs_at(s, i, 8) {
        8
    } else if occurs_at(s, i, 9) {
        9
    } else {
        10
    }
}

/// The greatest digit value written at position `i` (-1 when none is).
pub open spec fn max_val_at(s: Seq<char>, i: int) -> int {
    if occurs_at(s, i, 9) {
        9
    } else if occurs_at(s, i, 8) {
        8
    } else if occurs_at(s, i, 7) {
        7
    } else if occurs_at(s, i, 6) {
        6
    } else if occurs_at(s, i, 5) {
        5
    } else if occurs_at(s, i, 4) {
        4
    } else if occurs_at(s, i, 3) {
        3
    } else if occurs_at(s, i, 2) {
        2
    } else if occurs_at(s, i, 1) {
        1
    } else if occurs_at(s, i, 0) {
        0
    } else {
        -1
    }
}

/// The earliest written digit from position `i` on: its position and the
/// least value written there.
pub open spec fn first_occ(s: Seq<char>, i: int) -> Option<(int, int)>
    decreases s.len() - i,
{
    if i >= s.len() {
        None
    } else if any_at(s, i) {
        Some((i, min_val_at(s, i)))
    } else {
        first_occ(s, i + 1)
    }
}

/// The latest written digit at position `i` or before: its position and the
/// greatest value written there.
pub open spec fn last_occ(s: Seq<char>, i: int) -> Option<(int, int)>
    decreases i + 1,
{
    if i < 0 {
        None
    } else if any_at(s, i) {
        Some((i, max_val_at(s, i)))
    } else {
        last_occ(s, i - 1)
    }
}

/// The first literal digit of `s` at position `i` or after.
pub open spec fn first_digit_val(s: Seq<char>, i: int) -> Option<int>
    decreases s.len() - i,
{
    if i >= s.len() {
        None
    } else if is_digit(s[i]) {
        Some(digit_val(s[i]))
    } else {
        first_digit_val(s, i + 1)
    }
}

/// The last literal digit of `s` at position `i` or before.
pub open spec fn last_digit_val(s: Seq<char>, i: int) -> Option<int>
    decreases i + 1,
{
    if i < 0 {
        None
    } else if is_digit(s[i]) {
        Some(digit_val(s[i]))
    } else {
        last_digit_val(s, i - 1)
    }
}

/// Ten times the first literal digit plus the last, if `s` holds a digit.
pub open spec fn calibration(s: Seq<char>) -> Option<int> {
    if first_digit_val(s, 0) is Some && last_digit_val(s, s.len() - 1) is Some {
        Some(10 * first_digit_val(s, 0)->Some_0 + last_digit_val(s, s.len() - 1)->Some_0)
    } else {
        None
    }
}

/// Ten times the earliest written digit plus the latest, digit words
/// counted, if `s` holds either.
pub open spec fn spelled_calibration(s: Seq<char>) -> Option<int> {
    if first_occ(s, 0) is Some && last_occ(s, s.len() - 1) is Some {
        Some(10 * first_occ(s, 0)->Some_0.1 + last_occ(s, s.len() - 1)->Some_0.1)
    } else {
        None
    }
}

/// The first and last literal digit of the line, as `10 * first + last`.
/// Fails exactly when the line has no digit.
pub fn get_calibration_number(input: &str) -> (r: Result<u8, ParseError>)
    ensures
        match calibration(input@) {
            Some(v) => r == Ok::<u8, ParseError>(v as u8),
            None => r == Err::<u8, ParseError>(ParseError::NoDigits),
        },
{
    let n = input.unicode_len();
    let mut first: Option<u8> = None;
    let mut last: Option<u8> = None;
    let mut i: usize = 0;
    while i < n
        invariant
            0 <= i <= n,
            n == input@.len(),
            first is Some <==> last is Some,
            match first {
                Some(d) => d <= 9 && first_digit_val(input@, 0) == Some(d as int),
                None => first_digit_val(input@, 0) == first_digit_val(input@, i as int),
            },
            match last {
                Some(d) => d <= 9 && last_digit_val(input@, i - 1) == Some(d as int),
                None => last_digit_val(input@, i - 1) is None,
            },
        decreases n - i,
    {
        let c = input.get_char(i);
        if digit_char(c) {
            let d = ((c as u32) - ('0' as u32)) as u8;
            if first.is_none() {
                first = Some(d);
            }
            last = Some(d);
        }
        i += 1;
    }
    if first.is_some() {
        let a = first.unwrap();
        let b = last.unwrap();
        Ok(10 * a + b)
    } else {
        Err(ParseError::NoDigits)
    }
}

/// Whether the digit word `w` spells the characters of `s` from `i` on.
fn chars_at(s: &str, i: usize, w: &Vec<char>) -> (b: bool)
    requires
        i <= s@.len(),
    ensures
        b == (i + w@.len() <= s@.len() && s@.subrange(i as int, i + w@.len()) == w@),
{
    let n = s.unicode_len();
    if n - i < w.len() {
        return false;
    }
    let mut j: usize = 0;
    while j < w.len()
        invariant
            0 <= j <= w@.len(),
            i + w@.len() <= s@.len(),
            n == s@.len(),
            forall|t: int| 0 <= t < j ==> s@[i + t] == w@[t],
        decreases w@.len() - j,
    {
        if s.get_char(i + j) != w[j] {
            proof {
                assert(s@.subrange(i as int, i + w@.len())[j as int] == s@[i + j]);
            }
            return false;
        }
        j += 1;
    }
    proof {
        assert(s@.subrange(i as int, i + w@.len()) =~= w@);
    }
    true
}

/// The characters of the name of digit `k`.
fn word_chars(k: u8) -> (r: Vec<char>)
    requires
        k <= 9,
    ensures
        r@ == word_seq(k as int),
{
    let mut r: Vec<char> = Vec::new();
    if k == 0 {
        r.push('z');
        r.push('e');
        r.push('r');
        r.push('o');
        proof {
            assert(r@ =~= seq!['z', 'e', 'r', 'o']);
        }
    } else if k == 1 {
        r.push('o');
        r.push('n');
        r.push('e');
        proof {
            assert(r@ =~= seq!['o', 'n', 'e']);
        }
    } else if k == 2 {
        r.push('t');
        r.push('w');
        r.push('o');
        proof {
            assert(r@ =~= seq!['t', 'w', 'o']);
        }
    } else if k == 3 {
        r.push('t');
        r.push('h');
        r.push('r');
        r.push('e');
        r.push('e');
        proof {
            assert(r@ =~= seq!['t', 'h', 'r', 'e', 'e']);
        }
    } else if k == 4 {
        r.push('f');
        r.push('o');
        r.push('u');
        r.push('r');
        proof {
            assert(r@ =~= seq!['f', 'o', 'u', 'r']);
        }
    } else if k == 5 {
        r.push('f');
        r.push('i');
        r.push('v');
        r.push('e');
        proof {
            assert(r@ =~= seq!['f', 'i', 'v', 'e']);
        }
    } else if k == 6 {
        r.push('s');
        r.push('i');
        r.push('x');
        proof {
            assert(r@ =~= seq!['s', 'i', 'x']);
        }
    } else if k == 7 {
        r.push('s');
        r.push('e');
        r.push('v');
        r.push('e');
        r.push('n');
        proof {
            assert(r@ =~= seq!['s', 'e', 'v', 'e', 'n']);
        }
    } else if k == 8 {
        r.push('e');
        r.push('i');
        r.push('g');
        r.push('h');
        r.push('t');
        proof {
            assert(r@ =~= seq!['e', 'i', 'g', 'h', 't']);
        }
    } else {
        r.push('n');
        r.push('i');
        r.push('n');
        r.push('e');
        proof {
            assert(r@ =~= seq!['n', 'i', 'n', 'e']);
        }
    }
    r
}

/// Whether digit value `v` is written at position `i`, as a digit character
/// or as its spelled-out name.
fn occurs_check(s: &str, i: usize, v: u8) -> (b: bool)
    requires
        i < s@.len(),
        v <= 9,
    ensures
        b == occurs_at(s@, i as int, v as int),
{
    let c = s.get_char(i);
    if (c as u32) == ('0' as u32) + (v as u32) {
        return true;
    }
    let w = word_chars(v);
    chars_at(s, i, &w)
}

/// The least digit value written at position `i`, if any is.
fn match_min_at(s: &str, i: usize) -> (r: Option<u8>)
    requires
        i < s@.len(),
    ensures
        match r {
            Some(v) => any_at(s@, i as int) && v <= 9 && v as int == min_val_at(s@, i as int),
            None => !any_at(s@, i as int),
        },
{
    let mut v: u8 = 0;
    while v < 10
        invariant
            v <= 10,
            i < s@.len(),
            forall|u: int| 0 <= u < v ==> !occurs_at(s@, i as int, u),
        decreases 10 - v,
    {
        if occurs_check(s, i, v) {
            return Some(v);
        }
        v += 1;
    }
    proof {
        assert forall|u: int| !occurs_at(s@, i as int, u) by {
            if occurs_at(s@, i as int, u) {
                assert(0 <= u < 10);
            }
        }
    }
    None
}

/// The greatest digit value written at position `i`, if any is.
fn match_max_at(s: &str, i: usize) -> (r: Option<u8>)
    requires
        i < s@.len(),
    ensures
        match r {
            Some(v) => any_at(s@, i as int) && v <= 9 && v as int == max_val_at(s@, i as int),
            None => !any_at(s@, i as int),
        },
{
    let mut step: u8 = 0;
    while step < 10
        invariant
            step <= 10,
            i < s@.len(),
            forall|u: int| 10 - step <= u < 10 ==> !occurs_at(s@, i as int, u),
        decreases 10 - step,
    {
        let v = 9 - step;
        if occurs_check(s, i, v) {
            return Some(v);
        }
        step += 1;
    }
    proof {
        assert forall|u: int| !occurs_at(s@, i as int, u) by {
            if occurs_at(s@, i as int, u) {
                assert(0 <= u < 10);
            }
        }
    }
    None
}

/// The first and last digit of the line, spelled-out digit words counted,
/// as `10 * first + last`. Fails exactly when the line has neither.
pub fn get_calibration_number_spelled_out(input: &str) -> (r: Result<u8, ParseError>)
    ensures
        match spelled_calibration(input@) {
            Some(v) => r == Ok::<u8, ParseError>(v as u8),
            None => r == Err::<u8, ParseError>(ParseError::NoDigits),
        },
{
    let n = input.unicode_len();
    let mut first: Option<u8> = None;
    let mut last: Option<u8> = None;
    let mut i: usize = 0;
    while i < n
        invariant
            0 <= i <= n,
            n == input@.len(),
            first is Some <==> last is Some,
            match first {
                Some(v) => v <= 9 && first_occ(input@, 0) is Some && first_occ(input@, 0)->Some_0.1
                    == v as int,
                None => first_occ(input@, 0) == first_occ(input@, i as int),
            },
            match last {
                Some(v) => v <= 9 && last_occ(input@, i - 1) is Some && last_occ(
                    input@,
                    i - 1,
                )->Some_0.1 == v as int,
                None => last_occ(input@, i - 1) is None,
            },
        decreases n - i,
    {
        match match_min_at(input, i) {
            Some(mn) => {
                let mx = match_max_at(input, i).unwrap();
                if first.is_none() {
                    first = Some(mn);
                }
                last = Some(mx);
            },
            None => {},
        }
        i += 1;
    }
    if first.is_some() {
        let a = first.unwrap();
        let b = last.unwrap();
        Ok(10 * a + b)
    } else {
        Err(ParseError::NoDigits)
    }
}

/// One line's calibration value under the chosen reading.
pub open spec fn line_value(line: Seq<char>, spelled: bool) -> Option<int> {
    if spelled {
        spelled_calibration(line)
    } else {
        calibration(line)
    }
}

/// The sum of the lines' calibration values, if every line has one.
pub open spec fn values_sum(lines: Seq<Seq<char>>, spelled: bool) -> Option<int>
    decreases lines.len(),
{
    if lines.len() == 0 {
        Some(0)
    } else {
        match line_value(lines[0], spelled) {
            Some(v) => match values_sum(lines.drop_first(), spelled) {
                Some(rest) => Some(v + rest),
                None => None,
            },
            None => None,
        }
    }
}

/// Every prefix of the lines that sums at all sums within `u32`.
pub open spec fn sums_fit(lines: Seq<Seq<char>>, spelled: bool) -> bool {
    forall|k: int|
        0 <= k <= lines.len() && values_sum(#[trigger] lines.take(k), spelled) is Some
            ==> values_sum(lines.take(k), spelled)->Some_0 <= u32::MAX
}

/// A literal digit found by scanning is a digit value between 0 and 9.
proof fn lemma_first_digit_val_bounds(s: Seq<char>, i: int)
    requires
        first_digit_val(s, i) is Some,
    ensures
        0 <= first_digit_val(s, i)->Some_0 <= 9,
    decreases s.len() - i,
{
    if i >= s.len() {
    } else if is_digit(s[i]) {
    } else {
        lemma_first_digit_val_bounds(s, i + 1);
    }
}

proof fn lemma_last_digit_val_bounds(s: Seq<char>, i: int)
    requires
        last_digit_val(s, i) is Some,
    ensures
        0 <= last_digit_val(s, i)->Some_0 <= 9,
    decreases i + 1,
{
    if i < 0 {
    } else if is_digit(s[i]) {
    } else {
        lemma_last_digit_val_bounds(s, i - 1);
    }
}

proof fn lemma_first_occ_bounds(s: Seq<char>, i: int)
    requires
        first_occ(s, i) is Some,
    ensures
        0 <= first_occ(s, i)->Some_0.1 <= 9,
    decreases s.len() - i,
{
    if i >= s.len() {
    } else if any_at(s, i) {
        let v = choose|v: int| occurs_at(s, i, v);
        assert(0 <= v < 10);
    } else {
        lemma_first_occ_bounds(s, i + 1);
    }
}

proof fn lemma_last_occ_bounds(s: Seq<char>, i: int)
    requires
        last_occ(s, i) is Some,
    ensures
        0 <= last_occ(s, i)->Some_0.1 <= 9,
    decreases i + 1,
{
    if i < 0 {
    } else if any_at(s, i) {
        let v = choose|v: int| occurs_at(s, i, v);
        assert(0 <= v < 10);
    } else {
        lemma_last_occ_bounds(s, i - 1);
    }
}

/// A line's calibration value, under either reading, lies in `[0, 99]`.
proof fn lemma_line_value_bounds(line: Seq<char>, spelled: bool)
    requires
        line_value(line, spelled) is Some,
    ensures
        0 <= line_value(line, spelled)->Some_0 <= 99,
{
    if spelled {
        lemma_first_occ_bounds(line, 0);
        lemma_last_occ_bounds(line, line.len() - 1);
    } else {
        lemma_first_digit_val_bounds(line, 0);
        lemma_last_digit_val_bounds(line, line.len() - 1);
    }
}

/// Appending a line extends the sum by that line's value, or spoils it.
proof fn lemma_values_sum_push(lines: Seq<Seq<char>>, x: Seq<char>, spelled: bool)
    ensures
        values_sum(lines.push(x), spelled) == (if values_sum(lines, spelled) is Some && line_value(
            x,
            spelled,
        ) is Some {
            Some(values_sum(lines, spelled)->Some_0 + line_value(x, spelled)->Some_0)
        } else {
            None::<int>
        }),
    decreases lines.len(),
{
    let p = lines.push(x);
    if lines.len() == 0 {
        assert(p.len() == 1);
        assert(p[0] == x);
        assert(p.drop_first() =~= Seq::<Seq<char>>::empty());
        assert(values_sum(p.drop_first(), spelled) == Some(0int));
        match line_value(x, spelled) {
            Some(v) => {
                assert(values_sum(p, spelled) == Some(v + 0));
            },
            None => {
                assert(values_sum(p, spelled) is None);
            },
        }
    } else {
        assert(p.len() == lines.len() + 1);
        assert(p[0] == lines[0]);
        assert(p.drop_first() =~= lines.drop_first().push(x));
        lemma_values_sum_push(lines.drop_first(), x, spelled);
        match line_value(lines[0], spelled) {
            Some(v0) => {
                assert(values_sum(p, spelled) == (match values_sum(p.drop_first(), spelled) {
                    Some(rest) => Some(v0 + rest),
                    None => None::<int>,
                }));
            },
            None => {
                assert(values_sum(p, spelled) is None);
                assert(values_sum(lines, spelled) is None);
            },
        }
    }
}

/// A line without a value spoils the whole sum.
proof fn lemma_values_sum_none(lines: Seq<Seq<char>>, k: int, spelled: bool)
    requires
        0 <= k < lines.len(),
        line_value(lines[k], spelled) is None,
    ensures
        values_sum(lines, spelled) is None,
    decreases k,
{
    if k > 0 {
        assert(lines.drop_first()[k - 1] == lines[k]);
        lemma_values_sum_none(lines.drop_first(), k - 1, spelled);
    }
}

/// Sums the calibration values of the lines under the chosen reading.
fn sum_calibrations(lines: &Vec<String>, spelled: bool) -> (r: Result<u32, ParseError>)
    requires
        sums_fit(lines.deep_view(), spelled),
    ensures
        match values_sum(lines.deep_view(), spelled) {
            Some(t) => r == Ok::<u32, ParseError>(t as u32),
            None => r == Err::<u32, ParseError>(ParseError::NoDigits),
        },
{
    let ghost all = lines.deep_view();
    let mut acc: u32 = 0;
    let mut k: usize = 0;
    proof {
        assert(all.take(0) =~= Seq::<Seq<char>>::empty());
    }
    while k < lines.len()
        invariant
            0 <= k <= lines@.len(),
            all == lines.deep_view(),
            all.len() == lines@.len(),
            sums_fit(all, spelled),
            values_sum(all.take(k as int), spelled) == Some(acc as int),
        decreases lines@.len() - k,
    {
        proof {
            assert(all[k as int] == lines@[k as int]@);
        }
        let line = lines[k].as_str();
        let res = if spelled {
            get_calibration_number_spelled_out(line)
        } else {
            get_calibration_number(line)
        };
        match res {
            Ok(v) => {
                proof {
                    assert(line_value(all[k as int], spelled) is Some);
                    lemma_line_value_bounds(all[k as int], spelled);
                    lemma_values_sum_push(all.take(k as int), all[k as int], spelled);
                    assert(all.take(k + 1) =~= all.take(k as int).push(all[k as int]));
                    assert(values_sum(all.take(k + 1), spelled) == Some(acc + v as int));
                    assert(values_sum(all.take(k + 1), spelled)->Some_0 <= u32::MAX);
                }
                acc = acc + (v as u32);
            },
            Err(e) => {
                proof {
                    lemma_values_sum_none(all, k as int, spelled);
                }
                return Err(e);
            },
        }
        k += 1;
    }
    proof {
        assert(all.take(all.len() as int) =~= all);
    }
    Ok(acc)
}

/// The sum of the lines' calibration values, literal digits only.
/// The grid is read with trailing newlines trimmed.
pub fn part1(input: &Input) -> (r: Result<u32, ParseError>)
    requires
        sums_fit(split_lines(trim_newlines(input@)), false),
    ensures
        match values_sum(split_lines(trim_newlines(input@)), false) {
            Some(t) => r == Ok::<u32, ParseError>(t as u32),
            None => r == Err::<u32, ParseError>(ParseError::NoDigits),
        },
{
    let lines = input.trim_trailing_newlines().as_lines();
    sum_calibrations(&lines, false)
}

/// The sum of the lines' calibration values, digit words counted.
/// The grid is read with trailing newlines trimmed.
pub fn part2(input: &Input) -> (r: Result<u32, ParseError>)
    requires
        sums_fit(split_lines(trim_newlines(input@)), true),
    ensures
        match values_sum(split_lines(trim_newlines(input@)), true) {
            Some(t) => r == Ok::<u32, ParseError>(t as u32),
            None => r == Err::<u32, ParseError>(ParseError::NoDigits),
        },
{
    let lines = input.trim_trailing_newlines().as_lines();
    sum_calibrations(&lines, true)
}

} // verus!
