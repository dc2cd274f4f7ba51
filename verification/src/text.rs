//! Character classes, line splitting, trimming and unsigned decimal parsing,
//! shared by every solver.

use vstd::prelude::*;

verus! {

/// The ten ASCII digit characters.
pub open spec fn is_digit(c: char) -> bool {
    '0' as int <= c as int && c as int <= '9' as int
}

/// Numeric value of an ASCII digit character.
pub open spec fn digit_val(c: char) -> int {
    c as int - '0' as int
}

/// Base-10 value of a digit run, read left to right.
pub open spec fn digits_value(s: Seq<char>) -> nat
    decreases s.len(),
{
    if s.len() == 0 {
        0
    } else {
        (10 * digits_value(s.drop_last()) + digit_val(s.last())) as nat
    }
}

/// The whitespace characters that trimming removes.
pub open spec fn is_space(c: char) -> bool {
    c == ' ' || c == '\t' || c == '\n' || c == '\r'
}

/// Splitting on any of `seps`, with `cur` the piece read so far.
pub open spec fn split_rec(t: Seq<char>, seps: Seq<char>, cur: Seq<char>) -> Seq<Seq<char>>
    decreases t.len(),
{
    if t.len() == 0 {
        seq![cur]
    } else if seps.contains(t[0]) {
        seq![cur] + split_rec(t.drop_first(), seps, Seq::empty())
    } else {
        split_rec(t.drop_first(), seps, cur.push(t[0]))
    }
}

/// The pieces of `t` between occurrences of the characters in `seps`.
/// Splitting the empty text yields one empty piece, never zero pieces.
pub open spec fn split_chars(t: Seq<char>, seps: Seq<char>) -> Seq<Seq<char>> {
    split_rec(t, seps, Seq::empty())
}

/// The lines of `t`: the pieces between newline characters.
pub open spec fn split_lines(t: Seq<char>) -> Seq<Seq<char>> {
    split_chars(t, seq!['\n'])
}

/// `t` without trailing whitespace.
pub open spec fn trim_end_spaces(t: Seq<char>) -> Seq<char>
    decreases t.len(),
{
    if t.len() == 0 || !is_space(t.last()) {
        t
    } else {
        trim_end_spaces(t.drop_last())
    }
}

/// `t` without leading whitespace.
pub open spec fn trim_start_spaces(t: Seq<char>) -> Seq<char>
    decreases t.len(),
{
    if t.len() == 0 || !is_space(t[0]) {
        t
    } else {
        trim_start_spaces(t.drop_first())
    }
}

/// `t` without whitespace at either end.
pub open spec fn trim_spaces(t: Seq<char>) -> Seq<char> {
    trim_start_spaces(trim_end_spaces(t))
}

/// Index of the first occurrence of `c` in `t`, if any.
pub open spec fn find_index(t: Seq<char>, c: char) -> Option<int>
    decreases t.len(),
{
    if t.len() == 0 {
        None
    } else if t[0] == c {
        Some(0)
    } else {
        match find_index(t.drop_first(), c) {
            Some(i) => Some(i + 1),
            None => None,
        }
    }
}

/// Whether `t` is a well-formed `u32`: non-empty, all digits, in range.
pub open spec fn is_u32_text(t: Seq<char>) -> bool {
    &&& t.len() > 0
    &&& forall|j: int| 0 <= j < t.len() ==> is_digit(t[j])
    &&& digits_value(t) <= u32::MAX
}

/// Whether `c` is an ASCII digit.
pub fn digit_char(c: char) -> (b: bool)
    ensures
        b == is_digit(c),
{
    let u = c as u32;
    ('0' as u32) <= u && u <= ('9' as u32)
}

/// Whether `c` is whitespace that trimming removes.
pub fn space_char(c: char) -> (b: bool)
    ensures
        b == is_space(c),
{
    c == ' ' || c == '\t' || c == '\n' || c == '\r'
}

/// The value of a digit run grows (weakly) as digits are appended.
proof fn lemma_digits_value_extend(s: Seq<char>, i: int)
    requires
        0 <= i <= s.len(),
        forall|j: int| i <= j < s.len() ==> is_digit(s[j]),
    ensures
        digits_value(s) >= digits_value(s.take(i)),
    decreases s.len() - i,
{
    if i == s.len() {
        assert(s.take(i) =~= s);
    } else {
        lemma_digits_value_extend(s, i + 1);
        assert(s.take(i + 1).drop_last() =~= s.take(i));
        assert(s.take(i + 1).last() == s[i]);
        assert(digits_value(s.take(i + 1)) == (10 * digits_value(s.take(i)) + digit_val(
            s[i],
        )) as nat);
    }
}

/// Parses `s` as an unsigned base-10 number. Returns `None` exactly when `s`
/// is empty, holds a non-digit, or names a value above `u32::MAX`.
pub fn parse_u32(s: &str) -> (r: Option<u32>)
    ensures
        is_u32_text(s@) ==> r == Some((digits_value(s@) as u32)),
        !is_u32_text(s@) ==> r is None,
{
    let n = s.unicode_len();
    if n == 0 {
        return None;
    }
    let mut acc: u64 = 0;
    let mut i: usize = 0;
    while i < n
        invariant
            0 <= i <= n,
            n == s@.len(),
            acc == digits_value(s@.take(i as int)),
            acc <= u32::MAX,
            forall|j: int| 0 <= j < i ==> is_digit(s@[j]),
        decreases n - i,
    {
        let c = s.get_char(i);
        if !digit_char(c) {
            return None;
        }
        let d = (c as u32) - ('0' as u32);
        acc = acc * 10 + (d as u64);
        proof {
            assert(s@.take(i + 1).drop_last() =~= s@.take(i as int));
            assert(s@.take(i + 1).last() == s@[i as int]);
        }
        i += 1;
        if acc > (u32::MAX as u64) {
            proof {
                if forall|j: int| i <= j < s@.len() ==> is_digit(s@[j]) {
                    lemma_digits_value_extend(s@, i as int);
                    assert(s@.take(s@.len() as int) =~= s@);
                }
            }
            return None;
        }
    }
    proof {
        assert(s@.take(n as int) =~= s@);
    }
    Some(acc as u32)
}

/// Whether `needle` is one of the characters in `hay`.
fn contains_char(hay: &Vec<char>, needle: char) -> (b: bool)
    ensures
        b == hay@.contains(needle),
{
    let mut i: usize = 0;
    while i < hay.len()
        invariant
            0 <= i <= hay@.len(),
            forall|j: int| 0 <= j < i ==> hay@[j] != needle,
        decreases hay@.len() - i,
    {
        if hay[i] == needle {
            return true;
        }
        i += 1;
    }
    false
}

/// The pieces of `s` between occurrences of the characters in `seps`,
/// in order, empty pieces kept.
pub fn split_by(s: &str, seps: &Vec<char>) -> (r: Vec<String>)
    ensures
        r.deep_view() == split_chars(s@, seps@),
        r@.len() > 0,
{
    let n = s.unicode_len();
    let mut out: Vec<String> = Vec::new();
    let mut start: usize = 0;
    let mut i: usize = 0;
    proof {
        assert(out.deep_view() =~~= Seq::<Seq<char>>::empty());
        assert(s@.skip(0) =~= s@);
        assert(s@.subrange(0, 0) =~= Seq::<char>::empty());
        assert(Seq::<Seq<char>>::empty() + split_chars(s@, seps@) =~~= split_chars(s@, seps@));
    }
    while i < n
        invariant
            0 <= start <= i <= n,
            n == s@.len(),
            out.deep_view() + split_rec(
                s@.skip(i as int),
                seps@,
                s@.subrange(start as int, i as int),
            ) =~~= split_chars(s@, seps@),
        decreases n - i,
    {
        let ghost pre = out.deep_view();
        let ghost cur = s@.subrange(start as int, i as int);
        let c = s.get_char(i);
        proof {
            assert(s@.skip(i as int)[0] == s@[i as int]);
            assert(s@.skip(i as int).drop_first() =~= s@.skip(i + 1));
        }
        if contains_char(seps, c) {
            let piece = s.substring_char(start, i);
            out.push(String::from_str(piece));
            start = i + 1;
            proof {
                assert(split_rec(s@.skip(i as int), seps@, cur) == seq![cur] + split_rec(
                    s@.skip(i + 1),
                    seps@,
                    Seq::empty(),
                ));
                assert(out.deep_view() =~~= pre.push(cur));
                assert(s@.subrange(start as int, i + 1) =~= Seq::<char>::empty());
                assert(pre.push(cur) + split_rec(s@.skip(i + 1), seps@, Seq::empty()) =~~= pre + (
                seq![cur] + split_rec(s@.skip(i + 1), seps@, Seq::empty())));
            }
        } else {
            proof {
                assert(cur.push(s@[i as int]) =~= s@.subrange(start as int, i + 1));
                assert(split_rec(s@.skip(i as int), seps@, cur) == split_rec(
                    s@.skip(i + 1),
                    seps@,
                    cur.push(s@[i as int]),
                ));
            }
        }
        i += 1;
    }
    let ghost pre = out.deep_view();
    let ghost cur = s@.subrange(start as int, n as int);
    let piece = s.substring_char(start, n);
    out.push(String::from_str(piece));
    proof {
        assert(s@.skip(n as int).len() == 0);
        assert(split_rec(s@.skip(n as int), seps@, cur) == seq![cur]);
        assert(out.deep_view() =~~= pre.push(cur));
        assert(pre.push(cur) =~~= pre + seq![cur]);
        assert(out.deep_view() =~~= split_chars(s@, seps@));
    }
    out
}

/// `s` split at the first occurrence of `sep`: the text before it and the
/// text after it. `None` exactly when `sep` does not occur in `s`.
pub fn split_first(s: &str, sep: char) -> (r: Option<(String, String)>)
    ensures
        match r {
            Some(parts) => {
                &&& find_index(s@, sep) is Some
                &&& parts.0@ == s@.take(find_index(s@, sep)->Some_0)
                &&& parts.1@ == s@.skip(find_index(s@, sep)->Some_0 + 1)
            },
            None => find_index(s@, sep) is None,
        },
{
    let n = s.unicode_len();
    let mut i: usize = 0;
    while i < n
        invariant
            0 <= i <= n,
            n == s@.len(),
            forall|j: int| 0 <= j < i ==> s@[j] != sep,
        decreases n - i,
    {
        let c = s.get_char(i);
        if c == sep {
            proof {
                lemma_find_index_at(s@, sep, i as int);
            }
            let before = String::from_str(s.substring_char(0, i));
            let after = String::from_str(s.substring_char(i + 1, n));
            proof {
                assert(before@ =~= s@.take(i as int));
                assert(after@ =~= s@.skip(i + 1));
            }
            return Some((before, after));
        }
        i += 1;
    }
    proof {
        lemma_find_index_none(s@, sep);
    }
    None
}

/// `find_index` returns the first hit: a hit at `i` with none before it
/// pins the result to `i`.
proof fn lemma_find_index_at(t: Seq<char>, c: char, i: int)
    requires
        0 <= i < t.len(),
        t[i] == c,
        forall|j: int| 0 <= j < i ==> t[j] != c,
    ensures
        find_index(t, c) == Some(i),
    decreases i,
{
    if i == 0 {
    } else {
        assert(forall|j: int| 0 <= j < i - 1 ==> t.drop_first()[j] != c);
        lemma_find_index_at(t.drop_first(), c, i - 1);
    }
}

/// A text without the separator has no first hit.
proof fn lemma_find_index_none(t: Seq<char>, c: char)
    requires
        forall|j: int| 0 <= j < t.len() ==> t[j] != c,
    ensures
        find_index(t, c) is None,
    decreases t.len(),
{
    if t.len() > 0 {
        lemma_find_index_none(t.drop_first(), c);
    }
}

/// `s` without whitespace at either end.
pub fn trim_str(s: &str) -> (r: String)
    ensures
        r@ == trim_spaces(s@),
{
    let n = s.unicode_len();
    let mut e: usize = n;
    proof {
        assert(s@.take(n as int) =~= s@);
    }
    while e > 0 && space_char(s.get_char(e - 1))
        invariant
            0 <= e <= n,
            n == s@.len(),
            trim_end_spaces(s@) == trim_end_spaces(s@.take(e as int)),
        decreases e,
    {
        proof {
            assert(s@.take(e as int).last() == s@[e - 1]);
            assert(s@.take(e as int).drop_last() =~= s@.take(e - 1));
        }
        e -= 1;
    }
    proof {
        assert(s@.take(n as int) =~= s@);
        assert(trim_end_spaces(s@.take(e as int)) == s@.take(e as int));
    }
    let mut a: usize = 0;
    proof {
        assert(s@.take(e as int).skip(0) =~= s@.take(e as int));
    }
    while a < e && space_char(s.get_char(a))
        invariant
            0 <= a <= e <= n,
            n == s@.len(),
            trim_end_spaces(s@) == s@.take(e as int),
            trim_start_spaces(s@.take(e as int)) == trim_start_spaces(
                s@.take(e as int).skip(a as int),
            ),
        decreases e - a,
    {
        proof {
            assert(s@.take(e as int).skip(a as int)[0] == s@[a as int]);
            assert(s@.take(e as int).skip(a as int).drop_first() =~= s@.take(e as int).skip(
                a + 1,
            ));
        }
        a += 1;
    }
    proof {
        let piece = s@.take(e as int).skip(a as int);
        assert(piece =~= s@.subrange(a as int, e as int));
        if a < e {
            assert(piece[0] == s@[a as int]);
        }
        assert(trim_start_spaces(piece) == piece);
    }
    String::from_str(s.substring_char(a, e))
}

} // verus!
