//! The line-oriented input abstraction: raw text, exposed whole or as
//! newline-separated lines, with explicit trailing-newline control.

use vstd::prelude::*;

use crate::text::{split_by, split_chars, split_lines, split_rec};

verus! {

/// `t` without its trailing newline characters. Interior newlines stay.
pub open spec fn trim_newlines(t: Seq<char>) -> Seq<char>
    decreases t.len(),
{
    if t.len() == 0 || t.last() != '\n' {
        t
    } else {
        trim_newlines(t.drop_last())
    }
}

/// The given lines joined with one newline between each adjacent pair,
/// no newline added after the last.
pub open spec fn join_lines(lines: Seq<Seq<char>>) -> Seq<char>
    decreases lines.len(),
{
    if lines.len() == 0 {
        Seq::empty()
    } else if lines.len() == 1 {
        lines[0]
    } else {
        lines[0] + seq!['\n'] + join_lines(lines.drop_first())
    }
}

/// A puzzle input. Immutable once built; every operation is a pure
/// function of the stored text.
#[derive(Clone)]
pub struct Input {
    text: String,
}

impl View for Input {
    type V = Seq<char>;

    closed spec fn view(&self) -> Seq<char> {
        self.text@
    }
}

/// Appending a line extends the join with one newline and that line.
proof fn lemma_join_lines_push(lines: Seq<Seq<char>>, x: Seq<char>)
    ensures
        lines.len() == 0 ==> join_lines(lines.push(x)) == x,
        lines.len() > 0 ==> join_lines(lines.push(x)) == join_lines(lines) + seq!['\n'] + x,
    decreases lines.len(),
{
    if lines.len() == 0 {
        assert(lines.push(x)[0] =~= x);
    } else if lines.len() == 1 {
        let p = lines.push(x);
        assert(p.drop_first() =~= seq![x]);
        assert(join_lines(p.drop_first()) == x);
        assert(lines[0] + seq!['\n'] + x == join_lines(lines) + seq!['\n'] + x);
    } else {
        let p = lines.push(x);
        assert(p.drop_first() =~= lines.drop_first().push(x));
        lemma_join_lines_push(lines.drop_first(), x);
        assert(p[0] == lines[0]);
        assert(join_lines(p) == lines[0] + seq!['\n'] + (join_lines(lines.drop_first())
            + seq!['\n'] + x));
        assert(lines[0] + seq!['\n'] + (join_lines(lines.drop_first()) + seq!['\n'] + x)
            =~= (lines[0] + seq!['\n'] + join_lines(lines.drop_first())) + seq!['\n'] + x);
    }
}

impl Input {
    /// Builds an input from explicit lines, joined with `\n`.
    pub fn from_lines(lines: &Vec<String>) -> (r: Input)
        ensures
            r@ == join_lines(lines.deep_view()),
    {
        let mut text = String::new();
        let mut i: usize = 0;
        proof {
            assert(lines.deep_view().take(0) =~= Seq::<Seq<char>>::empty());
        }
        while i < lines.len()
            invariant
                0 <= i <= lines@.len(),
                lines.deep_view().len() == lines@.len(),
                text@ == join_lines(lines.deep_view().take(i as int)),
            decreases lines@.len() - i,
        {
            let ghost prefix = lines.deep_view().take(i as int);
            if i > 0 {
                text.append("\n");
            }
            text.append(lines[i].as_str());
            proof {
                reveal_strlit("\n");
                assert("\n"@ =~= seq!['\n']);
                assert(lines.deep_view()[i as int] == lines@[i as int]@);
                lemma_join_lines_push(prefix, lines@[i as int]@);
                assert(lines.deep_view().take(i + 1) =~= prefix.push(lines@[i as int]@));
            }
            i += 1;
        }
        proof {
            assert(lines.deep_view().take(lines@.len() as int) =~= lines.deep_view());
        }
        Input { text }
    }

    /// Builds an input holding exactly the given text.
    pub fn from_str(input: &str) -> (r: Input)
        ensures
            r@ == input@,
    {
        Input { text: String::from_str(input) }
    }

    /// A copy of this input with every trailing newline removed.
    pub fn trim_trailing_newlines(&self) -> (r: Input)
        ensures
            r@ == trim_newlines(self@),
    {
        let s = self.text.as_str();
        let n = s.unicode_len();
        let mut e: usize = n;
        proof {
            assert(s@.take(n as int) =~= s@);
        }
        while e > 0 && s.get_char(e - 1) == '\n'
            invariant
                0 <= e <= n,
                n == s@.len(),
                trim_newlines(s@) == trim_newlines(s@.take(e as int)),
            decreases e,
        {
            proof {
                assert(s@.take(e as int).last() == s@[e - 1]);
                assert(s@.take(e as int).drop_last() =~= s@.take(e - 1));
            }
            e -= 1;
        }
        proof {
            assert(trim_newlines(s@.take(e as int)) == s@.take(e as int));
        }
        let piece = s.substring_char(0, e);
        proof {
            assert(piece@ =~= s@.take(e as int));
        }
        Input { text: String::from_str(piece) }
    }

    /// The whole text, unchanged.
    pub fn as_str(&self) -> (r: &str)
        ensures
            r@ == self@,
    {
        self.text.as_str()
    }

    /// The text split on `\n`, in order, empty lines kept.
    /// An empty text yields one empty line.
    pub fn as_lines(&self) -> (r: Vec<String>)
        ensures
            r.deep_view() == split_lines(self@),
            r@.len() > 0,
    {
        let mut seps: Vec<char> = Vec::new();
        seps.push('\n');
        proof {
            assert(seps@ =~= seq!['\n']);
        }
        split_by(self.text.as_str(), &seps)
    }
}

/// Trimming trailing newlines twice yields what trimming once yields.
pub proof fn lemma_trim_newlines_idempotent(t: Seq<char>)
    ensures
        trim_newlines(trim_newlines(t)) == trim_newlines(t),
    decreases t.len(),
{
    if t.len() == 0 || t.last() != '\n' {
    } else {
        lemma_trim_newlines_idempotent(t.drop_last());
    }
}

/// Splitting a text without the separators appends it to the piece in hand.
proof fn lemma_split_rec_no_sep(p: Seq<char>, r: Seq<char>, seps: Seq<char>, cur: Seq<char>)
    requires
        forall|i: int| 0 <= i < p.len() ==> !seps.contains(p[i]),
    ensures
        split_rec(p + r, seps, cur) == split_rec(r, seps, cur + p),
    decreases p.len(),
{
    if p.len() == 0 {
        assert(p + r =~= r);
        assert(cur + p =~= cur);
    } else {
        assert((p + r)[0] == p[0]);
        assert((p + r).len() > 0);
        assert(!seps.contains(p[0]));
        assert((p + r).drop_first() =~= p.drop_first() + r);
        assert(forall|i: int|
            0 <= i < p.drop_first().len() ==> !seps.contains(#[trigger] p.drop_first()[i]));
        lemma_split_rec_no_sep(p.drop_first(), r, seps, cur.push(p[0]));
        assert(cur.push(p[0]) + p.drop_first() =~= cur + p);
    }
}

/// Splitting the join of newline-free lines gives those lines back.
pub proof fn lemma_from_lines_round_trip(lines: Seq<Seq<char>>)
    requires
        lines.len() > 0,
        forall|i: int| 0 <= i < lines.len() ==> !(#[trigger] lines[i]).contains('\n'),
    ensures
        split_lines(join_lines(lines)) == lines,
    decreases lines.len(),
{
    let seps = seq!['\n'];
    assert(forall|i: int, c: char|
        0 <= i < lines.len() && #[trigger] lines[i].contains(c) ==> c != '\n');
    assert(forall|i: int, j: int|
        0 <= i < lines.len() && 0 <= j < lines[i].len() ==> !seps.contains(#[trigger] lines[i][j]))
        by {
        assert forall|i: int, j: int|
            0 <= i < lines.len() && 0 <= j < lines[i].len() implies !seps.contains(
            #[trigger] lines[i][j],
        ) by {
            if seps.contains(lines[i][j]) {
                assert(lines[i][j] == '\n');
                assert(lines[i].contains('\n'));
            }
        }
    }
    if lines.len() == 1 {
        let p = lines[0];
        assert(p + Seq::<char>::empty() =~= p);
        lemma_split_rec_no_sep(p, Seq::empty(), seps, Seq::empty());
        assert(Seq::<char>::empty() + p =~= p);
        assert(split_rec(Seq::empty(), seps, p) == seq![p]);
        assert(seq![p] =~= lines);
    } else {
        let head = lines[0];
        let tail = join_lines(lines.drop_first());
        assert(join_lines(lines) == head + seq!['\n'] + tail);
        assert(head + seq!['\n'] + tail =~= head + (seq!['\n'] + tail));
        lemma_split_rec_no_sep(head, seq!['\n'] + tail, seps, Seq::empty());
        assert(Seq::<char>::empty() + head =~= head);
        let rest = seq!['\n'] + tail;
        assert(rest[0] == '\n');
        assert(seps.contains('\n'));
        assert(rest.drop_first() =~= tail);
        assert(split_rec(rest, seps, head) == seq![head] + split_rec(tail, seps, Seq::empty()));
        lemma_from_lines_round_trip(lines.drop_first());
        assert(seq![head] + lines.drop_first() =~= lines);
    }
}

} // verus!
