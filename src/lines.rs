//! The line filter: from text to the lines that carry data.

use vstd::prelude::*;
use vstd::string::*;
use crate::text::{count_leading_ws, index_of, lemma_index_of, lemma_leading_ws, split_at_first, trim_start};

verus! {

/// `l` without one carriage return at its end.
pub open spec fn strip_cr(l: Seq<char>) -> Seq<char> {
    if l.len() > 0 && l.last() == '\r' {
        l.drop_last()
    } else {
        l
    }
}

/// The lines of `s` as `str::lines` splits them: at each `\n`, a `\r` before it
/// dropped, and no empty line after a final `\n`.
pub open spec fn lines_of(s: Seq<char>) -> Seq<Seq<char>>
    decreases s.len(),
{
    if s.len() == 0 {
        seq![]
    } else if index_of(s, '\n') < s.len() {
        seq![strip_cr(s.take(index_of(s, '\n') as int))] + lines_of(
            s.skip(index_of(s, '\n') + 1int),
        )
    } else {
        seq![s]
    }
}

/// A line that carries data: once its leading white space is trimmed, it is not
/// empty and does not start with the comment marker `#`.
pub open spec fn is_significant(l: Seq<char>) -> bool {
    let t = trim_start(l);
    t.len() > 0 && t[0] != '#'
}

/// Position of the first significant line of `ls`, or its length when there is
/// none.
pub open spec fn first_significant(ls: Seq<Seq<char>>) -> nat
    decreases ls.len(),
{
    if ls.len() == 0 || is_significant(ls[0]) {
        0
    } else {
        1 + first_significant(ls.drop_first())
    }
}

pub proof fn lemma_first_significant(ls: Seq<Seq<char>>)
    ensures
        first_significant(ls) <= ls.len(),
        forall|j: int| 0 <= j < first_significant(ls) ==> !is_significant(#[trigger] ls[j]),
        first_significant(ls) < ls.len() ==> is_significant(ls[first_significant(ls) as int]),
    decreases ls.len(),
{
    if ls.len() > 0 && !is_significant(ls[0]) {
        lemma_first_significant(ls.drop_first());
        assert forall|j: int| 0 <= j < first_significant(ls) implies !is_significant(
            #[trigger] ls[j],
        ) by {
            if j > 0 {
                assert(ls[j] == ls.drop_first()[j - 1]);
            }
        }
    }
}

/// Whether `line` is significant in the sense of `is_significant`.
pub fn line_is_significant(line: &str) -> (r: bool)
    ensures
        r == is_significant(line@),
{
    let k = count_leading_ws(line);
    let len = line.unicode_len();
    proof {
        lemma_leading_ws(line@);
    }
    if k < len {
        let c = line.get_char(k);
        assert(trim_start(line@)[0] == line@[k as int]);
        c != '#'
    } else {
        false
    }
}

fn strip_cr_str<'a>(s: &'a str) -> (r: &'a str)
    ensures
        r@ == strip_cr(s@),
{
    let n = s.unicode_len();
    if n > 0 && s.get_char(n - 1) == '\r' {
        assert(s@.subrange(0, n - 1) =~= s@.drop_last());
        s.substring_char(0, n - 1)
    } else {
        s
    }
}

/// A source of UCD text: a string slice here, a buffered reader elsewhere.
pub struct UCD<T>(T);

impl<T> UCD<T> {
    /// The source this parser reads.
    pub closed spec fn source(&self) -> T {
        self.0
    }

    pub fn new(src: T) -> (r: Self)
        ensures
            r.source() == src,
    {
        UCD(src)
    }

    /// Hands the source back.
    pub fn into_source(self) -> (r: T)
        ensures
            r == self.source(),
    {
        self.0
    }
}

impl<'a> UCD<&'a str> {
    /// The significant lines of the text, one by one.
    pub fn ucd_lines(self) -> (r: UCDLines<&'a str>)
        ensures
            r@ == lines_of(self.source()@),
    {
        UCDLines(self.0)
    }
}

/// The lines of a text that are still to be read, of which only the significant
/// ones are handed out.
pub struct UCDLines<T>(T);

impl<'a> View for UCDLines<&'a str> {
    type V = Seq<Seq<char>>;

    closed spec fn view(&self) -> Seq<Seq<char>> {
        lines_of(self.0@)
    }
}

impl<'a> UCDLines<&'a str> {
    /// Skips the lines that are blank or comments and hands out the next line
    /// that is neither; `None` once the text is used up.
    pub fn next(&mut self) -> (r: Option<UCDLine<&'a str>>)
        ensures
            match r {
                Some(line) => {
                    &&& is_significant(line@)
                    &&& first_significant(old(self)@) < old(self)@.len()
                    &&& line@ == old(self)@[first_significant(old(self)@) as int]
                    &&& old(self)@ == old(self)@.take(first_significant(old(self)@) as int)
                        + seq![line@] + final(self)@
                },
                None => {
                    &&& first_significant(old(self)@) == old(self)@.len()
                    &&& final(self)@ == Seq::<Seq<char>>::empty()
                },
            },
            forall|j: int|
                0 <= j < first_significant(old(self)@) ==> !is_significant(#[trigger] old(self)@[j]),
    {
        let ghost all = old(self)@;
        let ghost mut done: int = 0;
        loop
            invariant
                all == old(self)@,
                0 <= done <= all.len(),
                self@ == all.skip(done),
                forall|j: int| 0 <= j < done ==> !is_significant(#[trigger] all[j]),
            decreases self.0@.len(),
        {
            if self.0.is_empty() {
                assert(all.skip(done).len() == 0);
                assert(done == all.len());
                proof {
                    lemma_first_significant_is(all, done);
                }
                assert(self@ =~= Seq::<Seq<char>>::empty());
                return None;
            }
            let ghost text = self.0@;
            proof {
                lemma_index_of(text, '\n');
            }
            let (line, rest) = match split_at_first(self.0, '\n') {
                Some((before, after)) => (strip_cr_str(before), after),
                None => {
                    let n = self.0.unicode_len();
                    (self.0, self.0.substring_char(n, n))
                },
            };
            assert(lines_of(text) == seq![line@] + lines_of(rest@));
            self.0 = rest;
            assert(all.skip(done)[0] == line@);
            assert(all.skip(done + 1) =~= all.skip(done).drop_first());
            if line_is_significant(line) {
                proof {
                    lemma_first_significant_is(all, done);
                    assert(all =~= all.take(done) + seq![line@] + all.skip(done + 1));
                }
                return Some(UCDLine(line));
            }
            proof {
                done = done + 1;
            }
        }
    }
}

/// A significant line with no significant line before it is the first one.
proof fn lemma_first_significant_is(ls: Seq<Seq<char>>, k: int)
    requires
        0 <= k <= ls.len(),
        forall|j: int| 0 <= j < k ==> !is_significant(#[trigger] ls[j]),
        k < ls.len() ==> is_significant(ls[k]),
    ensures
        first_significant(ls) == k,
    decreases k,
{
    if k > 0 {
        assert forall|j: int| 0 <= j < k - 1 implies !is_significant(#[trigger] ls.drop_first()[j]) by {
            assert(ls.drop_first()[j] == ls[j + 1]);
        }
        lemma_first_significant_is(ls.drop_first(), k - 1);
    }
}

/// A line that carries data: not blank, and not a comment.
pub struct UCDLine<T: View<V = Seq<char>>>(T);

impl<T: View<V = Seq<char>>> UCDLine<T> {
    /// A line of this type is always significant.
    #[verifier::type_invariant]
    spec fn always_significant(self) -> bool {
        is_significant(self.0@)
    }
}

impl<'a> UCDLine<&'a str> {
    /// The text of the line.
    pub fn as_str(&self) -> (r: &'a str)
        ensures
            r@ == self@,
    {
        self.0
    }
}

impl<T: View<V = Seq<char>>> View for UCDLine<T> {
    type V = Seq<char>;

    closed spec fn view(&self) -> Seq<char> {
        self.0@
    }
}

impl UCDLine<String> {
    /// The text of the line.
    pub fn as_str(&self) -> (r: &str)
        ensures
            r@ == self@,
    {
        self.0.as_str()
    }

    /// Keeps `line` where it is significant, as a line read from a stream.
    pub fn from_line(line: String) -> (r: Option<UCDLine<String>>)
        ensures
            r is Some <==> is_significant(line@),
            r matches Some(l) ==> l@ == line@,
    {
        if line_is_significant(line.as_str()) {
            Some(UCDLine(line))
        } else {
            None
        }
    }
}

} // verus!
