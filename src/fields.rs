//! The field extractor: from one significant line to its trimmed fields.

use vstd::prelude::*;
use crate::lines::UCDLine;
use crate::text::{index_of, lemma_index_of, split_at_first, trim, trim_str};

verus! {

/// `l` up to its first comment marker `#`, or the whole of `l` without one.
pub open spec fn before_comment(l: Seq<char>) -> Seq<char> {
    l.take(index_of(l, '#') as int)
}

/// The pieces of `s` between occurrences of `d`, in order, empty ones included.
pub open spec fn split_on(s: Seq<char>, d: char) -> Seq<Seq<char>>
    decreases s.len(),
{
    if index_of(s, d) < s.len() {
        seq![s.take(index_of(s, d) as int)] + split_on(s.skip(index_of(s, d) + 1int), d)
    } else {
        seq![s]
    }
}

/// The trimmed pieces up to, and not including, the first one that trims to
/// nothing.
pub open spec fn fields_until_empty(pieces: Seq<Seq<char>>) -> Seq<Seq<char>>
    decreases pieces.len(),
{
    if pieces.len() == 0 || trim(pieces[0]).len() == 0 {
        seq![]
    } else {
        seq![trim(pieces[0])] + fields_until_empty(pieces.drop_first())
    }
}

/// The fields of a line: the text before its comment, split on `;`, each piece
/// trimmed, stopping at the first piece that trims to nothing.
pub open spec fn fields_of(l: Seq<char>) -> Seq<Seq<char>> {
    fields_until_empty(split_on(before_comment(l), ';'))
}

/// The fields of one line that are still to be read.
pub struct UCDLineIter<'a> {
    rest: &'a str,
    stopped: bool,
}

impl<'a> View for UCDLineIter<'a> {
    type V = Seq<Seq<char>>;

    closed spec fn view(&self) -> Seq<Seq<char>> {
        if self.stopped {
            seq![]
        } else {
            fields_until_empty(split_on(self.rest@, ';'))
        }
    }
}

impl<'a> UCDLineIter<'a> {
    /// The fields of the text before the first `#` of `line`.
    fn of_line(line: &'a str) -> (r: Self)
        ensures
            r@ == fields_of(line@),
    {
        let data = match split_at_first(line, '#') {
            Some((before, _)) => before,
            None => {
                assert(line@.take(line@.len() as int) =~= line@);
                line
            },
        };
        UCDLineIter { rest: data, stopped: false }
    }

    /// The next field; `None` from the first piece that trims to nothing on.
    pub fn next(&mut self) -> (r: Option<&'a str>)
        ensures
            match r {
                Some(f) => {
                    &&& old(self)@.len() > 0
                    &&& f@ == old(self)@[0]
                    &&& final(self)@ == old(self)@.drop_first()
                },
                None => old(self)@.len() == 0 && final(self)@.len() == 0,
            },
    {
        if self.stopped {
            return None;
        }
        let ghost text = self.rest@;
        proof {
            lemma_index_of(text, ';');
        }
        match split_at_first(self.rest, ';') {
            Some((piece, after)) => {
                assert(split_on(text, ';') == seq![piece@] + split_on(after@, ';'));
                assert(split_on(text, ';').drop_first() =~= split_on(after@, ';'));
                let field = trim_str(piece);
                if field.is_empty() {
                    self.stopped = true;
                    assert(old(self)@.len() == 0);
                    None
                } else {
                    self.rest = after;
                    assert(old(self)@ == seq![field@] + self@);
                    assert(old(self)@.drop_first() =~= self@);
                    Some(field)
                }
            },
            None => {
                assert(split_on(text, ';') == seq![text]);
                let field = trim_str(self.rest);
                self.stopped = true;
                if field.is_empty() {
                    None
                } else {
                    assert(split_on(text, ';').drop_first() =~= Seq::<Seq<char>>::empty());
                    assert(fields_until_empty(Seq::<Seq<char>>::empty()) == Seq::<Seq<char>>::empty());
                    assert(old(self)@ =~= seq![field@]);
                    assert(old(self)@.drop_first() =~= self@);
                    Some(field)
                }
            },
        }
    }

    /// All the fields still to be read, in order.
    pub fn collect_fields(&mut self) -> (r: Vec<&'a str>)
        ensures
            r@.map_values(|f: &'a str| f@) == old(self)@,
            final(self)@.len() == 0,
    {
        let mut out: Vec<&'a str> = Vec::new();
        loop
            invariant
                out@.map_values(|f: &'a str| f@) + self@ == old(self)@,
            decreases self@.len(),
        {
            let ghost before = self@;
            match self.next() {
                Some(f) => {
                    out.push(f);
                    assert(out@.map_values(|f: &'a str| f@) =~= old(self)@.take(out@.len() as int)) by {
                        assert(out@.map_values(|f: &'a str| f@) + self@ =~= old(self)@);
                    }
                },
                None => {
                    assert(out@.map_values(|f: &'a str| f@) =~= old(self)@);
                    return out;
                },
            }
        }
    }
}

impl<'a> UCDLine<&'a str> {
    /// The fields of this line.
    pub fn into_iter(self) -> (r: UCDLineIter<'a>)
        ensures
            r@ == fields_of(self@),
    {
        UCDLineIter::of_line(self.as_str())
    }
}

impl UCDLine<String> {
    /// The fields of this line, borrowed from it.
    pub fn into_iter(&self) -> (r: UCDLineIter<'_>)
        ensures
            r@ == fields_of(self@),
    {
        UCDLineIter::of_line(self.as_str())
    }
}

} // verus!
