//! Laws of the parser, stated over the model that the contracts use.

use vstd::prelude::*;
use crate::fields::{before_comment, fields_of, fields_until_empty, split_on};
use crate::lines::{first_significant, is_significant, lemma_first_significant, lines_of};
use crate::text::{
    index_of, lemma_index_of, lemma_leading_ws, lemma_trailing_ws, leading_ws, trim, trim_start,
};

verus! {

/// `p` is a contiguous run of the characters of `s`.
pub open spec fn is_slice_of(p: Seq<char>, s: Seq<char>) -> bool {
    exists|a: int, b: int| 0 <= a <= b <= s.len() && p == s.subrange(a, b)
}

/// The lines that successive pulls hand out, in order.
pub open spec fn significant_lines(ls: Seq<Seq<char>>) -> Seq<Seq<char>> {
    ls.filter(|l: Seq<char>| is_significant(l))
}

/// The fields of each significant line of a text, in order.
pub open spec fn parse(text: Seq<char>) -> Seq<Seq<Seq<char>>> {
    significant_lines(lines_of(text)).map_values(|l: Seq<char>| fields_of(l))
}

/// One pull takes the significant lines in order: the line it hands out is the
/// first significant line, and the significant lines after it are those of the
/// lines it leaves; where it hands out nothing, there are no significant lines.
/// So the lines handed out over a whole run are the significant lines of the
/// text, in their order, and every other line is skipped.
pub proof fn lemma_pull_takes_significant_lines(ls: Seq<Seq<char>>)
    ensures
        first_significant(ls) < ls.len() ==> significant_lines(ls) == seq![
            ls[first_significant(ls) as int],
        ] + significant_lines(ls.skip(first_significant(ls) + 1int)),
        first_significant(ls) == ls.len() ==> significant_lines(ls) == Seq::<Seq<char>>::empty(),
{
    let k = first_significant(ls) as int;
    let pred = |l: Seq<char>| is_significant(l);
    lemma_first_significant(ls);
    let skipped = ls.take(k);
    assert(skipped.all(|x: Seq<char>| !pred(x))) by {
        assert forall|i: int| 0 <= i < skipped.len() implies !pred(#[trigger] skipped[i]) by {
            assert(skipped[i] == ls[i]);
        }
    }
    skipped.lemma_all_neg_filter_empty(pred);
    if k < ls.len() {
        let rest = ls.skip(k + 1);
        assert(ls =~= skipped + (seq![ls[k]] + rest));
        Seq::filter_distributes_over_add(skipped, seq![ls[k]] + rest, pred);
        Seq::filter_distributes_over_add(seq![ls[k]], rest, pred);
        seq![ls[k]].lemma_filter_prepend(ls[k], |l: Seq<char>| is_significant(l));
        assert(seq![ls[k]].filter(pred) =~= seq![ls[k]]) by {
            reveal_with_fuel(Seq::filter, 2);
        }
    } else {
        assert(ls =~= skipped);
    }
}

proof fn lemma_trim_is_slice(s: Seq<char>)
    ensures
        is_slice_of(trim(s), s),
{
    lemma_leading_ws(s);
    let t = trim_start(s);
    lemma_trailing_ws(t);
    let a = leading_ws(s) as int;
    let b = a + trim(s).len();
    assert(trim(s) =~= s.subrange(a, b));
}

proof fn lemma_slice_of_slice(p: Seq<char>, q: Seq<char>, s: Seq<char>)
    requires
        is_slice_of(p, q),
        is_slice_of(q, s),
    ensures
        is_slice_of(p, s),
{
    let (a1, b1) = choose|a: int, b: int| 0 <= a <= b <= q.len() && p == q.subrange(a, b);
    let (a2, b2) = choose|a: int, b: int| 0 <= a <= b <= s.len() && q == s.subrange(a, b);
    assert(p =~= s.subrange(a2 + a1, a2 + b1));
}

proof fn lemma_split_pieces_are_slices(s: Seq<char>, d: char)
    ensures
        forall|i: int| 0 <= i < split_on(s, d).len() ==> is_slice_of(#[trigger] split_on(s, d)[i], s),
    decreases s.len(),
{
    let k = index_of(s, d) as int;
    lemma_index_of(s, d);
    if k < s.len() {
        let rest = s.skip(k + 1);
        lemma_split_pieces_are_slices(rest, d);
        assert forall|i: int| 0 <= i < split_on(s, d).len() implies is_slice_of(
            #[trigger] split_on(s, d)[i],
            s,
        ) by {
            if i == 0 {
                assert(split_on(s, d)[0] == s.subrange(0, k));
            } else {
                assert(split_on(s, d)[i] == split_on(rest, d)[i - 1]);
                assert(is_slice_of(rest, s)) by {
                    assert(rest =~= s.subrange(k + 1, s.len() as int));
                }
                lemma_slice_of_slice(split_on(rest, d)[i - 1], rest, s);
            }
        }
    } else {
        assert(split_on(s, d)[0] =~= s.subrange(0, s.len() as int));
    }
}

/// The fields are the trimmed pieces, in order, and there are no more of them
/// than pieces.
proof fn lemma_fields_are_trimmed_pieces(pieces: Seq<Seq<char>>)
    ensures
        fields_until_empty(pieces).len() <= pieces.len(),
        forall|i: int|
            0 <= i < fields_until_empty(pieces).len() ==> #[trigger] fields_until_empty(pieces)[i]
                == trim(pieces[i]) && trim(pieces[i]).len() > 0,
    decreases pieces.len(),
{
    if pieces.len() > 0 && trim(pieces[0]).len() > 0 {
        lemma_fields_are_trimmed_pieces(pieces.drop_first());
        assert forall|i: int| 0 <= i < fields_until_empty(pieces).len() implies #[trigger] fields_until_empty(
            pieces,
        )[i] == trim(pieces[i]) && trim(pieces[i]).len() > 0 by {
            if i > 0 {
                assert(fields_until_empty(pieces)[i] == fields_until_empty(pieces.drop_first())[i
                    - 1]);
                assert(pieces[i] == pieces.drop_first()[i - 1]);
            }
        }
    }
}

/// No field holds anything from the first `#` of its line on: every field is a
/// run of the characters before that marker, and holds no `#`.
pub proof fn lemma_fields_exclude_comment(l: Seq<char>)
    ensures
        forall|i: int|
            0 <= i < fields_of(l).len() ==> is_slice_of(#[trigger] fields_of(l)[i], before_comment(l)),
        forall|i: int, j: int|
            0 <= i < fields_of(l).len() && 0 <= j < fields_of(l)[i].len() ==> #[trigger] fields_of(
                l,
            )[i][j] != '#',
{
    let bc = before_comment(l);
    let pieces = split_on(bc, ';');
    lemma_index_of(l, '#');
    lemma_split_pieces_are_slices(bc, ';');
    lemma_fields_are_trimmed_pieces(pieces);
    assert forall|i: int| 0 <= i < fields_of(l).len() implies is_slice_of(
        #[trigger] fields_of(l)[i],
        bc,
    ) by {
        lemma_trim_is_slice(pieces[i]);
        lemma_slice_of_slice(fields_of(l)[i], pieces[i], bc);
    }
    assert forall|i: int, j: int|
        0 <= i < fields_of(l).len() && 0 <= j < fields_of(l)[i].len() implies #[trigger] fields_of(
        l,
    )[i][j] != '#' by {
        let f = fields_of(l)[i];
        assert(is_slice_of(f, bc));
        let (a, b) = choose|a: int, b: int| 0 <= a <= b <= bc.len() && f == bc.subrange(a, b);
        assert(f[j] == l[a + j]);
    }
}

/// A line's fields stop at its first piece that trims to nothing: none of the
/// pieces from there on contributes a field, however many follow; every field
/// before it is its piece, trimmed.
pub proof fn lemma_fields_stop_at_first_empty(l: Seq<char>, j: int)
    requires
        0 <= j < split_on(before_comment(l), ';').len(),
        trim(split_on(before_comment(l), ';')[j]).len() == 0,
    ensures
        fields_of(l).len() <= j,
        forall|i: int|
            0 <= i < fields_of(l).len() ==> #[trigger] fields_of(l)[i] == trim(
                split_on(before_comment(l), ';')[i],
            ),
{
    let pieces = split_on(before_comment(l), ';');
    lemma_fields_are_trimmed_pieces(pieces);
    if fields_of(l).len() > j {
        assert(fields_of(l)[j] == trim(pieces[j]));
    }
}

/// Parsing is a function of the text alone: two runs of the whole pipeline over
/// the same text give the same fields for the same lines.
pub proof fn lemma_parse_repeatable(t1: Seq<char>, t2: Seq<char>)
    requires
        t1 == t2,
    ensures
        parse(t1) == parse(t2),
        significant_lines(lines_of(t1)) == significant_lines(lines_of(t2)),
{
}

} // verus!
