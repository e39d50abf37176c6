use vstd::prelude::*;
use crate::model::{
    is_chunk, is_first_line, is_line_start, lemma_line_start_exists, lemma_line_start_order, line_start,
    newlines,
};
use crate::text::{lemma_next_line, next_line, Iter, LineIter, Text};

verus! {

/// Building a rope from a string and writing it back out gives the string.
pub proof fn law_round_trip(s: &str, t: Text, out: String)
    requires
        call_ensures(Text::from_str, (s,), t),
        call_ensures(Text::to_string, (&t,), out),
    ensures
        t@ == s@,
        out@ == s@,
{
}

/// Concatenation adds lengths: what `concat` returns for `a` and `b` is as long
/// as the two together.
pub proof fn law_concat_length(a: &Text, b: &Text, r: Text)
    requires
        a.wf(),
        b.wf(),
        a@.len() + b@.len() <= usize::MAX,
        call_ensures(Text::concat, (a, b), r),
    ensures
        r@.len() == a@.len() + b@.len(),
{
}

/// A substring that lies within the rope holds exactly the characters of that
/// range.
pub proof fn law_substr_in_range(t: &Text, start: usize, len: usize, r: Text)
    requires
        t.wf(),
        start + len <= t@.len(),
        call_ensures(Text::substr, (t, start, len), r),
    ensures
        r@ == t@.subrange(start as int, start + len),
{
}

/// A substring that runs past the end holds what is left from `start`, or
/// nothing when `start` is past the end too.
pub proof fn law_substr_clamps(t: &Text, start: usize, len: usize, r: Text)
    requires
        t.wf(),
        start + len > t@.len(),
        call_ensures(Text::substr, (t, start, len), r),
    ensures
        r@.len() == if start <= t@.len() { t@.len() - start } else { 0 },
{
}

/// Inserting `u` at `i` puts its characters between the first `i` characters
/// of `t` and the rest.
pub proof fn law_insert(t: &Text, i: usize, u: &Text, r: Text)
    requires
        t.wf(),
        u.wf(),
        t@.len() + u@.len() <= usize::MAX,
        i <= t@.len(),
        call_ensures(Text::insert, (t, i, u), r),
    ensures
        r@ == t@.subrange(0, i as int) + u@ + t@.subrange(i as int, t@.len() as int),
{
}

/// Deleting `c` characters at `i` keeps the first `i` characters of `t` and
/// those from `i + c` on.
pub proof fn law_delete(t: &Text, i: usize, c: usize, r: Text)
    requires
        t.wf(),
        i + c <= t@.len(),
        call_ensures(Text::delete, (t, i, c), r),
    ensures
        r@ == t@.subrange(0, i as int) + t@.subrange(i + c, t@.len() as int),
{
}

/// The two parts that `take_left` gives, put back together, are the rope.
pub proof fn law_take_left_complement(t: &Text, k: usize, r: (Text, Text))
    requires
        t.wf(),
        call_ensures(Text::take_left, (t, k), r),
    ensures
        r.0@ + r.1@ == t@,
{
    assert(r.0@ + r.1@ =~= t@);
}

/// The two parts that `take_right` gives, put back together, are the rope.
pub proof fn law_take_right_complement(t: &Text, k: usize, r: (Text, Text))
    requires
        t.wf(),
        call_ensures(Text::take_right, (t, k), r),
    ensures
        r.0@ + r.1@ == t@,
{
    assert(r.0@ + r.1@ =~= t@);
}

/// Line 0 starts at offset 0, whatever the rope holds.
pub proof fn law_first_line_start(t: &Text, r: Option<usize>)
    requires
        t.wf(),
        call_ensures(Text::line_pos, (t, 0usize), r),
    ensures
        r == Some(0usize),
{
}

/// A line number past 0 and at or beyond the newline count has no start.
pub proof fn law_line_pos_past_end(t: &Text, n: usize, r: Option<usize>)
    requires
        t.wf(),
        n > 0,
        n >= newlines(t@),
        call_ensures(Text::line_pos, (t, n), r),
    ensures
        r is None,
{
}

/// A line that a newline follows ends with that newline; only a last line
/// with no newline after it runs to the end without one.
pub proof fn law_line_ends_with_newline(t: &Text, n: usize, r: Option<Text>)
    requires
        t.wf(),
        n + 1 <= newlines(t@),
        call_ensures(Text::line, (t, n), r),
    ensures
        r matches Some(l) && l@.len() > 0 && l@.last() == '\n',
{
    let s = t@;
    lemma_line_start_exists(s, n as nat);
    lemma_line_start_exists(s, (n + 1) as nat);
    let p = line_start(s, n as nat);
    let q = line_start(s, (n + 1) as nat);
    if q < p {
        lemma_line_start_order(s, (n + 1) as nat, q, n as nat, p);
    }
    assert(is_line_start(s, (n + 1) as nat, q));
    if q == p {
        assert(false);
    }
}

/// Ropes that compare equal hold the same characters, and equality is
/// symmetric.
pub proof fn law_eq_content(a: &Text, b: &Text, r: bool)
    requires
        call_ensures(<Text as PartialEq>::eq, (a, b), r),
        r,
    ensures
        a@ == b@,
        b.same_tree(*a),
{
    a.lemma_same_tree_content(b);
    a.lemma_same_tree_symmetric(b);
}

/// The leaf walk of a rope hands out chunks that, read in order, are the
/// rope's characters; in a chunked rope each is a chunk.
pub proof fn law_leaf_walk(t: &Text, it: Iter)
    requires
        call_ensures(Text::iter, (t,), it),
    ensures
        it@.flatten() == t@,
        t.chunked() ==> forall|i: int| 0 <= i < it@.len() ==> is_chunk(#[trigger] it@[i]),
{
    t.lemma_leaves_content();
    if t.chunked() {
        t.lemma_chunked_leaves();
    }
}

/// Over a chunked rope, the line walk hands out the logical lines of what
/// is left in turn: each call gives the first line of it, whose newline ends
/// it, and the walk goes on from just after that line.
pub proof fn law_line_walk(it: &LineIter)
    requires
        it.buffered() == Seq::<char>::empty(),
        forall|i: int| 0 <= i < it.pending().len() ==> is_chunk(#[trigger] it.pending()[i]),
    ensures
        it.pending().flatten().len() == 0 <==> next_line(it.buffered(), it.pending()).0 is None,
        next_line(it.buffered(), it.pending()).0 matches Some(l) ==> is_first_line(
            l,
            it.pending().flatten(),
        ) && l + next_line(it.buffered(), it.pending()).1.flatten() == it.pending().flatten(),
        forall|i: int|
            0 <= i < next_line(it.buffered(), it.pending()).1.len() ==> is_chunk(
                #[trigger] next_line(it.buffered(), it.pending()).1[i],
            ),
{
    lemma_next_line(it.buffered(), it.pending());
    assert(it.buffered() + it.pending().flatten() =~= it.pending().flatten());
}

/// The line walk of a chunked rope starts on chunks that make up its
/// characters, with nothing buffered.
pub proof fn law_line_walk_start(t: &Text, it: LineIter)
    requires
        t.chunked(),
        call_ensures(Text::iter_lines, (t,), it),
    ensures
        it.buffered() == Seq::<char>::empty(),
        it.pending().flatten() == t@,
        forall|i: int| 0 <= i < it.pending().len() ==> is_chunk(#[trigger] it.pending()[i]),
{
    t.lemma_leaves_content();
    t.lemma_chunked_leaves();
}

/// Construction depends on the characters alone: ropes built from equal
/// strings have one form and compare equal.
pub proof fn law_from_str_deterministic(s1: &str, s2: &str, a: Text, b: Text, r: bool)
    requires
        call_ensures(Text::from_str, (s1,), a),
        call_ensures(Text::from_str, (s2,), b),
        s1@ == s2@,
        call_ensures(<Text as PartialEq>::eq, (&a, &b), r),
    ensures
        a.shape() == b.shape(),
        r,
{
    a.lemma_same_shape(&b);
}

/// A rope compared with itself is equal, the same handle included.
pub proof fn law_eq_reflexive(t: &Text, r: bool)
    requires
        call_ensures(<Text as PartialEq>::eq, (t, t), r),
    ensures
        r,
{
    t.lemma_same_tree_reflexive();
}

} // verus!
