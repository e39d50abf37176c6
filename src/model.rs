//! Facts about character sequences that the rope's contracts speak of: newline
//! counts, line starts and clamped ranges.

use vstd::prelude::*;

verus! {

/// Leaves longer than this are split during construction; merges that would
/// reach it are not performed.
pub const LEAF_MAX: usize = 1000;

/// Number of newline characters in `s`.
pub open spec fn newlines(s: Seq<char>) -> nat
    decreases s.len(),
{
    if s.len() == 0 {
        0
    } else {
        newlines(s.drop_last()) + if s.last() == '\n' { 1nat } else { 0nat }
    }
}

/// `p` is where line `n` of `s` starts: just after its `n`-th newline
/// (line 0 starts at 0).
pub open spec fn is_line_start(s: Seq<char>, n: nat, p: int) -> bool {
    &&& 0 <= p <= s.len()
    &&& newlines(s.subrange(0, p)) == n
    &&& (p == 0 || s[p - 1] == '\n')
}

/// A chunk that construction keeps as one leaf: short enough, and no newline
/// before its last character.
pub open spec fn is_chunk(s: Seq<char>) -> bool {
    &&& s.len() <= LEAF_MAX
    &&& forall|i: int| 0 <= i < s.len() - 1 ==> s[i] != '\n'
}

/// A chunk that does not end in a newline, followed by another chunk, is a
/// chunk when the two fit in `LEAF_MAX`.
pub proof fn lemma_chunk_join(a: Seq<char>, b: Seq<char>)
    requires
        is_chunk(a),
        is_chunk(b),
        a.len() > 0,
        a.last() != '\n',
        a.len() + b.len() <= LEAF_MAX,
    ensures
        is_chunk(a + b),
{
    assert forall|i: int| 0 <= i < (a + b).len() - 1 implies (a + b)[i] != '\n' by {
        if i >= a.len() {
            assert((a + b)[i] == b[i - a.len()]);
        }
    }
}

/// Any range of a chunk is a chunk.
pub proof fn lemma_chunk_range(s: Seq<char>, i: int, j: int)
    requires
        is_chunk(s),
        0 <= i <= j <= s.len(),
    ensures
        is_chunk(s.subrange(i, j)),
{
    assert forall|k: int| 0 <= k < s.subrange(i, j).len() - 1 implies s.subrange(i, j)[k] != '\n' by {
        assert(s.subrange(i, j)[k] == s[i + k]);
    }
}

/// `l` is the first line of `s`: a non-empty prefix with no newline before
/// its last character, which is a newline unless `l` is all of `s`.
pub open spec fn is_first_line(l: Seq<char>, s: Seq<char>) -> bool {
    &&& 0 < l.len() <= s.len()
    &&& s.subrange(0, l.len() as int) == l
    &&& forall|i: int| 0 <= i < l.len() - 1 ==> l[i] != '\n'
    &&& l.len() < s.len() ==> l.last() == '\n'
}

/// The form of a rope's tree, with the characters of each leaf.
pub enum Shape {
    Chunk(Seq<char>),
    Node(Box<Shape>, Box<Shape>),
}

impl Shape {
    /// The characters of the leaves, front to back.
    pub open spec fn chars(self) -> Seq<char>
        decreases self,
    {
        match self {
            Shape::Chunk(s) => s,
            Shape::Node(l, r) => l.chars() + r.chars(),
        }
    }
}

/// The tree that joining two trees gives: an empty side gives the other; two
/// leaves merge when the first does not end in a newline and together they
/// stay under `LEAF_MAX`; the last leaf of a branch merges with a leaf on the
/// right under the same conditions; otherwise a new branch holds the two.
pub open spec fn join_shape(a: Shape, b: Shape) -> Shape
    decreases a,
{
    if a.chars().len() == 0 {
        b
    } else if b.chars().len() == 0 {
        a
    } else {
        match (a, b) {
            (Shape::Chunk(x), Shape::Chunk(y)) => {
                if x.len() + y.len() < LEAF_MAX && x.last() != '\n' {
                    Shape::Chunk(x + y)
                } else {
                    Shape::Node(Box::new(a), Box::new(b))
                }
            },
            (Shape::Node(l, r), Shape::Chunk(y)) => match *r {
                Shape::Chunk(x) => {
                    if x.last() != '\n' && x.len() + y.len() < LEAF_MAX {
                        join_shape(*l, Shape::Chunk(x + y))
                    } else {
                        Shape::Node(Box::new(a), Box::new(b))
                    }
                },
                _ => Shape::Node(Box::new(a), Box::new(b)),
            },
            _ => Shape::Node(Box::new(a), Box::new(b)),
        }
    }
}

/// Index of the first newline of `s`, or its length when it has none.
pub open spec fn first_newline(s: Seq<char>) -> nat
    decreases s.len(),
{
    if s.len() == 0 {
        0
    } else if s[0] == '\n' {
        0
    } else {
        1 + first_newline(s.drop_first())
    }
}

/// The tree that construction builds from `s`: split just after the first
/// newline when it comes before the last character, else at the middle when
/// `s` is longer than `LEAF_MAX`, and join the two built halves; otherwise one
/// leaf.
pub open spec fn built(s: Seq<char>) -> Shape
    decreases s.len(),
{
    let i = first_newline(s) as int;
    let h = (s.len() / 2) as int;
    if s.len() > 0 && i < s.len() - 1 {
        join_shape(
            built(s.subrange(0, i + 1)),
            built(s.subrange(i + 1, s.len() as int)),
        )
    } else if s.len() > LEAF_MAX {
        join_shape(
            built(s.subrange(0, h)),
            built(s.subrange(h, s.len() as int)),
        )
    } else {
        Shape::Chunk(s)
    }
}

/// The first newline is at `i` when none comes before and one (or the end)
/// is there.
pub proof fn lemma_first_newline(s: Seq<char>, i: int)
    requires
        0 <= i <= s.len(),
        forall|j: int| 0 <= j < i ==> s[j] != '\n',
        i == s.len() || s[i] == '\n',
    ensures
        first_newline(s) == i,
    decreases i,
{
    if i > 0 {
        lemma_first_newline(s.drop_first(), i - 1);
    }
}

/// The smaller of `a` and `b`.
pub open spec fn min_int(a: int, b: int) -> int {
    if a <= b { a } else { b }
}

/// Newlines of a concatenation add up.
pub proof fn lemma_newlines_append(a: Seq<char>, b: Seq<char>)
    ensures
        newlines(a + b) == newlines(a) + newlines(b),
    decreases b.len(),
{
    if b.len() == 0 {
        assert(a + b =~= a);
    } else {
        lemma_newlines_append(a, b.drop_last());
        assert((a + b).drop_last() =~= a + b.drop_last());
    }
}

/// There are no more newlines than characters.
pub proof fn lemma_newlines_bound(s: Seq<char>)
    ensures
        newlines(s) <= s.len(),
    decreases s.len(),
{
    if s.len() > 0 {
        lemma_newlines_bound(s.drop_last());
    }
}

/// Counting one more character of a prefix.
pub proof fn lemma_newlines_step(s: Seq<char>, i: int)
    requires
        0 <= i < s.len(),
    ensures
        newlines(s.subrange(0, i + 1)) == newlines(s.subrange(0, i)) + if s[i] == '\n' {
            1nat
        } else {
            0nat
        },
{
    assert(s.subrange(0, i + 1).drop_last() =~= s.subrange(0, i));
}

/// The characters of the strings, one after another.
pub open spec fn joined(items: Seq<String>) -> Seq<char>
    decreases items.len(),
{
    if items.len() == 0 {
        Seq::empty()
    } else {
        joined(items.drop_last()) + items.last()@
    }
}

/// The strings of a prefix hold no more characters than all of them.
pub proof fn lemma_joined_prefix(items: Seq<String>, j: int)
    requires
        0 <= j <= items.len(),
    ensures
        joined(items.subrange(0, j)).len() <= joined(items).len(),
    decreases items.len(),
{
    if j < items.len() {
        assert(items.drop_last().subrange(0, j) =~= items.subrange(0, j));
        lemma_joined_prefix(items.drop_last(), j);
    } else {
        assert(items.subrange(0, j) =~= items);
    }
}

/// Where line `n` of `s` starts (meaningful when some such position exists,
/// and then unique).
pub open spec fn line_start(s: Seq<char>, n: nat) -> int {
    choose|p: int| is_line_start(s, n, p)
}

/// The part of `s` from `start` taking at most `len` characters, both bounds
/// clamped to the end of `s`.
pub open spec fn clamped(s: Seq<char>, start: int, len: int) -> Seq<char> {
    s.subrange(min_int(start, s.len() as int), min_int(start + len, s.len() as int))
}

/// Line starts come in the order of their line numbers.
pub proof fn lemma_line_start_order(s: Seq<char>, a: nat, p: int, b: nat, q: int)
    requires
        is_line_start(s, a, p),
        is_line_start(s, b, q),
        p < q,
    ensures
        a < b,
{
    lemma_newlines_append(s.subrange(0, p), s.subrange(p, q));
    assert(s.subrange(0, q) =~= s.subrange(0, p) + s.subrange(p, q));
    assert(s.subrange(p, q).last() == '\n');
}

/// Each line up to the newline count has a start, the one that `line_start`
/// names.
pub proof fn lemma_line_start_exists(s: Seq<char>, n: nat)
    requires
        n <= newlines(s),
    ensures
        is_line_start(s, n, line_start(s, n)),
    decreases s.len(),
{
    if n == 0 {
        assert(s.subrange(0, 0).len() == 0);
        assert(is_line_start(s, n, 0));
    } else {
        let t = s.drop_last();
        if n <= newlines(t) {
            lemma_line_start_exists(t, n);
            let p = line_start(t, n);
            assert(s.subrange(0, p) =~= t.subrange(0, p));
            assert(is_line_start(s, n, p));
        } else {
            assert(s.subrange(0, s.len() as int) =~= s);
            assert(is_line_start(s, n, s.len() as int));
        }
    }
}

/// A line has one start: the position that `line_start` names.
pub proof fn lemma_line_start_unique(s: Seq<char>, n: nat, p: int)
    requires
        is_line_start(s, n, p),
    ensures
        line_start(s, n) == p,
{
    let q = line_start(s, n);
    if q < p {
        lemma_line_start_order(s, n, q, n, p);
    } else if p < q {
        lemma_line_start_order(s, n, p, n, q);
    }
}

} // verus!
