use std::sync::Arc;
use vstd::prelude::*;
use vstd::string::{StrSliceExecFns, StringExecFns};
use crate::model::{
    built, join_shape, lemma_first_newline, Shape, clamped, is_chunk, is_first_line, is_line_start, joined, lemma_chunk_join, lemma_chunk_range, lemma_joined_prefix, lemma_line_start_exists,
    lemma_line_start_order, lemma_line_start_unique, lemma_newlines_append, lemma_newlines_bound,
    lemma_newlines_step, line_start, min_int, newlines, LEAF_MAX,
};

verus! {

/// An immutable rope: either a shared chunk of characters or a shared branch
/// that caches aggregates over its two children.
pub enum Text {
    Branch(Arc<TextNode>),
    Leaf(Arc<String>),
}

/// An inner node of a [`Text`], with the total length, height and newline
/// count of its subtree.
pub struct TextNode {
    left: Text,
    right: Text,
    length: usize,
    depth: usize,
    lines: usize,
}

impl Text {
    /// The characters of the rope, front to back.
    pub closed spec fn content(self) -> Seq<char>
        decreases self,
    {
        match self {
            Text::Leaf(s) => s@,
            Text::Branch(n) => n.left.content() + n.right.content(),
        }
    }

    /// Height of the tree; a leaf has height 0.
    pub closed spec fn height(self) -> nat
        decreases self,
    {
        match self {
            Text::Leaf(_) => 0,
            Text::Branch(n) => {
                let hl = n.left.height();
                let hr = n.right.height();
                (if hl >= hr { hl } else { hr }) + 1
            },
        }
    }

    /// Every leaf is a chunk: at most `LEAF_MAX` characters, with a newline
    /// only as its last character.
    pub closed spec fn chunked(self) -> bool
        decreases self,
    {
        match self {
            Text::Leaf(s) => is_chunk(s@),
            Text::Branch(n) => n.left.chunked() && n.right.chunked(),
        }
    }

    /// A leaf is well formed, and chunked when its characters are a chunk.
    pub proof fn lemma_leaf_wf(&self)
        requires
            self is Leaf,
        ensures
            self.wf(),
            self.chunked() == is_chunk(self@),
    {
    }

    /// A well-formed branch is chunked.
    pub proof fn lemma_branch_chunked(&self)
        requires
            self.wf(),
            self is Branch,
        ensures
            self.chunked(),
    {
    }

    /// Read in order, the leaves give the characters of the rope.
    pub proof fn lemma_leaves_content(&self)
        ensures
            self.leaves().flatten() == self@,
        decreases self,
    {
        match self {
            Text::Leaf(s) => {
                self.leaves().lemma_flatten_one_element();
            },
            Text::Branch(n) => {
                n.left.lemma_leaves_content();
                n.right.lemma_leaves_content();
                vstd::seq_lib::lemma_flatten_concat(n.left.leaves(), n.right.leaves());
            },
        }
    }

    /// In a chunked rope every leaf is a chunk.
    pub proof fn lemma_chunked_leaves(&self)
        requires
            self.chunked(),
        ensures
            forall|i: int| 0 <= i < self.leaves().len() ==> is_chunk(#[trigger] self.leaves()[i]),
        decreases self,
    {
        if let Text::Branch(n) = self {
            n.left.lemma_chunked_leaves();
            n.right.lemma_chunked_leaves();
            assert forall|i: int| 0 <= i < self.leaves().len() implies is_chunk(
                #[trigger] self.leaves()[i],
            ) by {
                if i >= n.left.leaves().len() {
                    assert(self.leaves()[i] == n.right.leaves()[i - n.left.leaves().len()]);
                }
            }
        }
    }

    /// Matching ropes hold the same characters.
    pub proof fn lemma_same_tree_content(&self, other: &Self)
        requires
            self.same_tree(*other),
        ensures
            self@ == other@,
        decreases self,
    {
        match (self, other) {
            (Text::Branch(a), Text::Branch(b)) => {
                a.left.lemma_same_tree_content(&b.left);
                a.right.lemma_same_tree_content(&b.right);
            },
            _ => {},
        }
    }

    /// Matching is symmetric.
    pub proof fn lemma_same_tree_symmetric(&self, other: &Self)
        requires
            self.same_tree(*other),
        ensures
            other.same_tree(*self),
        decreases self,
    {
        match (self, other) {
            (Text::Branch(a), Text::Branch(b)) => {
                a.left.lemma_same_tree_symmetric(&b.left);
                a.right.lemma_same_tree_symmetric(&b.right);
            },
            _ => {},
        }
    }

    /// The form of the tree, with the characters of each leaf.
    pub closed spec fn shape(self) -> Shape
        decreases self,
    {
        match self {
            Text::Leaf(s) => Shape::Chunk(s@),
            Text::Branch(n) => Shape::Node(Box::new(n.left.shape()), Box::new(n.right.shape())),
        }
    }

    /// The leaves of the form hold the characters of the rope.
    pub proof fn lemma_shape_chars(&self)
        ensures
            self.shape().chars() == self@,
        decreases self,
    {
        if let Text::Branch(n) = self {
            n.left.lemma_shape_chars();
            n.right.lemma_shape_chars();
        }
    }

    /// Well-formed ropes of one form match, hold the same characters and
    /// have the same height.
    pub proof fn lemma_same_shape(&self, other: &Self)
        requires
            self.wf(),
            other.wf(),
            self.shape() == other.shape(),
        ensures
            self.same_tree(*other),
            self@ == other@,
            self.height() == other.height(),
        decreases self,
    {
        match (self, other) {
            (Text::Branch(a), Text::Branch(b)) => {
                assert(a.left.shape() == b.left.shape());
                assert(a.right.shape() == b.right.shape());
                a.left.lemma_same_shape(&b.left);
                a.right.lemma_same_shape(&b.right);
            },
            (Text::Leaf(a), Text::Leaf(b)) => {},
            (Text::Leaf(_), Text::Branch(_)) => {
                assert(false);
            },
            (Text::Branch(_), Text::Leaf(_)) => {
                assert(false);
            },
        }
    }

    /// `self` is a branch whose last leaf takes the leaf `right` in: that
    /// leaf is non-empty, does not end in a newline, and the two together stay
    /// under `LEAF_MAX`.
    pub closed spec fn absorbs(self, right: Self) -> bool {
        match (self, right) {
            (Text::Branch(n), Text::Leaf(rs)) => match n.right {
                Text::Leaf(ns) => {
                    &&& ns@.len() > 0
                    &&& rs@.len() > 0
                    &&& ns@.last() != '\n'
                    &&& ns@.len() + rs@.len() < LEAF_MAX
                },
                _ => false,
            },
            _ => false,
        }
    }

    /// Every branch holds two non-empty children and caches exactly their
    /// total length, their newline count and its height; the leaves under a
    /// branch are chunks. A lone leaf may hold any characters.
    pub closed spec fn wf(self) -> bool
        decreases self,
    {
        match self {
            Text::Leaf(_) => true,
            Text::Branch(n) => {
                &&& n.left.wf()
                &&& n.right.wf()
                &&& n.left.content().len() > 0
                &&& n.right.content().len() > 0
                &&& n.length as int == n.left.content().len() + n.right.content().len()
                &&& n.lines as nat == newlines(self.content())
                &&& n.depth as nat == self.height()
                &&& self.chunked()
            },
        }
    }

    /// Same shape and same characters: two leaves with equal characters, or
    /// two branches with equal cached aggregates whose children match in turn.
    pub closed spec fn same_tree(self, other: Self) -> bool
        decreases self,
    {
        match (self, other) {
            (Text::Leaf(a), Text::Leaf(b)) => a@ == b@,
            (Text::Branch(a), Text::Branch(b)) => {
                &&& a.length == b.length
                &&& a.depth == b.depth
                &&& a.lines == b.lines
                &&& a.left.same_tree(b.left)
                &&& a.right.same_tree(b.right)
            },
            _ => false,
        }
    }

    /// Every rope matches itself.
    pub proof fn lemma_same_tree_reflexive(&self)
        ensures
            self.same_tree(*self),
        decreases self,
    {
        if let Text::Branch(n) = self {
            n.left.lemma_same_tree_reflexive();
            n.right.lemma_same_tree_reflexive();
        }
    }

    /// Compares two ropes node by node, answering at once for two handles on
    /// the same shared node.
    fn eq_tree(&self, other: &Self) -> (r: bool)
        ensures
            r == self.same_tree(*other),
        decreases self,
    {
        match self {
            Text::Leaf(a) => match other {
                Text::Leaf(b) => {
                    if same_node(a, b) {
                        true
                    } else {
                        (**a).eq(&**b)
                    }
                },
                Text::Branch(_) => false,
            },
            Text::Branch(a) => match other {
                Text::Branch(b) => {
                    if same_node(a, b) {
                        proof {
                            self.lemma_same_tree_reflexive();
                        }
                        true
                    } else {
                        a.length == b.length && a.depth == b.depth && a.lines == b.lines
                            && a.left.eq_tree(&b.left) && a.right.eq_tree(&b.right)
                    }
                },
                Text::Leaf(_) => false,
            },
        }
    }

    /// The leaves, front to back, each as its characters.
    pub closed spec fn leaves(&self) -> Seq<Seq<char>>
        decreases self,
    {
        match self {
            Text::Leaf(s) => seq![s@],
            Text::Branch(n) => n.left.leaves() + n.right.leaves(),
        }
    }

    /// Every tree has a leaf.
    pub proof fn lemma_leaves_nonempty(&self)
        ensures
            self.leaves().len() > 0,
        decreases self,
    {
        if let Text::Branch(n) = self {
            n.left.lemma_leaves_nonempty();
        }
    }

    /// Number of nodes in the tree.
    pub closed spec fn size(self) -> nat
        decreases self,
    {
        match self {
            Text::Leaf(_) => 1,
            Text::Branch(n) => n.left.size() + n.right.size() + 1,
        }
    }

    /// A walk over the leaves, front to back.
    pub fn iter(&self) -> (r: Iter)
        ensures
            r@ == self.leaves(),
    {
        Iter::new(self)
    }

    /// A walk over the lines, each with its newline.
    pub fn iter_lines(&self) -> (r: LineIter)
        ensures
            r.buffered() == Seq::<char>::empty(),
            r.pending() == self.leaves(),
    {
        LineIter::new(self)
    }

    /// An empty rope.
    pub fn new() -> (r: Self)
        ensures
            r.wf(),
            r is Leaf,
            r@ == Seq::<char>::empty(),
    {
        Text::Leaf(Arc::new(String::new()))
    }

    /// Number of characters.
    pub fn len(&self) -> (r: usize)
        requires
            self.wf(),
        ensures
            r as int == self@.len(),
    {
        match self {
            Text::Branch(node) => node.length,
            Text::Leaf(string) => string.as_str().unicode_len(),
        }
    }

    /// A well-formed tree is no higher than it is long.
    proof fn lemma_height_bound(&self)
        requires
            self.wf(),
        ensures
            self.height() <= self@.len(),
        decreases self,
    {
        if let Text::Branch(n) = self {
            n.left.lemma_height_bound();
            n.right.lemma_height_bound();
        }
    }

    /// Number of newline characters.
    pub fn lines(&self) -> (r: usize)
        requires
            self.wf(),
        ensures
            r as nat == newlines(self@),
    {
        match self {
            Text::Branch(node) => node.lines,
            Text::Leaf(string) => {
                let s = string.as_str();
                let n = s.unicode_len();
                let mut count: usize = 0;
                let mut i: usize = 0;
                while i < n
                    invariant
                        n as int == s@.len(),
                        s@ == self@,
                        i <= n,
                        count as nat == newlines(s@.subrange(0, i as int)),
                    decreases n - i,
                {
                    proof {
                        lemma_newlines_step(s@, i as int);
                        lemma_newlines_bound(s@.subrange(0, i as int));
                    }
                    if s.get_char(i) == '\n' {
                        count = count + 1;
                    }
                    i = i + 1;
                }
                assert(s@.subrange(0, n as int) =~= s@);
                count
            },
        }
    }

    /// Height of the tree; a leaf has height 0.
    pub fn depth(&self) -> (r: usize)
        requires
            self.wf(),
        ensures
            r as nat == self.height(),
    {
        match self {
            Text::Branch(node) => node.depth,
            Text::Leaf(_) => 0,
        }
    }

    /// Whether the rope is a single leaf.
    pub fn is_leaf(&self) -> (r: bool)
        ensures
            r == self is Leaf,
    {
        match self {
            Text::Leaf(_) => true,
            _ => false,
        }
    }

    /// The character at `index`, or `None` past the end.
    pub fn char_at(&self, index: usize) -> (r: Option<char>)
        requires
            self.wf(),
        ensures
            r == (if index < self@.len() { Some(self@[index as int]) } else { None::<char> }),
        decreases self,
    {
        if index >= self.len() {
            None
        } else {
            match self {
                Text::Leaf(string) => Some(string.as_str().get_char(index)),
                Text::Branch(node) => {
                    let l = node.left.len();
                    if index < l {
                        node.left.char_at(index)
                    } else {
                        node.right.char_at(index - l)
                    }
                },
            }
        }
    }

    /// Builds a rope from `r`, splitting just after its first newline when one
    /// comes before the last character, else at the middle when it is longer
    /// than `LEAF_MAX`; otherwise it is one leaf.
    pub fn from_str(r: &str) -> (t: Self)
        ensures
            t.wf(),
            t.chunked(),
            t@ == r@,
            t.shape() == built(r@),
            is_chunk(r@) ==> t is Leaf,
        decreases r@.len(),
    {
        let n = r.unicode_len();
        let mut i: usize = 0;
        while i < n && r.get_char(i) != '\n'
            invariant
                n as int == r@.len(),
                i <= n,
                forall|j: int| 0 <= j < i ==> r@[j] != '\n',
            decreases n - i,
        {
            i = i + 1;
        }
        proof {
            lemma_first_newline(r@, i as int);
        }
        let target: usize = if n > 0 && i < n - 1 {
            i + 1
        } else if n > LEAF_MAX {
            n / 2
        } else {
            return Text::Leaf(Arc::new(String::from_str(r)));
        };
        let left = r.substring_char(0, target);
        let right = r.substring_char(target, n);
        proof {
            assert(r@ =~= left@ + right@);
        }
        Self::join(Self::from_str(left), Self::from_str(right))
    }

    /// Puts a leaf back through construction; a branch is kept.
    fn reorder_leaf(&self) -> (r: Self)
        requires
            self.wf(),
        ensures
            r.wf(),
            r@ == self@,
            r.chunked(),
            self is Branch ==> r == *self,
            self is Leaf && is_chunk(self@) ==> r is Leaf,
            self.chunked() ==> r.height() == self.height(),
    {
        match self {
            Text::Leaf(string) => Self::from_str(string.as_str()),
            _ => self.clone(),
        }
    }

    /// Joins two ropes already in construction form: an empty side gives the
    /// other; two short leaves, or the last leaf of `left` and a short leaf
    /// `right`, are merged when the first does not end in a newline; otherwise
    /// a new branch is made.
    fn join(left: Self, right: Self) -> (r: Self)
        requires
            left.wf(),
            right.wf(),
            left.chunked(),
            right.chunked(),
            left@.len() + right@.len() <= usize::MAX,
        ensures
            r.wf(),
            r.chunked(),
            r@ == left@ + right@,
            r.shape() == join_shape(left.shape(), right.shape()),
            r.height() <= (if left.height() >= right.height() { left.height() } else { right.height() }) + 1,
            left.absorbs(right) ==> r.height() <= left.height(),
            left is Leaf && right is Leaf && left@.len() > 0 && right@.len() > 0 && left@.len()
                + right@.len() < LEAF_MAX && left@.last() != '\n' ==> r is Leaf,
            left is Leaf && right is Leaf && left@.len() > 0 && right@.len() > 0 && left@.last()
                == '\n' ==> r is Branch && r.height() == 1 && r.leaves() == seq![left@, right@],
            left@.len() == 0 ==> r == right,
            left@.len() > 0 && right@.len() == 0 ==> r == left,
        decreases left.height(),
    {
        proof {
            left.lemma_shape_chars();
            right.lemma_shape_chars();
        }
        let ll = left.len();
        if ll == 0 {
            assert(left@ + right@ =~= right@);
            return right;
        }
        let rl = right.len();
        if rl == 0 {
            assert(left@ + right@ =~= left@);
            return left;
        }
        if let Text::Leaf(rs) = &right {
            match &left {
                Text::Leaf(ls) => {
                    if ll + rl < LEAF_MAX && ls.as_str().get_char(ll - 1) != '\n' {
                        let mut merged = String::from_str(ls.as_str());
                        merged.append(rs.as_str());
                        proof {
                            lemma_chunk_join(ls@, rs@);
                            assert(join_shape(left.shape(), right.shape()) == Shape::Chunk(
                                ls@ + rs@,
                            ));
                        }
                        return Text::Leaf(Arc::new(merged));
                    }
                },
                Text::Branch(node) => {
                    if let Text::Leaf(ns) = &node.right {
                        let nl = node.right.len();
                        if ns.as_str().get_char(nl - 1) != '\n' && nl + rl < LEAF_MAX {
                            let mut merged = String::from_str(ns.as_str());
                            merged.append(rs.as_str());
                            proof {
                                assert(left@ + right@ =~= node.left@ + merged@);
                                assert(node.right.chunked());
                                lemma_chunk_join(ns@, rs@);
                                assert(node.right.shape() == Shape::Chunk(ns@));
                                assert(join_shape(left.shape(), right.shape()) == join_shape(
                                    node.left.shape(),
                                    Shape::Chunk(ns@ + rs@),
                                ));
                            }
                            return Self::join(node.left.clone(), Text::Leaf(Arc::new(merged)));
                        }
                    }
                },
            }
        }
        let dl = left.depth();
        let dr = right.depth();
        let lines_l = left.lines();
        let lines_r = right.lines();
        proof {
            left.lemma_height_bound();
            right.lemma_height_bound();
            lemma_newlines_bound(left@);
            lemma_newlines_bound(right@);
            lemma_newlines_append(left@, right@);
            assert(left.leaves() + right.leaves() =~= seq![left@, right@] || !(left is Leaf
                && right is Leaf));
        }
        let depth = if dl >= dr { dl + 1 } else { dr + 1 };
        proof {
            if let Text::Branch(node) = &left {
                if let Text::Leaf(ns) = &node.right {
                    assert(node.right.shape() == Shape::Chunk(ns@));
                }
            }
            assert(join_shape(left.shape(), right.shape()) == Shape::Node(
                Box::new(left.shape()),
                Box::new(right.shape()),
            ));
        }
        let r = Text::Branch(
            Arc::new(
                TextNode { left, right, length: ll + rl, depth, lines: lines_l + lines_r },
            ),
        );
        r
    }

    /// A rope holding the characters of `self` followed by those of `other`.
    /// Both are left as they are and shared where possible. A leaf on either
    /// side is first put back through construction.
    ///
    /// No rebalancing is done: repeated concatenation of pieces that cannot be
    /// merged makes the tree as deep as it has pieces.
    pub fn concat(&self, other: &Self) -> (r: Self)
        requires
            self.wf(),
            other.wf(),
            self@.len() + other@.len() <= usize::MAX,
        ensures
            r.wf(),
            r.chunked(),
            r@ == self@ + other@,
            self@.len() == 0 && other is Branch ==> r == *other,
            other@.len() == 0 && self is Branch ==> r == *self,
            self.chunked() && other.chunked() ==> r.height() <= (if self.height()
                >= other.height() { self.height() } else { other.height() }) + 1,
            self.wf() && is_chunk(other@) && self.absorbs(*other) ==> r.height() <= self.height(),
            self is Leaf && other is Leaf && is_chunk(self@) && is_chunk(other@) && self@.len() > 0
                && other@.len() > 0 && self@.len() + other@.len() < LEAF_MAX && self@.last()
                != '\n' ==> r is Leaf,
            self is Leaf && other is Leaf && is_chunk(self@) && is_chunk(other@) && self@.len() > 0
                && other@.len() > 0 && self@.last() == '\n' ==> r is Branch && r.height() == 1
                && r.leaves() == seq![self@, other@],
    {
        let left = self.reorder_leaf();
        let right = other.reorder_leaf();
        proof {
            if is_chunk(other@) && self.absorbs(*other) {
                assert(left.absorbs(right));
            }
        }
        Self::join(left, right)
    }

    /// A rope of the given strings in turn, each added as a leaf with
    /// `concat`.
    pub fn from_strings(items: Vec<String>) -> (r: Self)
        requires
            joined(items@).len() <= usize::MAX,
        ensures
            r.wf(),
            r@ == joined(items@),
    {
        let mut rope = Text::new();
        let mut i: usize = 0;
        while i < items.len()
            invariant
                i <= items@.len(),
                rope.wf(),
                rope@ == joined(items@.subrange(0, i as int)),
                joined(items@).len() <= usize::MAX,
            decreases items@.len() - i,
        {
            proof {
                assert(items@.subrange(0, i + 1).drop_last() =~= items@.subrange(0, i as int));
                lemma_joined_prefix(items@, i + 1);
            }
            let leaf = Text::Leaf(Arc::new(items[i].clone()));
            rope = rope.concat(&leaf);
            i = i + 1;
        }
        assert(items@.subrange(0, items@.len() as int) =~= items@);
        rope
    }

    /// A rope of the given characters in turn, each added as a one-character
    /// leaf with `concat`.
    pub fn from_chars(items: Vec<char>) -> (r: Self)
        ensures
            r.wf(),
            r@ == items@,
    {
        let mut rope = Text::new();
        let mut i: usize = 0;
        while i < items.len()
            invariant
                i <= items@.len(),
                rope.wf(),
                rope@ == items@.subrange(0, i as int),
            decreases items@.len() - i,
        {
            let leaf = Text::Leaf(Arc::new(char_string(items[i])));
            proof {
                assert(items@.subrange(0, i + 1) =~= rope@ + leaf@);
            }
            rope = rope.concat(&leaf);
            i = i + 1;
        }
        assert(items@.subrange(0, items@.len() as int) =~= items@);
        rope
    }

    /// The characters from `start`, at most `len` of them; a range that runs
    /// past the end is cut at the end.
    pub fn substr(&self, start: usize, len: usize) -> (r: Self)
        requires
            self.wf(),
        ensures
            r.wf(),
            r@ == clamped(self@, start as int, len as int),
            self.chunked() ==> r.chunked(),
        decreases self,
    {
        match self {
            Text::Leaf(string) => {
                let s = string.as_str();
                let n = s.unicode_len();
                let from = if start < n { start } else { n };
                let to = if len < n - from { from + len } else { n };
                proof {
                    if self.chunked() {
                        lemma_chunk_range(s@, from as int, to as int);
                    }
                }
                Text::Leaf(Arc::new(String::from_str(s.substring_char(from, to))))
            },
            Text::Branch(node) => {
                let rll = node.left.len();
                let left = if start == 0 && len >= rll {
                    node.left.clone()
                } else {
                    node.left.substr(start, len)
                };
                let ll = left.len();
                let total = node.length;
                let right = if start <= rll && len >= total - start {
                    node.right.clone()
                } else {
                    let split_start = if start > rll { start - rll } else { 0 };
                    let split_len = if len > ll { len - ll } else { 0 };
                    node.right.substr(split_start, split_len)
                };
                proof {
                    assert(left@ + right@ =~= clamped(self@, start as int, len as int));
                }
                left.concat(&right)
            },
        }
    }

    /// The first `count` characters and the rest; a `count` past the end
    /// keeps the whole rope.
    pub fn take_left(&self, count: usize) -> (r: (Self, Self))
        requires
            self.wf(),
        ensures
            r.0.wf(),
            r.1.wf(),
            r.0@ == self@.subrange(0, min_int(count as int, self@.len() as int)),
            r.1@ == self@.subrange(min_int(count as int, self@.len() as int), self@.len() as int),
            count > self@.len() ==> r.0 == *self,
    {
        let n = self.len();
        if count > n {
            assert(self@.subrange(0, n as int) =~= self@);
            (self.clone(), Text::new())
        } else {
            (self.substr(0, count), self.substr(count, n - count))
        }
    }

    /// The rope without its last `count` characters, and those characters; a
    /// `count` past the end gives the whole rope as the second part.
    pub fn take_right(&self, count: usize) -> (r: (Self, Self))
        requires
            self.wf(),
        ensures
            r.0.wf(),
            r.1.wf(),
            r.0@ == self@.subrange(0, self@.len() - min_int(count as int, self@.len() as int)),
            r.1@ == self@.subrange(self@.len() - min_int(count as int, self@.len() as int), self@.len() as int),
            count > self@.len() ==> r.1 == *self,
    {
        let n = self.len();
        if count > n {
            assert(self@.subrange(0, n as int) =~= self@);
            (Text::new(), self.clone())
        } else {
            let split = n - count;
            (self.substr(0, split), self.substr(split, count))
        }
    }

    /// `other` put in at `index` (at the end when `index` is past it).
    pub fn insert(&self, index: usize, other: &Text) -> (r: Self)
        requires
            self.wf(),
            other.wf(),
            self@.len() + other@.len() <= usize::MAX,
        ensures
            r.wf(),
            r@ == self@.subrange(0, min_int(index as int, self@.len() as int)) + other@
                + self@.subrange(min_int(index as int, self@.len() as int), self@.len() as int),
    {
        let n = self.len();
        let at = if index < n { index } else { n };
        let head = self.substr(0, at);
        let tail = self.substr(at, n - at);
        head.concat(other).concat(&tail)
    }

    /// The rope without the `count` characters from `index`. A range that runs
    /// past the end is cut at the end, as `substr` does.
    pub fn delete(&self, index: usize, count: usize) -> (r: Self)
        requires
            self.wf(),
        ensures
            r.wf(),
            r@ == self@.subrange(0, min_int(index as int, self@.len() as int))
                + self@.subrange(min_int(index + count, self@.len() as int), self@.len() as int),
    {
        let n = self.len();
        let at = if index < n { index } else { n };
        let right = if count < n - at { at + count } else { n };
        let head = self.substr(0, at);
        let tail = self.substr(right, n - right);
        head.concat(&tail)
    }

    /// All the characters as one string.
    pub fn to_string(&self) -> (r: String)
        requires
            self.wf(),
        ensures
            r@ == self@,
        decreases self,
    {
        match self {
            Text::Leaf(string) => String::from_str(string.as_str()),
            Text::Branch(node) => {
                let mut out = String::new();
                let l = node.left.to_string();
                let r = node.right.to_string();
                out.append(l.as_str());
                out.append(r.as_str());
                out
            },
        }
    }

    /// `offset` plus where line `line` starts; `None` for a line past 0 at or
    /// beyond the count of newlines.
    fn find_line(&self, line: usize, offset: usize) -> (r: Option<usize>)
        requires
            self.wf(),
            offset + self@.len() <= usize::MAX,
        ensures
            r is Some <==> (line == 0 || line < newlines(self@)),
            r matches Some(p) ==> p >= offset && is_line_start(self@, line as nat, p - offset),
    {
        if line > 0 && line >= self.lines() {
            return None;
        }
        self.seek_line(line, offset)
    }

    /// `offset` plus the position just after newline number `line` (0 for
    /// line 0); `None` when there are fewer newlines. Unlike `find_line`, this
    /// also finds the position after the last newline.
    fn seek_line(&self, line: usize, offset: usize) -> (r: Option<usize>)
        requires
            self.wf(),
            offset + self@.len() <= usize::MAX,
        ensures
            r is Some <==> line <= newlines(self@),
            r matches Some(p) ==> p >= offset && is_line_start(self@, line as nat, p - offset),
        decreases self,
    {
        if line == 0 {
            return Some(offset);
        }
        if line > self.lines() {
            return None;
        }
        match self {
            Text::Leaf(string) => {
                let s = string.as_str();
                let n = s.unicode_len();
                let mut count: usize = 0;
                let mut i: usize = 0;
                while i < n
                    invariant
                        n as int == s@.len(),
                        s@ == self@,
                        offset + n <= usize::MAX,
                        i <= n,
                        line <= newlines(self@),
                        count < line,
                        count as nat == newlines(s@.subrange(0, i as int)),
                    decreases n - i,
                {
                    proof {
                        lemma_newlines_step(s@, i as int);
                    }
                    if s.get_char(i) == '\n' {
                        count = count + 1;
                        if count == line {
                            return Some(offset + i + 1);
                        }
                    }
                    i = i + 1;
                }
                assert(s@.subrange(0, n as int) =~= s@);
                None
            },
            Text::Branch(node) => {
                let ll = node.left.lines();
                proof {
                    lemma_newlines_append(node.left@, node.right@);
                }
                if line <= ll {
                    let r = node.left.seek_line(line, offset);
                    proof {
                        let p = r.unwrap() - offset;
                        assert(self@.subrange(0, p) =~= node.left@.subrange(0, p));
                    }
                    r
                } else {
                    let r = node.right.seek_line(line - ll, offset + node.left.len());
                    proof {
                        let q = r.unwrap() - offset - node.left@.len();
                        let p = r.unwrap() - offset;
                        assert(self@.subrange(0, p) =~= node.left@ + node.right@.subrange(0, q));
                        lemma_newlines_append(node.left@, node.right@.subrange(0, q));
                        if q == 0 {
                            assert(node.right@.subrange(0, q).len() == 0);
                        }
                    }
                    r
                }
            },
        }
    }

    /// Where line `line` starts: always 0 for line 0, `None` for a line at or
    /// past the count of newlines.
    pub fn line_pos(&self, line: usize) -> (r: Option<usize>)
        requires
            self.wf(),
        ensures
            r is Some <==> (line == 0 || line < newlines(self@)),
            r matches Some(p) ==> p == line_start(self@, line as nat),
            line == 0 ==> r == Some(0usize),
    {
        let _n = self.len();
        let r = self.find_line(line, 0);
        proof {
            if r is Some {
                lemma_line_start_unique(self@, line as nat, r.unwrap() as int);
            }
        }
        r
    }

    /// The rope from the start of line `line` to the end, when that line has
    /// a start (see `line_pos`).
    pub fn from_line(&self, line: usize) -> (r: Option<Self>)
        requires
            self.wf(),
        ensures
            r is Some <==> (line == 0 || line < newlines(self@)),
            r matches Some(t) ==> t.wf() && t@ == self@.subrange(
                line_start(self@, line as nat),
                self@.len() as int,
            ),
    {
        match self.line_pos(line) {
            Some(pos) => {
                proof {
                    lemma_newlines_bound(self@);
                    lemma_line_start_exists(self@, line as nat);
                }
                Some(self.substr(pos, self.len() - pos))
            },
            None => None,
        }
    }

    /// Line `line` with its newline: it ends where the next line starts, or
    /// at the end of the rope when no newline follows its start.
    pub fn line(&self, line: usize) -> (r: Option<Self>)
        requires
            self.wf(),
        ensures
            r is Some <==> (line == 0 || line < newlines(self@)),
            r matches Some(t) ==> t.wf() && t@ == self@.subrange(
                line_start(self@, line as nat),
                if line + 1 <= newlines(self@) {
                    line_start(self@, (line + 1) as nat)
                } else {
                    self@.len() as int
                },
            ),
    {
        let start = self.line_pos(line);
        match start {
            None => None,
            Some(start) => {
                let n = self.len();
                proof {
                    lemma_newlines_bound(self@);
                    lemma_line_start_exists(self@, line as nat);
                }
                match self.seek_line(line + 1, 0) {
                    None => Some(self.substr(start, n - start)),
                    Some(end) => {
                        proof {
                            lemma_line_start_unique(self@, (line + 1) as nat, end as int);
                            if end < start {
                                lemma_line_start_order(
                                    self@,
                                    (line + 1) as nat,
                                    end as int,
                                    line as nat,
                                    start as int,
                                );
                            }
                        }
                        Some(self.substr(start, end - start))
                    },
                }
            },
        }
    }
}

/// Relies on `Arc::clone`: the new handle points to the same allocation, so it
/// holds the same value.
#[verifier::external_body]
fn share<T>(a: &Arc<T>) -> (r: Arc<T>)
    ensures
        r == *a,
{
    Arc::clone(a)
}

/// Relies on `ToString::to_string` for `char`: a string of that one
/// character.
#[verifier::external_body]
fn char_string(c: char) -> (r: String)
    ensures
        r@ == seq![c],
{
    c.to_string()
}

/// Relies on `Arc::ptr_eq`: two handles on one allocation hold the same
/// value.
#[verifier::external_body]
fn same_node<T>(a: &Arc<T>, b: &Arc<T>) -> (r: bool)
    ensures
        r ==> *a == *b,
{
    Arc::ptr_eq(a, b)
}

impl PartialEq for Text {
    fn eq(&self, other: &Self) -> bool {
        self.eq_tree(other)
    }
}

impl vstd::std_specs::cmp::PartialEqSpecImpl for Text {
    open spec fn obeys_eq_spec() -> bool {
        true
    }

    open spec fn eq_spec(&self, other: &Text) -> bool {
        self.same_tree(*other)
    }
}

impl Eq for Text {

}

impl Clone for Text {
    /// A new handle on the same shared node.
    fn clone(&self) -> (r: Self)
        ensures
            r == *self,
    {
        match self {
            Text::Branch(node) => Text::Branch(share(node)),
            Text::Leaf(string) => Text::Leaf(share(string)),
        }
    }
}

/// The leaves still to come from a stack whose top is its last element.
pub closed spec fn stack_leaves(st: Seq<Text>) -> Seq<Seq<char>>
    decreases st.len(),
{
    if st.len() == 0 {
        Seq::empty()
    } else {
        st.last().leaves() + stack_leaves(st.drop_last())
    }
}

/// Number of nodes on a stack of trees.
pub closed spec fn stack_size(st: Seq<Text>) -> nat
    decreases st.len(),
{
    if st.len() == 0 {
        0
    } else {
        st.last().size() + stack_size(st.drop_last())
    }
}

/// What one step of a leaf walk found.
enum IterResult {
    Next(Arc<String>),
    Walk,
    Done,
}

/// A depth-first walk over the leaves of a rope, with an explicit stack.
pub struct Iter {
    stack: Vec<Text>,
}

impl View for Iter {
    type V = Seq<Seq<char>>;

    /// The leaves not yet handed out.
    closed spec fn view(&self) -> Seq<Seq<char>> {
        stack_leaves(self.stack@)
    }
}

impl Iter {
    fn new(rope: &Text) -> (r: Iter)
        ensures
            r@ == rope.leaves(),
    {
        let r = Iter { stack: vec![rope.clone()] };
        proof {
            assert(r.stack@.drop_last() =~= Seq::<Text>::empty());
            assert(stack_leaves(r.stack@) == rope.leaves() + stack_leaves(r.stack@.drop_last()));
            assert(rope.leaves() + Seq::<Seq<char>>::empty() =~= rope.leaves());
        }
        r
    }

    /// Pops one tree: a leaf is handed out, a branch is replaced by its two
    /// children, left on top.
    fn step(&mut self) -> (r: IterResult)
        ensures
            old(self)@.len() == 0 ==> r is Done,
            r is Done ==> final(self)@ == old(self)@ && old(self)@.len() == 0,
            r matches IterResult::Next(s) ==> (old(self)@.len() > 0 && s@ == old(self)@[0]
                && final(self)@ == old(self)@.drop_first()),
            r is Walk ==> final(self)@ == old(self)@ && stack_size(final(self).stack@) < stack_size(
                old(self).stack@,
            ),
    {
        let ghost st = self.stack@;
        proof {
            if st.len() > 0 {
                st.last().lemma_leaves_nonempty();
            }
        }
        match self.stack.pop() {
            None => {
                assert(st.len() == 0);
                IterResult::Done
            },
            Some(rope) => {
                assert(st.drop_last() == self.stack@);
                match rope {
                    Text::Leaf(string) => {
                        assert(old(self)@ =~= seq![string@] + self@);
                        IterResult::Next(string)
                    },
                    Text::Branch(node) => {
                        self.stack.push(node.right.clone());
                        self.stack.push(node.left.clone());
                        let ghost s2 = self.stack@;
                        assert(s2.drop_last().drop_last() == st.drop_last());
                        assert(s2.last() == node.left);
                        assert(s2.drop_last().last() == node.right);
                        assert(stack_leaves(s2) == node.left.leaves() + stack_leaves(s2.drop_last()));
                        assert(stack_leaves(s2.drop_last()) == node.right.leaves() + stack_leaves(
                            st.drop_last(),
                        ));
                        assert(stack_size(s2) == node.left.size() + stack_size(s2.drop_last()));
                        assert(stack_size(s2.drop_last()) == node.right.size() + stack_size(
                            st.drop_last(),
                        ));
                        assert(old(self)@ =~= self@);
                        IterResult::Walk
                    },
                }
            },
        }
    }

    /// The next leaf, or `None` once all have been handed out.
    pub fn next(&mut self) -> (r: Option<Arc<String>>)
        ensures
            old(self)@.len() == 0 ==> r is None && final(self)@ == old(self)@,
            old(self)@.len() > 0 ==> (r matches Some(s) && s@ == old(self)@[0] && final(self)@
                == old(self)@.drop_first()),
    {
        loop
            invariant
                self@ == old(self)@,
            decreases stack_size(self.stack@),
        {
            match self.step() {
                IterResult::Walk => {},
                IterResult::Done => return None,
                IterResult::Next(s) => return Some(s),
            }
        }
    }
}

/// What a line walk hands out next from a buffer `buf` and the chunks still to
/// come: the buffer and the chunks up to the first that ends with a newline; or,
/// when none does, whatever is left if it is not empty. Second, the chunks that
/// remain after it.
pub open spec fn next_line(buf: Seq<char>, chunks: Seq<Seq<char>>) -> (Option<Seq<char>>, Seq<
    Seq<char>,
>)
    decreases chunks.len(),
{
    if chunks.len() == 0 {
        if buf.len() > 0 {
            (Some(buf), chunks)
        } else {
            (None, chunks)
        }
    } else if chunks[0].len() > 0 && chunks[0].last() == '\n' {
        (Some(buf + chunks[0]), chunks.drop_first())
    } else {
        next_line(buf + chunks[0], chunks.drop_first())
    }
}

/// With a buffer free of newlines and chunks still to come, the line walk
/// hands out the first line of what the two hold, and what remains after it
/// is still chunks.
pub proof fn lemma_next_line(buf: Seq<char>, chunks: Seq<Seq<char>>)
    requires
        forall|i: int| 0 <= i < buf.len() ==> buf[i] != '\n',
        forall|i: int| 0 <= i < chunks.len() ==> is_chunk(#[trigger] chunks[i]),
    ensures
        (buf + chunks.flatten()).len() == 0 <==> next_line(buf, chunks).0 is None,
        next_line(buf, chunks).0 matches Some(l) ==> is_first_line(l, buf + chunks.flatten())
            && l + next_line(buf, chunks).1.flatten() == buf + chunks.flatten(),
        forall|i: int|
            0 <= i < next_line(buf, chunks).1.len() ==> is_chunk(
                #[trigger] next_line(buf, chunks).1[i],
            ),
    decreases chunks.len(),
{
    if chunks.len() == 0 {
        assert(buf + chunks.flatten() =~= buf);
        assert(buf.subrange(0, buf.len() as int) =~= buf);
        assert(buf + Seq::<Seq<char>>::empty().flatten() =~= buf);
    } else {
        let c = chunks[0];
        let rest = chunks.drop_first();
        assert(is_chunk(chunks[0]));
        assert(buf + chunks.flatten() =~= (buf + c) + rest.flatten());
        assert forall|i: int| 0 <= i < rest.len() implies is_chunk(#[trigger] rest[i]) by {
            assert(rest[i] == chunks[i + 1]);
        }
        if c.len() > 0 && c.last() == '\n' {
            let l = buf + c;
            let s = buf + chunks.flatten();
            assert forall|i: int| 0 <= i < l.len() - 1 implies l[i] != '\n' by {
                if i >= buf.len() {
                    assert(l[i] == c[i - buf.len()]);
                }
            }
            assert(s.subrange(0, l.len() as int) =~= l);
        } else {
            let b2 = buf + c;
            assert forall|i: int| 0 <= i < b2.len() implies b2[i] != '\n' by {
                if i >= buf.len() {
                    assert(b2[i] == c[i - buf.len()]);
                }
            }
            lemma_next_line(b2, rest);
        }
    }
}

/// A walk over the lines of a rope, built from its leaves.
pub struct LineIter {
    buf: String,
    iter: Iter,
}

impl LineIter {
    /// Characters taken from leaves but not yet handed out.
    pub closed spec fn buffered(&self) -> Seq<char> {
        self.buf@
    }

    /// The leaves not yet read.
    pub closed spec fn pending(&self) -> Seq<Seq<char>> {
        self.iter@
    }

    fn new(rope: &Text) -> (r: Self)
        ensures
            r.buffered() == Seq::<char>::empty(),
            r.pending() == rope.leaves(),
    {
        LineIter { buf: String::new(), iter: Iter::new(rope) }
    }

    /// The next line, or `None` once nothing is left.
    pub fn next(&mut self) -> (r: Option<String>)
        ensures
            r matches Some(l) ==> next_line(old(self).buffered(), old(self).pending()).0 == Some(l@),
            r is None ==> next_line(old(self).buffered(), old(self).pending()).0 is None,
            final(self).pending() == next_line(old(self).buffered(), old(self).pending()).1,
            final(self).buffered() == Seq::<char>::empty(),
    {
        loop
            invariant
                next_line(self.buffered(), self.pending()) == next_line(
                    old(self).buffered(),
                    old(self).pending(),
                ),
            decreases self.pending().len(),
        {
            match self.iter.next() {
                None => {
                    if self.buf.as_str().unicode_len() > 0 {
                        let out = self.buf.clone();
                        self.buf = String::new();
                        return Some(out);
                    }
                    return None;
                },
                Some(chunk) => {
                    let c = chunk.as_str();
                    let n = c.unicode_len();
                    let ends_line = n > 0 && c.get_char(n - 1) == '\n';
                    self.buf.append(c);
                    if ends_line {
                        let out = self.buf.clone();
                        self.buf = String::new();
                        return Some(out);
                    }
                },
            }
        }
    }
}

impl View for Text {
    type V = Seq<char>;

    closed spec fn view(&self) -> Seq<char> {
        self.content()
    }
}

} // verus!
