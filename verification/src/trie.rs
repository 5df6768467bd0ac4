//! A trie of scored pieces.
use crate::score::Score;
use crate::text::chars_of;
use vstd::prelude::*;

verus! {

/// A node of the trie: the pieces that continue with each character, and the score of the piece
/// that ends here, if one does.
pub struct SpTrieNode<S> {
    children: Vec<(char, SpTrieNode<S>)>,
    score: S,
    is_end: bool,
}

/// The place of the first child for `c`.
spec fn child_place<S>(children: Seq<(char, SpTrieNode<S>)>, c: char) -> Option<int>
    decreases children.len(),
{
    if children.len() == 0 {
        None
    } else {
        match child_place(children.drop_last(), c) {
            Some(i) => Some(i),
            None => if children.last().0 == c {
                Some(children.len() - 1)
            } else {
                None
            },
        }
    }
}

/// The first child for `c` is where no child before it is for `c`.
proof fn lemma_child_place<S>(children: Seq<(char, SpTrieNode<S>)>, c: char)
    ensures
        match child_place(children, c) {
            Some(i) => 0 <= i < children.len() && children[i].0 == c && forall|j: int|
                0 <= j < i ==> (#[trigger] children[j]).0 != c,
            None => forall|j: int| 0 <= j < children.len() ==> (#[trigger] children[j]).0 != c,
        },
    decreases children.len(),
{
    if children.len() > 0 {
        lemma_child_place(children.drop_last(), c);
        assert(forall|j: int|
            0 <= j < children.len() - 1 ==> #[trigger] children[j] == children.drop_last()[j]);
    }
}

/// The ends of the pieces that match `text` from `start` and end at `end` or before, with their
/// scores, in ascending order.
pub open spec fn matches_up_to<S>(
    pieces: Map<Seq<char>, S>,
    text: Seq<char>,
    start: int,
    end: int,
) -> Seq<(usize, S)>
    decreases end - start,
{
    if end <= start {
        Seq::empty()
    } else {
        let before = matches_up_to(pieces, text, start, end - 1);
        let piece = text.subrange(start, end);
        if pieces.contains_key(piece) {
            before.push((end as usize, pieces[piece]))
        } else {
            before
        }
    }
}

impl<S> SpTrieNode<S> {
    /// The node that `path` leads to.
    spec fn node_at(self, path: Seq<char>) -> Option<SpTrieNode<S>>
        decreases path.len(),
    {
        if path.len() == 0 {
            Some(self)
        } else {
            match child_place(self.children@, path[0]) {
                Some(i) => self.children@[i].1.node_at(path.drop_first()),
                None => None,
            }
        }
    }

    /// The score of `piece`, if it is in the trie.
    spec fn lookup(self, piece: Seq<char>) -> Option<S> {
        match self.node_at(piece) {
            Some(node) if node.is_end => Some(node.score),
            _ => None,
        }
    }

    /// The pieces of the trie and their scores.
    pub closed spec fn pieces(self) -> Map<Seq<char>, S> {
        Map::new(|p: Seq<char>| self.lookup(p) is Some, |p: Seq<char>| self.lookup(p)->0)
    }

    /// Where a path ends early, every longer path does.
    proof fn lemma_node_at_prefix(self, path: Seq<char>, n: int)
        requires
            0 <= n <= path.len(),
            self.node_at(path.take(n)) is None,
        ensures
            self.node_at(path) is None,
        decreases path.len(),
    {
        if n > 0 {
            assert(path.take(n)[0] == path[0]);
            assert(path.take(n).drop_first() == path.drop_first().take(n - 1));
            if let Some(i) = child_place(self.children@, path[0]) {
                self.children@[i].1.lemma_node_at_prefix(path.drop_first(), n - 1);
            }
        }
    }

    /// A path one character longer leads to the child of the node that the path leads to.
    proof fn lemma_node_at_step(self, path: Seq<char>)
        requires
            path.len() > 0,
        ensures
            self.node_at(path) == match self.node_at(path.drop_last()) {
                Some(node) => match child_place(node.children@, path.last()) {
                    Some(i) => Some(node.children@[i].1),
                    None => None,
                },
                None => None,
            },
        decreases path.len(),
    {
        if path.len() == 1 {
            reveal_with_fuel(SpTrieNode::node_at, 2);
            assert(path.drop_last() == Seq::<char>::empty());
            assert(path.drop_first() == Seq::<char>::empty());
        } else {
            assert(path.drop_last()[0] == path[0]);
            assert(path.drop_last().drop_first() == path.drop_first().drop_last());
            if let Some(i) = child_place(self.children@, path[0]) {
                self.children@[i].1.lemma_node_at_step(path.drop_first());
            }
        }
    }

    /// The place of the first child for `c`.
    fn find_child(&self, c: char) -> (r: Option<usize>)
        ensures
            match r {
                Some(i) => child_place(self.children@, c) == Some(i as int),
                None => child_place(self.children@, c) is None,
            },
    {
        for i in 0..self.children.len()
            invariant
                child_place(self.children@.take(i as int), c) is None,
        {
            assert(self.children@.take(i + 1).drop_last() == self.children@.take(i as int));
            if self.children[i].0 == c {
                proof {
                    lemma_child_place(self.children@, c);
                    lemma_child_place(self.children@.take(i as int), c);
                    assert(forall|j: int|
                        0 <= j < i ==> #[trigger] self.children@[j] == self.children@.take(
                            i as int,
                        )[j]);
                }
                return Some(i);
            }
        }
        assert(self.children@.take(self.children@.len() as int) == self.children@);
        None
    }
}

impl<S: Score> SpTrieNode<S> {
    /// A trie without pieces.
    pub fn new() -> (r: Self)
        ensures
            r.pieces() == Map::<Seq<char>, S>::empty(),
    {
        let node = SpTrieNode { children: Vec::new(), score: S::zero(), is_end: false };
        assert forall|p: Seq<char>| node.lookup(p) is None by {
            lemma_child_place(node.children@, p[0]);
        }
        assert(node.pieces() =~= Map::<Seq<char>, S>::empty());
        node
    }

    /// Adds the piece that starts at the character `from` of `piece`.
    fn insert_from(&mut self, piece: &Vec<char>, from: usize, score: S)
        requires
            from <= piece@.len(),
        ensures
            forall|p: Seq<char>| #[trigger]
                final(self).lookup(p) == if p == piece@.skip(from as int) {
                    Some(score)
                } else {
                    old(self).lookup(p)
                },
        decreases piece@.len() - from,
    {
        let ghost before = *self;
        let ghost rest = piece@.skip(from as int);
        if from == piece.len() {
            self.score = score;
            self.is_end = true;
            assert forall|p: Seq<char>| #[trigger]
                self.lookup(p) == if p == rest {
                    Some(score)
                } else {
                    before.lookup(p)
                } by {
                if p.len() == 0 {
                    assert(p == rest);
                }
            }
            return ;
        }
        let c: char = piece[from];
        let place: usize = match self.find_child(c) {
            Some(i) => i,
            None => {
                let i: usize = self.children.len();
                self.children.push(
                    (c, SpTrieNode { children: Vec::new(), score: S::zero(), is_end: false }),
                );
                i
            },
        };
        let ghost mid = *self;
        proof {
            lemma_child_place(before.children@, c);
            assert forall|d: char| #[trigger] child_place(mid.children@, d) == if d == c {
                Some(place as int)
            } else {
                child_place(before.children@, d)
            } by {
                if child_place(before.children@, c) is None {
                    assert(mid.children@.drop_last() == before.children@);
                }
            }
        }
        let child = &mut self.children[place].1;
        child.insert_from(piece, from + 1, score);
        proof {
            let after = *self;
            assert(rest[0] == c);
            assert(rest.drop_first() == piece@.skip(from + 1));
            assert(after.children@.len() == mid.children@.len());
            assert(forall|j: int|
                #![trigger after.children@[j]]
                #![trigger mid.children@[j]]
                0 <= j < mid.children@.len() ==> after.children@[j].0 == mid.children@[j].0);
            assert forall|d: char| #[trigger]
                child_place(after.children@, d) == child_place(mid.children@, d) by {
                lemma_child_place(after.children@, d);
                lemma_child_place(mid.children@, d);
            }
            assert forall|p: Seq<char>| #[trigger]
                after.lookup(p) == if p == rest {
                    Some(score)
                } else {
                    before.lookup(p)
                } by {
                lemma_child_place(mid.children@, p[0]);
                if p.len() > 0 {
                    let q = p.drop_first();
                    assert(p == seq![p[0]] + q);
                    assert(rest == seq![c] + rest.drop_first());
                    assert(after.children@[place as int].1.lookup(q) == if q == rest.drop_first() {
                        Some(score)
                    } else {
                        mid.children@[place as int].1.lookup(q)
                    });
                    if p[0] == c {
                        if child_place(before.children@, c) is None {
                            lemma_child_place(mid.children@[place as int].1.children@, q[0]);
                        }
                    }
                }
            }
        }
    }

    /// Adds `piece` with its score, in place of the score that it had.
    pub fn insert(&mut self, piece: &str, score: S)
        ensures
            final(self).pieces() == old(self).pieces().insert(piece@, score),
    {
        let chars = chars_of(piece);
        self.insert_from(&chars, 0, score);
        assert(chars@.skip(0) == piece@);
        assert(self.pieces() =~= old(self).pieces().insert(piece@, score));
    }

    /// The score of `piece`, if it is in the trie.
    pub fn get(&self, piece: &str) -> (r: Option<S>)
        ensures
            r == (if self.pieces().contains_key(piece@) {
                Some(self.pieces()[piece@])
            } else {
                None
            }),
    {
        let chars = chars_of(piece);
        let mut node = self;
        assert(piece@.take(0) == Seq::<char>::empty());
        for i in 0..chars.len()
            invariant
                chars@ == piece@,
                self.node_at(piece@.take(i as int)) == Some(*node),
        {
            proof {
                self.lemma_node_at_step(piece@.take(i + 1));
                assert(piece@.take(i + 1).drop_last() == piece@.take(i as int));
            }
            match node.find_child(chars[i]) {
                Some(k) => {
                    proof {
                        lemma_child_place(node.children@, chars@[i as int]);
                    }
                    node = &node.children[k].1;
                },
                None => {
                    proof {
                        self.lemma_node_at_prefix(piece@, i + 1);
                    }
                    return None;
                },
            }
        }
        assert(piece@.take(piece@.len() as int) == piece@);
        if node.is_end {
            Some(node.score)
        } else {
            None
        }
    }

    /// The ends of the pieces that match `text` from `start`, with their scores, in ascending
    /// order.
    pub fn matches(&self, text: &Vec<char>, start: usize) -> (r: Vec<(usize, S)>)
        requires
            start <= text@.len(),
        ensures
            r@ == matches_up_to(self.pieces(), text@, start as int, text@.len() as int),
    {
        let mut results: Vec<(usize, S)> = Vec::new();
        let mut node = self;
        assert(text@.subrange(start as int, start as int) == Seq::<char>::empty());
        for i in start..text.len()
            invariant
                start <= i <= text@.len(),
                self.node_at(text@.subrange(start as int, i as int)) == Some(*node),
                results@ == matches_up_to(self.pieces(), text@, start as int, i as int),
        {
            let ghost path = text@.subrange(start as int, i + 1);
            proof {
                self.lemma_node_at_step(path);
                assert(path.drop_last() == text@.subrange(start as int, i as int));
            }
            match node.find_child(text[i]) {
                Some(k) => {
                    proof {
                        lemma_child_place(node.children@, text@[i as int]);
                    }
                    node = &node.children[k].1;
                    if node.is_end {
                        results.push((i + 1, node.score));
                    }
                },
                None => {
                    proof {
                        self.lemma_no_more_matches(text@, start as int, i + 1, text@.len() as int);
                    }
                    return results;
                },
            }
        }
        results
    }

    /// No piece matches beyond the end of every path.
    proof fn lemma_no_more_matches(self, text: Seq<char>, start: int, stop: int, end: int)
        requires
            0 <= start < stop <= end <= text.len(),
            self.node_at(text.subrange(start, stop)) is None,
        ensures
            matches_up_to(self.pieces(), text, start, end) == matches_up_to(
                self.pieces(),
                text,
                start,
                stop - 1,
            ),
        decreases end - stop,
    {
        let piece = text.subrange(start, end);
        assert(piece.take(stop - start) == text.subrange(start, stop));
        self.lemma_node_at_prefix(piece, stop - start);
        if stop < end {
            self.lemma_no_more_matches(text, start, stop, end - 1);
        }
    }

    /// A trie with the same pieces.
    pub fn copy(&self) -> (r: Self)
        ensures
            r.pieces() == self.pieces(),
    {
        let r = self.copy_node();
        assert(r.pieces() =~= self.pieces());
        r
    }

    /// A node with the same paths.
    fn copy_node(&self) -> (r: Self)
        ensures
            forall|p: Seq<char>| #[trigger] r.lookup(p) == self.lookup(p),
        decreases self,
    {
        let mut children: Vec<(char, SpTrieNode<S>)> = Vec::new();
        for i in 0..self.children.len()
            invariant
                children@.len() == i,
                forall|j: int|
                    #![trigger children@[j]]
                    0 <= j < i ==> children@[j].0 == self.children@[j].0 && (forall|p: Seq<
                        char,
                    >| #[trigger]
                        children@[j].1.lookup(p) == self.children@[j].1.lookup(p)),
        {
            assert(decreases_to!(self.children => self.children[i as int]));
            let c: char = self.children[i].0;
            let node = self.children[i].1.copy_node();
            children.push((c, node));
        }
        let r = SpTrieNode { children, score: self.score, is_end: self.is_end };
        assert forall|p: Seq<char>| #[trigger] r.lookup(p) == self.lookup(p) by {
            if p.len() > 0 {
                lemma_child_place(r.children@, p[0]);
                lemma_child_place(self.children@, p[0]);
                assert(forall|j: int|
                    0 <= j < r.children@.len() ==> (#[trigger] self.children@[j]).0
                        == r.children@[j].0);
                if let Some(j) = child_place(self.children@, p[0]) {
                    assert(r.children@[j].0 == p[0]);
                    let q = p.drop_first();
                    assert(r.children@[j].1.lookup(q) == self.children@[j].1.lookup(q));
                }
            }
        }
        r
    }
}

} // verus!
