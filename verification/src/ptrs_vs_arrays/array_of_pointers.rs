use vstd::prelude::*;
use vstd::string::StringSliceAdditionalSpecFns;
use super::common::{LETTERS, index_of, is_letter, is_word, lemma_word_rest, to_index};

verus! {

/// A tree with one child for each letter, each child in a box of its own.
/// A node stands for the word that leads to it: `own` is the number of
/// that word, `sum` the sum of the numbers of all words that begin with it.
pub struct MapSum {
    children: Vec<Option<Box<MapSum>>>,
    own: i32,
    sum: i32,
}

impl MapSum {
    /// The sums of the first `k` children added up.
    spec fn child_sums(self, k: int) -> int
        decreases k,
    {
        if 0 < k <= self.children.len() {
            self.child_sums(k - 1) + match self.children[k - 1] {
                Some(child) => child.sum as int,
                None => 0,
            }
        } else {
            0
        }
    }

    /// The node has a place for each letter, and its sum is its own number
    /// and the sums of its children.
    spec fn node_ok(self) -> bool {
        self.children.len() == LETTERS && self.sum == self.own + self.child_sums(
            LETTERS as int,
        )
    }

    /// The node that stands for `word`, if the tree has one.
    spec fn node_at(self, word: Seq<u8>) -> Option<MapSum>
        decreases word.len(),
    {
        if word.len() == 0 {
            Some(self)
        } else if 0 <= index_of(word[0]) < self.children.len() {
            match self.children[index_of(word[0])] {
                Some(child) => child.node_at(word.skip(1)),
                None => None,
            }
        } else {
            None
        }
    }

    /// Every node of the tree is in order.
    pub closed spec fn wf(self) -> bool {
        forall|word: Seq<u8>|
            is_word(word) ==> match #[trigger] self.node_at(word) {
                Some(node) => node.node_ok(),
                None => true,
            }
    }

    /// The number of `word`; zero for a word that has none.
    pub closed spec fn value(self, word: Seq<u8>) -> int {
        match self.node_at(word) {
            Some(node) => node.own as int,
            None => 0,
        }
    }

    /// The sum of the numbers of all words that begin with `prefix`.
    pub closed spec fn sum_at(self, prefix: Seq<u8>) -> int {
        match self.node_at(prefix) {
            Some(node) => node.sum as int,
            None => 0,
        }
    }

    /// The number `val` can take the place of the number of `word`: the
    /// change, and with it the sum of each prefix of `word`, stays within
    /// 32 bits.
    pub open spec fn room(self, word: Seq<u8>, val: i32) -> bool {
        &&& i32::MIN <= val - self.value(word) <= i32::MAX
        &&& forall|k: int|
            0 <= k <= word.len() ==> i32::MIN <= #[trigger] self.sum_at(word.take(k)) + (val
                - self.value(word)) <= i32::MAX
    }
}

impl MapSum {
    /// Where the node has a place for each letter, the node of a word that
    /// is not empty is found below the child of the word's first letter.
    proof fn lemma_node_at(self, word: Seq<u8>)
        requires
            self.children.len() == LETTERS,
            word.len() > 0,
            is_letter(word[0]),
        ensures
            self.node_at(word) == match self.children[index_of(word[0])] {
                Some(child) => child.node_at(word.skip(1)),
                None => None,
            },
    {
    }

    /// The tree is in order exactly when its root is and the trees of its
    /// children are.
    proof fn lemma_wf_parts(self)
        requires
            self.children.len() == LETTERS,
        ensures
            self.wf() <==> self.node_ok() && forall|i: int|
                0 <= i < LETTERS ==> match #[trigger] self.children[i] {
                    Some(child) => child.wf(),
                    None => true,
                },
    {
        if self.wf() {
            assert(self.node_at(Seq::empty()) == Some(self));
            assert(is_word(Seq::<u8>::empty()));
            assert forall|i: int| 0 <= i < LETTERS implies match #[trigger] self.children[i] {
                Some(child) => child.wf(),
                None => true,
            } by {
                if let Some(child) = self.children[i] {
                    assert forall|word: Seq<u8>| is_word(word) implies match #[trigger] child.node_at(
                        word,
                    ) {
                        Some(node) => node.node_ok(),
                        None => true,
                    } by {
                        let letter = (0x61 + i) as u8;
                        let longer = seq![letter] + word;
                        assert(longer.skip(1) =~= word);
                        assert(is_word(longer));
                        self.lemma_node_at(longer);
                        assert(self.node_at(longer) == child.node_at(word));
                    }
                }
            }
        }
        if self.node_ok() && forall|i: int|
            0 <= i < LETTERS ==> match #[trigger] self.children[i] {
                Some(child) => child.wf(),
                None => true,
            } {
            assert forall|word: Seq<u8>| is_word(word) implies match #[trigger] self.node_at(word) {
                Some(node) => node.node_ok(),
                None => true,
            } by {
                if word.len() > 0 {
                    lemma_word_rest(word);
                    self.lemma_node_at(word);
                    let i = index_of(word[0]);
                    if let Some(child) = self.children[i] {
                        assert(child.wf());
                        assert(is_word(word.skip(1)));
                    }
                }
            }
        }
    }

    /// Children that differ in one place differ in the sum of their sums by
    /// the difference of the sums in that place.
    proof fn lemma_child_sums(self, other: MapSum, at: int, k: int)
        requires
            self.children.len() == other.children.len(),
            0 <= at < self.children.len(),
            0 <= k <= self.children.len(),
            forall|i: int| 0 <= i < self.children.len() && i != at ==> self.children[i] == other.children[i],
        ensures
            other.child_sums(k) == self.child_sums(k) + if at < k {
                (match other.children[at] {
                    Some(child) => child.sum as int,
                    None => 0,
                }) - (match self.children[at] {
                    Some(child) => child.sum as int,
                    None => 0,
                })
            } else {
                0
            },
        decreases k,
    {
        if k > 0 {
            self.lemma_child_sums(other, at, k - 1);
        }
    }

    /// Without children there are no sums of children.
    proof fn lemma_no_child_sums(self, k: int)
        requires
            0 <= k <= self.children.len(),
            forall|i: int| 0 <= i < self.children.len() ==> self.children[i] is None,
        ensures
            self.child_sums(k) == 0,
        decreases k,
    {
        if k > 0 {
            self.lemma_no_child_sums(k - 1);
        }
    }

    /// A map without words.
    pub fn new() -> (map: Self)
        ensures
            map.wf(),
            forall|word: Seq<u8>| #[trigger] map.value(word) == 0,
            forall|prefix: Seq<u8>| #[trigger] map.sum_at(prefix) == 0,
    {
        let mut children: Vec<Option<Box<MapSum>>> = Vec::new();
        while children.len() < LETTERS
            invariant
                children.len() <= LETTERS,
                forall|i: int| 0 <= i < children.len() ==> children[i] is None,
            decreases LETTERS - children.len(),
        {
            children.push(None);
        }
        let map = MapSum { children, own: 0, sum: 0 };
        proof {
            map.lemma_no_child_sums(LETTERS as int);
            map.lemma_wf_parts();
            assert forall|word: Seq<u8>| #[trigger] map.node_at(word) == if word.len() == 0 {
                Some(map)
            } else {
                None
            } by {}
            assert forall|word: Seq<u8>| #[trigger] map.value(word) == 0 by {
                assert(map.node_at(word) == if word.len() == 0 {
                    Some(map)
                } else {
                    None
                });
            }
            assert forall|prefix: Seq<u8>| #[trigger] map.sum_at(prefix) == 0 by {
                assert(map.node_at(prefix) == if prefix.len() == 0 {
                    Some(map)
                } else {
                    None
                });
            }
        }
        map
    }
}

impl MapSum {
    /// The sum of the numbers of all words that begin with the bytes of
    /// `prefix` from `pos` on.
    fn sum_from(&self, prefix: &[u8], pos: usize) -> (total: i32)
        requires
            self.wf(),
            pos <= prefix.len(),
            is_word(prefix@.skip(pos as int)),
        ensures
            total == self.sum_at(prefix@.skip(pos as int)),
        decreases prefix.len() - pos,
    {
        let ghost word = prefix@.skip(pos as int);
        proof {
            assert(self.node_at(Seq::empty()) == Some(*self));
            assert(is_word(Seq::<u8>::empty()));
            self.lemma_wf_parts_of_wf();
        }
        if pos == prefix.len() {
            assert(word =~= Seq::empty());
            self.sum
        } else {
            proof {
                lemma_word_rest(word);
                self.lemma_node_at(word);
                assert(word.skip(1) =~= prefix@.skip(pos + 1));
                assert(word[0] == prefix[pos as int]);
            }
            let ix = to_index(prefix[pos]);
            match &self.children[ix] {
                None => 0,
                Some(child) => child.sum_from(prefix, pos + 1),
            }
        }
    }

    /// A tree in order has a place for each letter, and the trees of its
    /// children are in order.
    proof fn lemma_wf_parts_of_wf(self)
        requires
            self.wf(),
        ensures
            self.node_ok(),
            forall|i: int|
                0 <= i < LETTERS ==> match #[trigger] self.children[i] {
                    Some(child) => child.wf(),
                    None => true,
                },
    {
        assert(self.node_at(Seq::empty()) == Some(self));
        assert(is_word(Seq::<u8>::empty()));
        self.lemma_wf_parts();
    }

    /// The sum of the numbers of all words that begin with `prefix`.
    pub fn sum(&self, prefix: &str) -> (total: i32)
        requires
            self.wf(),
            is_word(prefix.spec_bytes()),
        ensures
            total == self.sum_at(prefix.spec_bytes()),
    {
        let bytes = prefix.as_bytes();
        assert(bytes@.skip(0) =~= bytes@);
        self.sum_from(bytes, 0)
    }
}

impl MapSum {
    /// What the tree says of a word that is not empty, its child for the
    /// word's first letter says of the rest of the word.
    proof fn lemma_below(self, word: Seq<u8>)
        requires
            self.children.len() == LETTERS,
            word.len() > 0,
        ensures
            is_letter(word[0]) ==> match self.children[index_of(word[0])] {
                Some(child) => self.value(word) == child.value(word.skip(1)) && self.sum_at(word)
                    == child.sum_at(word.skip(1)),
                None => self.value(word) == 0 && self.sum_at(word) == 0,
            },
            !is_letter(word[0]) ==> self.value(word) == 0 && self.sum_at(word) == 0,
    {
        if is_letter(word[0]) {
            self.lemma_node_at(word);
        }
    }

    /// A child without words in an empty place changes nothing.
    proof fn lemma_fresh_child(self, other: MapSum, at: int)
        requires
            self.wf(),
            0 <= at < LETTERS,
            other.children.len() == LETTERS,
            other.own == self.own,
            other.sum == self.sum,
            forall|i: int| 0 <= i < LETTERS && i != at ==> self.children[i] == other.children[i],
            self.children[at] is None,
            other.children[at] is Some,
            other.children[at]->Some_0.wf(),
            forall|word: Seq<u8>| #[trigger] other.children[at]->Some_0.value(word) == 0,
            forall|prefix: Seq<u8>| #[trigger] other.children[at]->Some_0.sum_at(prefix) == 0,
        ensures
            other.wf(),
            forall|word: Seq<u8>| #[trigger] other.value(word) == self.value(word),
            forall|prefix: Seq<u8>| #[trigger] other.sum_at(prefix) == self.sum_at(prefix),
    {
        self.lemma_wf_parts_of_wf();
        let child = other.children[at]->Some_0;
        assert(child.sum_at(Seq::empty()) == 0);
        assert(child.node_at(Seq::empty()) == Some(*child));
        self.lemma_child_sums(other, at, LETTERS as int);
        other.lemma_wf_parts();
        assert(self.node_at(Seq::empty()) == Some(self));
        assert(other.node_at(Seq::empty()) == Some(other));
        assert forall|word: Seq<u8>| #[trigger] other.value(word) == self.value(word) by {
            if word.len() > 0 {
                self.lemma_below(word);
                other.lemma_below(word);
                assert(child.value(word.skip(1)) == 0);
            } else {
                assert(word =~= Seq::empty());
            }
        }
        assert forall|prefix: Seq<u8>| #[trigger] other.sum_at(prefix) == self.sum_at(prefix) by {
            if prefix.len() > 0 {
                self.lemma_below(prefix);
                other.lemma_below(prefix);
                assert(child.sum_at(prefix.skip(1)) == 0);
            } else {
                assert(prefix =~= Seq::empty());
            }
        }
    }

    /// Where a number takes the place of the number of a word in the tree of
    /// a child, and the sum of the root follows, the tree says of the whole
    /// word what the child's tree says of the rest of the word.
    proof fn lemma_insert_below(self, other: MapSum, word: Seq<u8>, val: i32, change: int)
        requires
            self.wf(),
            word.len() > 0,
            is_word(word),
            other.children.len() == LETTERS,
            other.own == self.own,
            other.sum == self.sum + change,
            forall|i: int|
                0 <= i < LETTERS && i != index_of(word[0]) ==> self.children[i] == other.children[i],
            self.children[index_of(word[0])] is Some,
            other.children[index_of(word[0])] is Some,
            other.children[index_of(word[0])]->Some_0.wf(),
            change == val - self.children[index_of(word[0])]->Some_0.value(word.skip(1)),
            forall|w: Seq<u8>| #[trigger]
                other.children[index_of(word[0])]->Some_0.value(w) == if w == word.skip(1) {
                    val as int
                } else {
                    self.children[index_of(word[0])]->Some_0.value(w)
                },
            forall|p: Seq<u8>| #[trigger]
                other.children[index_of(word[0])]->Some_0.sum_at(p) == self.children[index_of(
                    word[0],
                )]->Some_0.sum_at(p) + if p.is_prefix_of(word.skip(1)) {
                    change
                } else {
                    0
                },
        ensures
            other.wf(),
            change == val - self.value(word),
            forall|w: Seq<u8>| #[trigger]
                other.value(w) == if w == word {
                    val as int
                } else {
                    self.value(w)
                },
            forall|p: Seq<u8>| #[trigger]
                other.sum_at(p) == self.sum_at(p) + if p.is_prefix_of(word) {
                    change
                } else {
                    0
                },
    {
        let at = index_of(word[0]);
        let rest = word.skip(1);
        let was = self.children[at]->Some_0;
        let now = other.children[at]->Some_0;
        lemma_word_rest(word);
        self.lemma_wf_parts_of_wf();
        self.lemma_below(word);
        // The root.
        assert(Seq::<u8>::empty().is_prefix_of(rest));
        assert(now.sum_at(Seq::empty()) == was.sum_at(Seq::empty()) + change);
        assert(now.node_at(Seq::empty()) == Some(*now));
        assert(was.node_at(Seq::empty()) == Some(*was));
        self.lemma_child_sums(other, at, LETTERS as int);
        other.lemma_wf_parts();
        assert(self.node_at(Seq::empty()) == Some(self));
        assert(other.node_at(Seq::empty()) == Some(other));
        assert forall|w: Seq<u8>| #[trigger]
            other.value(w) == if w == word {
                val as int
            } else {
                self.value(w)
            } by {
            if w.len() == 0 {
                assert(w =~= Seq::empty());
            }
            if w.len() > 0 {
                self.lemma_below(w);
                other.lemma_below(w);
                if is_letter(w[0]) && index_of(w[0]) == at {
                    assert(w[0] == word[0]);
                    if w.skip(1) == rest {
                        assert(w.len() == word.len());
                        assert forall|i: int| 0 <= i < w.len() implies w[i] == word[i] by {
                            if i > 0 {
                                assert(w.skip(1)[i - 1] == w[i]);
                                assert(rest[i - 1] == word[i]);
                            }
                        }
                        assert(w =~= word);
                    }
                }
            }
        }
        assert forall|p: Seq<u8>| #[trigger]
            other.sum_at(p) == self.sum_at(p) + if p.is_prefix_of(word) {
                change
            } else {
                0
            } by {
            if p.len() > 0 {
                self.lemma_below(p);
                other.lemma_below(p);
                if is_letter(p[0]) && index_of(p[0]) == at {
                    assert(p[0] == word[0]);
                    if p.skip(1).is_prefix_of(rest) {
                        assert(p =~= word.subrange(0, p.len() as int)) by {
                            assert forall|i: int| 0 <= i < p.len() implies p[i] == word[i] by {
                                if i > 0 {
                                    assert(p.skip(1)[i - 1] == rest.subrange(
                                        0,
                                        p.skip(1).len() as int,
                                    )[i - 1]);
                                }
                            }
                        }
                    }
                    if p.is_prefix_of(word) {
                        assert(p.skip(1) =~= rest.subrange(0, p.len() - 1)) by {
                            assert forall|i: int| 0 <= i < p.len() - 1 implies p.skip(1)[i]
                                == rest[i] by {
                                assert(p[i + 1] == word.subrange(0, p.len() as int)[i + 1]);
                            }
                        }
                    }
                } else {
                    if p.is_prefix_of(word) {
                        assert(p[0] == word.subrange(0, p.len() as int)[0]);
                    }
                }
            } else {
                assert(p =~= Seq::empty());
                assert(p.is_prefix_of(word));
            }
        }
    }
}

impl MapSum {
    /// Where there is room for a number under a word that is not empty,
    /// there is room for it under the rest of the word in the tree of the
    /// child for the word's first letter, and in the sum of the root.
    proof fn lemma_room_below(self, word: Seq<u8>, val: i32)
        requires
            self.wf(),
            is_word(word),
            word.len() > 0,
            self.room(word, val),
            self.children[index_of(word[0])] is Some,
        ensures
            self.children[index_of(word[0])]->Some_0.room(word.skip(1), val),
            self.children[index_of(word[0])]->Some_0.value(word.skip(1)) == self.value(word),
            i32::MIN <= self.sum + (val - self.value(word)) <= i32::MAX,
    {
        let child = self.children[index_of(word[0])]->Some_0;
        let rest = word.skip(1);
        lemma_word_rest(word);
        self.lemma_wf_parts_of_wf();
        self.lemma_below(word);
        assert(word.take(0) =~= Seq::empty());
        assert(self.node_at(Seq::empty()) == Some(self));
        assert(self.sum_at(word.take(0)) == self.sum);
        assert forall|k: int| 0 <= k <= rest.len() implies i32::MIN <= #[trigger] child.sum_at(
            rest.take(k),
        ) + (val - child.value(rest)) <= i32::MAX by {
            let longer = word.take(k + 1);
            assert(longer.skip(1) =~= rest.take(k));
            assert(longer[0] == word[0]);
            self.lemma_below(longer);
            assert(i32::MIN <= self.sum_at(word.take(k + 1)) + (val - self.value(word)) <= i32::MAX);
        }
    }

    /// Puts `val` in the place of the number of the word that the bytes of
    /// `key` from `pos` on make, and returns by how much the number grew.
    fn insert_impl(&mut self, key: &[u8], pos: usize, val: i32) -> (change: i32)
        requires
            old(self).wf(),
            pos <= key.len(),
            is_word(key@.skip(pos as int)),
            old(self).room(key@.skip(pos as int), val),
        ensures
            final(self).wf(),
            change == val - old(self).value(key@.skip(pos as int)),
            forall|w: Seq<u8>| #[trigger]
                final(self).value(w) == if w == key@.skip(pos as int) {
                    val as int
                } else {
                    old(self).value(w)
                },
            forall|p: Seq<u8>| #[trigger]
                final(self).sum_at(p) == old(self).sum_at(p) + if p.is_prefix_of(
                    key@.skip(pos as int),
                ) {
                    change as int
                } else {
                    0
                },
        decreases key.len() - pos,
    {
        let ghost word = key@.skip(pos as int);
        let ghost before = *self;
        proof {
            before.lemma_wf_parts_of_wf();
            assert(before.node_at(Seq::empty()) == Some(before));
            assert(word.take(0) =~= Seq::empty());
        }
        let change: i32;
        if pos == key.len() {
            proof {
                assert(word =~= Seq::empty());
                assert(before.sum_at(word.take(0)) == before.sum);
            }
            change = val - self.own;
            self.own = val;
            self.sum = self.sum + change;
            proof {
                let after = *self;
                before.lemma_child_sums(after, 0, LETTERS as int);
                after.lemma_wf_parts();
                assert(after.node_at(Seq::empty()) == Some(after));
                assert forall|w: Seq<u8>| #[trigger]
                    after.value(w) == if w == word {
                        val as int
                    } else {
                        before.value(w)
                    } by {
                    if w.len() > 0 {
                        before.lemma_below(w);
                        after.lemma_below(w);
                    } else {
                        assert(w =~= word);
                    }
                }
                assert forall|p: Seq<u8>| #[trigger]
                    after.sum_at(p) == before.sum_at(p) + if p.is_prefix_of(word) {
                        change as int
                    } else {
                        0
                    } by {
                    if p.len() > 0 {
                        before.lemma_below(p);
                        after.lemma_below(p);
                    } else {
                        assert(p =~= word);
                    }
                }
            }
        } else {
            proof {
                lemma_word_rest(word);
                assert(word[0] == key[pos as int]);
                assert(word.skip(1) =~= key@.skip(pos + 1));
            }
            let ix = to_index(key[pos]);
            if self.children[ix].is_none() {
                let fresh = MapSum::new();
                self.children.set(ix, Some(Box::new(fresh)));
                proof {
                    before.lemma_fresh_child(*self, ix as int);
                }
            }
            let ghost mid = *self;
            proof {
                assert(mid.room(word, val)) by {
                    assert(mid.value(word) == before.value(word));
                    assert forall|k: int| 0 <= k <= word.len() implies i32::MIN
                        <= #[trigger] mid.sum_at(word.take(k)) + (val - mid.value(word))
                        <= i32::MAX by {
                        assert(mid.sum_at(word.take(k)) == before.sum_at(word.take(k)));
                    }
                }
                mid.lemma_room_below(word, val);
                mid.lemma_wf_parts_of_wf();
            }
            change = match &mut self.children[ix] {
                Some(child) => child.insert_impl(key, pos + 1, val),
                None => 0,
            };
            self.sum = self.sum + change;
            proof {
                mid.lemma_insert_below(*self, word, val, change as int);
            }
        }
        change
    }

    /// Gives the word `key` the number `val`, in place of the number that it
    /// had.
    pub fn insert(&mut self, key: &str, val: i32)
        requires
            old(self).wf(),
            is_word(key.spec_bytes()),
            old(self).room(key.spec_bytes(), val),
        ensures
            final(self).wf(),
            forall|w: Seq<u8>| #[trigger]
                final(self).value(w) == if w == key.spec_bytes() {
                    val as int
                } else {
                    old(self).value(w)
                },
            forall|p: Seq<u8>| #[trigger]
                final(self).sum_at(p) == old(self).sum_at(p) + if p.is_prefix_of(key.spec_bytes()) {
                    val - old(self).value(key.spec_bytes())
                } else {
                    0
                },
    {
        let bytes = key.as_bytes();
        assert(bytes@.skip(0) =~= bytes@);
        self.insert_impl(bytes, 0, val);
    }
}

} // verus!
