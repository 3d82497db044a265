//! A lookup-only trie over the capital English letters, counting how many
//! dictionary words occur as substrings of a text.
use crate::text::is_capital;
use crate::text::upper_strip;
use vstd::prelude::*;

verus! {

/// One trie node: a child slot per capital letter, and a mark on nodes where
/// a dictionary word ends.
pub struct TrieNode {
    children: Vec<Option<Box<TrieNode>>>,
    wordEnd: bool,
}

impl TrieNode {
    /// The child reached by letter `c`, if any.
    pub closed spec fn spec_child(&self, c: u8) -> Option<TrieNode> {
        if is_capital(c) {
            match self.children@[c - 65] {
                Some(b) => Some(*b),
                None => None,
            }
        } else {
            None
        }
    }

    pub closed spec fn spec_word_end(&self) -> bool {
        self.wordEnd
    }

    pub closed spec fn child_slots(&self) -> nat {
        self.children@.len()
    }
}

/// The node reached from `node` by following the letters of `w`.
pub open spec fn walk(node: TrieNode, w: Seq<u8>) -> Option<TrieNode>
    decreases w.len(),
{
    if w.len() == 0 {
        Some(node)
    } else {
        match node.spec_child(w[0]) {
            Some(c) => walk(c, w.drop_first()),
            None => None,
        }
    }
}

/// Whether `w` is a word of the dictionary rooted at `node`.
pub open spec fn accepts(node: TrieNode, w: Seq<u8>) -> bool {
    match walk(node, w) {
        Some(n) => n.spec_word_end(),
        None => false,
    }
}

/// Every node reachable from `node` has one child slot per letter.
pub open spec fn node_wf(node: TrieNode) -> bool {
    forall|w: Seq<u8>|
        (#[trigger] walk(node, w)) matches Some(n) ==> n.child_slots() == 26
}

/// `node_wf` seen one step at a time: the node itself has 26 slots and each
/// child is again well-formed.
pub proof fn lemma_node_wf_unfold(node: TrieNode)
    requires
        node_wf(node),
    ensures
        node.child_slots() == 26,
        forall|c: u8| (#[trigger] node.spec_child(c)) is Some ==> node_wf(node.spec_child(c).unwrap()),
{
    assert(walk(node, Seq::<u8>::empty()) == Some(node));
    assert forall|c: u8| (#[trigger] node.spec_child(c)) is Some implies node_wf(
        node.spec_child(c).unwrap(),
    ) by {
        let ch = node.spec_child(c).unwrap();
        assert forall|w: Seq<u8>| (#[trigger] walk(ch, w)) is Some implies walk(
            ch,
            w,
        ).unwrap().child_slots() == 26 by {
            let cw = seq![c] + w;
            assert(cw[0] == c && cw.drop_first() =~= w);
            assert(walk(node, cw) == walk(ch, w));
        }
    }
}

/// The converse fold: 26 slots and well-formed children make the node
/// well-formed.
proof fn lemma_node_wf_fold(node: TrieNode)
    requires
        node.child_slots() == 26,
        forall|c: u8| (#[trigger] node.spec_child(c)) is Some ==> node_wf(node.spec_child(c).unwrap()),
    ensures
        node_wf(node),
{
    assert forall|w: Seq<u8>| (#[trigger] walk(node, w)) is Some implies walk(
        node,
        w,
    ).unwrap().child_slots() == 26 by {
        if w.len() > 0 {
            match node.spec_child(w[0]) {
                Some(ch) => {
                    assert(node_wf(ch));
                    assert(walk(node, w) == walk(ch, w.drop_first()));
                },
                None => {},
            }
        }
    }
}

impl TrieNode {
    /// A leaf with no children and no word ending here.
    pub fn new() -> (r: TrieNode)
        ensures
            node_wf(r),
            forall|w: Seq<u8>| !accepts(r, w),
            forall|c: u8| r.spec_child(c) is None,
            !r.spec_word_end(),
    {
        let mut children: Vec<Option<Box<TrieNode>>> = Vec::new();
        let mut i: usize = 0;
        while i < 26
            invariant
                i <= 26,
                children@.len() == i,
                forall|k: int| 0 <= k < i ==> children@[k] is None,
            decreases 26 - i,
        {
            children.push(None);
            i = i + 1;
        }
        let r = TrieNode { children, wordEnd: false };
        proof {
            assert forall|c: u8| r.spec_child(c) is None by {}
            lemma_node_wf_fold(r);
            assert forall|w: Seq<u8>| !accepts(r, w) by {
                if w.len() > 0 {
                    assert(r.spec_child(w[0]) is None);
                }
            }
        }
        r
    }

    /// The child reached by letter `c`, or `None` when `c` is not a capital
    /// letter or no word continues with it.
    pub fn getChild(&self, c: u8) -> (r: Option<&TrieNode>)
        requires
            node_wf(*self),
        ensures
            match r {
                Some(n) => self.spec_child(c) == Some(*n) && node_wf(*n),
                None => self.spec_child(c) is None,
            },
    {
        proof {
            lemma_node_wf_unfold(*self);
        }
        if c < 65 || c > 90 {
            return None;
        }
        let i: usize = (c - 65) as usize;
        match &self.children[i] {
            Some(child) => Some(&**child),
            None => None,
        }
    }

    /// Makes sure letter `c` has a child to continue a word through,
    /// creating an empty one when none is there; the dictionary below this
    /// node is unchanged either way.
    pub fn getOrCreateChild(&mut self, c: u8)
        requires
            node_wf(*old(self)),
            is_capital(c),
        ensures
            node_wf(*final(self)),
            final(self).spec_child(c) is Some,
            final(self).spec_word_end() == old(self).spec_word_end(),
            forall|w: Seq<u8>| #[trigger] accepts(*final(self), w) == accepts(*old(self), w),
    {
        proof {
            lemma_node_wf_unfold(*old(self));
        }
        let i: usize = (c - 65) as usize;
        if self.children[i].is_none() {
            let fresh = TrieNode::new();
            let ghost fresh_snapshot = fresh;
            self.children.set(i, Some(Box::new(fresh)));
            proof {
                assert(self.spec_child(c) == Some(fresh_snapshot));
                assert forall|d: u8| d != c implies #[trigger] self.spec_child(d) == old(
                    self,
                ).spec_child(d) by {
                    if is_capital(d) {
                        assert(d - 65 != i as int);
                    }
                }
                lemma_child_update(*old(self), *self, c);
                lemma_node_wf_fold(*self);
                assert forall|w: Seq<u8>| #[trigger]
                    accepts(*self, w) == accepts(*old(self), w) by {
                    if w.len() > 0 && w[0] == c {
                        assert(!accepts(fresh_snapshot, w.drop_first()));
                    }
                }
            }
        }
    }

    /// Whether a dictionary word ends at this node.
    pub fn isWordEnd(&self) -> (r: bool)
        ensures
            r == self.spec_word_end(),
    {
        self.wordEnd
    }

    /// Marks this node as the end of a word; the words below it stay as they
    /// are.
    pub fn setWordEnd(&mut self)
        requires
            node_wf(*old(self)),
        ensures
            node_wf(*final(self)),
            forall|w: Seq<u8>|
                accepts(*final(self), w) == (accepts(*old(self), w) || w.len() == 0),
    {
        self.wordEnd = true;
        proof {
            lemma_same_children(*old(self), *self);
            lemma_node_wf_unfold(*old(self));
            lemma_node_wf_fold(*self);
            assert forall|w: Seq<u8>|
                accepts(*self, w) == (accepts(*old(self), w) || w.len() == 0) by {
                if w.len() > 0 {
                    assert(walk(*self, w) == walk(*old(self), w));
                }
            }
        }
    }
}

/// Two nodes with the same child vector give the same child for every letter.
proof fn lemma_same_children(a: TrieNode, b: TrieNode)
    requires
        a.children@ == b.children@,
    ensures
        forall|c: u8| #[trigger] b.spec_child(c) == a.spec_child(c),
{
}

/// How a walk from a node changes when exactly one child is replaced.
proof fn lemma_child_update(po: TrieNode, pn: TrieNode, c0: u8)
    requires
        is_capital(c0),
        pn.spec_word_end() == po.spec_word_end(),
        forall|d: u8| d != c0 ==> #[trigger] pn.spec_child(d) == po.spec_child(d),
        pn.spec_child(c0) is Some,
    ensures
        forall|w: Seq<u8>| w.len() == 0 ==> accepts(pn, w) == accepts(po, w),
        forall|w: Seq<u8>| #![trigger accepts(pn, w)]
            w.len() > 0 && w[0] != c0 ==> accepts(pn, w) == accepts(po, w),
        forall|w: Seq<u8>| #![trigger accepts(pn, w)]
            w.len() > 0 && w[0] == c0 ==> accepts(pn, w) == accepts(
                pn.spec_child(c0).unwrap(),
                w.drop_first(),
            ) && accepts(po, w) == (match po.spec_child(c0) {
                Some(c) => accepts(c, w.drop_first()),
                None => false,
            }),
{
    assert forall|w: Seq<u8>| #![trigger accepts(pn, w)] w.len() > 0 implies ({
        if w[0] != c0 {
            accepts(pn, w) == accepts(po, w)
        } else {
            accepts(pn, w) == accepts(pn.spec_child(c0).unwrap(), w.drop_first()) && accepts(po, w)
                == (match po.spec_child(c0) {
                Some(c) => accepts(c, w.drop_first()),
                None => false,
            })
        }
    }) by {
        if w[0] != c0 {
            assert(pn.spec_child(w[0]) == po.spec_child(w[0]));
            assert(walk(pn, w) == walk(po, w));
        } else {
            assert(walk(pn, w) == walk(pn.spec_child(c0).unwrap(), w.drop_first()));
        }
    }
}

/// Removing an element and putting another back in its place is a pointwise
/// update.
proof fn lemma_seq_remove_insert<A>(s: Seq<A>, i: int, x: A)
    requires
        0 <= i < s.len(),
    ensures
        s.remove(i).insert(i, x) =~= s.update(i, x),
{
}

/// The dictionary trie: a root node plus the words loaded below it.
pub struct WordsTrie {
    root: TrieNode,
}

/// A word of the dictionary built from `lines`: the capital-letter
/// normalisation of some line, kept only when at least three letters remain.
pub open spec fn is_dict_word(lines: Seq<Seq<u8>>, w: Seq<u8>) -> bool {
    exists|k: int| 0 <= k < lines.len() && upper_strip(#[trigger] lines[k]) == w && w.len() >= 3
}

/// Dictionary words starting right where a walk stands: how many times the
/// walk from `node` over `text[j..]` passes a word-end mark.
pub open spec fn tail_matches(node: TrieNode, text: Seq<u8>, j: int) -> nat
    decreases text.len() - j,
{
    if j < 0 || j >= text.len() {
        0
    } else {
        match node.spec_child(text[j]) {
            None => 0,
            Some(c) => ((if c.spec_word_end() {
                1nat
            } else {
                0nat
            }) + tail_matches(c, text, j + 1)) as nat,
        }
    }
}

/// Dictionary words starting at any position at or after `i`.
pub open spec fn word_count_from(node: TrieNode, text: Seq<u8>, i: int) -> nat
    decreases text.len() - i,
{
    if i < 0 || i >= text.len() {
        0
    } else {
        tail_matches(node, text, i) + word_count_from(node, text, i + 1)
    }
}

/// No walk can pass more word ends than it has letters left.
proof fn lemma_tail_matches_bound(node: TrieNode, text: Seq<u8>, j: int)
    requires
        0 <= j <= text.len(),
    ensures
        tail_matches(node, text, j) <= text.len() - j,
    decreases text.len() - j,
{
    if 0 <= j < text.len() {
        match node.spec_child(text[j]) {
            None => {},
            Some(c) => {
                lemma_tail_matches_bound(c, text, j + 1);
            },
        }
    }
}

proof fn lemma_word_count_from_bound(node: TrieNode, text: Seq<u8>, i: int)
    requires
        0 <= i <= text.len(),
    ensures
        word_count_from(node, text, i) <= (text.len() - i) * text.len(),
    decreases text.len() - i,
{
    if i < text.len() {
        lemma_tail_matches_bound(node, text, i);
        lemma_word_count_from_bound(node, text, i + 1);
        assert((text.len() - i) * text.len() == text.len() + (text.len() - i - 1) * text.len())
            by (nonlinear_arith);
        assert(tail_matches(node, text, i) <= text.len());
    } else {
        assert((text.len() - i) * text.len() == 0) by (nonlinear_arith)
            requires
                i == text.len(),
        ;
    }
}

impl WordsTrie {
    pub closed spec fn wf(&self) -> bool {
        node_wf(self.root)
    }

    /// Whether `w` is one of the loaded dictionary words.
    pub closed spec fn contains_word(&self, w: Seq<u8>) -> bool {
        accepts(self.root, w)
    }

    /// The number of (position, dictionary word) pairs such that the word
    /// occurs in `text` starting at the position.
    pub closed spec fn spec_word_count(&self, text: Seq<u8>) -> nat {
        word_count_from(self.root, text, 0)
    }

    /// Builds the trie from raw dictionary lines: each line is uppercased,
    /// stripped to its capital letters, and kept when at least three letters
    /// remain.
    pub fn new(lines: &Vec<Vec<u8>>) -> (r: WordsTrie)
        ensures
            r.wf(),
            forall|w: Seq<u8>| #[trigger]
                r.contains_word(w) == is_dict_word(lines@.map_values(|l: Vec<u8>| l@), w),
    {
        let root = TrieNode::new();
        let mut r = WordsTrie { root };
        let ghost r0 = r;
        r.loadWords(lines);
        proof {
            assert forall|w: Seq<u8>| #[trigger]
                r.contains_word(w) == is_dict_word(
                    lines@.map_values(|l: Vec<u8>| l@),
                    w,
                ) by {
                assert(!accepts(r0.root, w));
            }
        }
        r
    }

    /// Adds every usable word of `lines` to the trie.
    pub fn loadWords(&mut self, lines: &Vec<Vec<u8>>)
        requires
            old(self).wf(),
        ensures
            final(self).wf(),
            forall|w: Seq<u8>| #[trigger]
                final(self).contains_word(w) == (old(self).contains_word(w) || is_dict_word(
                    lines@.map_values(|l: Vec<u8>| l@),
                    w,
                )),
    {
        let ghost all = lines@.map_values(|l: Vec<u8>| l@);
        let mut i: usize = 0;
        while i < lines.len()
            invariant
                i <= lines@.len(),
                all == lines@.map_values(|l: Vec<u8>| l@),
                self.wf(),
                forall|w: Seq<u8>| #[trigger]
                    self.contains_word(w) == (old(self).contains_word(w) || is_dict_word(
                        all.take(i as int),
                        w,
                    )),
            decreases lines@.len() - i,
        {
            let word = crate::text::normalizeToCapitals(&lines[i]);
            let ghost prev = *self;
            proof {
                assert(all[i as int] == lines@.map_values(|l: Vec<u8>| l@)[i as int]);
                assert(all[i as int] == lines@[i as int]@);
                assert(word@ == upper_strip(all[i as int]));
                assert(all.take(i + 1).len() == i + 1);
                assert forall|k: int| 0 <= k < i + 1 implies all.take(i + 1)[k] == all[k] by {}
                assert forall|k: int| 0 <= k < i implies all.take(i as int)[k] == all[k] by {}
            }
            if word.len() >= 3 {
                WordsTrie::addWord(&mut self.root, &word, 0);
                proof {
                    assert(word@.skip(0) =~= word@);
                    assert forall|w: Seq<u8>| #[trigger]
                        self.contains_word(w) == (old(self).contains_word(w) || is_dict_word(
                            all.take(i + 1),
                            w,
                        )) by {
                        assert(prev.contains_word(w) == (old(self).contains_word(w)
                            || is_dict_word(all.take(i as int), w)));
                        assert(accepts(self.root, w) == (accepts(prev.root, w) || w == word@));
                        if accepts(self.root, w) {
                            if accepts(prev.root, w) {
                                if !old(self).contains_word(w) {
                                    let k = choose|k: int|
                                        0 <= k < i && upper_strip(
                                            #[trigger] all.take(i as int)[k],
                                        ) == w && w.len() >= 3;
                                    assert(upper_strip(all.take(i + 1)[k]) == w);
                                    assert(is_dict_word(all.take(i + 1), w));
                                }
                            } else {
                                assert(w == word@ && word@.len() >= 3);
                                assert(upper_strip(all.take(i + 1)[i as int]) == w);
                                assert(is_dict_word(all.take(i + 1), w));
                            }
                        }
                        if old(self).contains_word(w) {
                            assert(accepts(prev.root, w));
                        }
                        if is_dict_word(all.take(i + 1), w) {
                            let k = choose|k: int|
                                0 <= k < i + 1 && upper_strip(#[trigger] all.take(i + 1)[k]) == w
                                    && w.len() >= 3;
                            if k < i {
                                assert(upper_strip(all.take(i as int)[k]) == w);
                                assert(is_dict_word(all.take(i as int), w));
                            } else {
                                assert(upper_strip(all[i as int]) == w);
                                assert(w == word@);
                                assert(accepts(self.root, w));
                            }
                        }
                    }
                }
            } else {
                proof {
                    assert forall|w: Seq<u8>| #[trigger]
                        self.contains_word(w) == (old(self).contains_word(w) || is_dict_word(
                            all.take(i + 1),
                            w,
                        )) by {
                        assert(prev.contains_word(w) == (old(self).contains_word(w)
                            || is_dict_word(all.take(i as int), w)));
                        if is_dict_word(all.take(i + 1), w) {
                            let k = choose|k: int|
                                0 <= k < i + 1 && upper_strip(#[trigger] all.take(i + 1)[k]) == w
                                    && w.len() >= 3;
                            if k < i {
                                assert(upper_strip(all.take(i as int)[k]) == w);
                                assert(is_dict_word(all.take(i as int), w));
                            } else {
                                assert(upper_strip(all[i as int]) == w);
                                assert(w == word@ && w.len() >= 3);
                            }
                        }
                        if is_dict_word(all.take(i as int), w) {
                            let k = choose|k: int|
                                0 <= k < i && upper_strip(#[trigger] all.take(i as int)[k]) == w
                                    && w.len() >= 3;
                            assert(upper_strip(all.take(i + 1)[k]) == w);
                            assert(is_dict_word(all.take(i + 1), w));
                        }
                    }
                }
            }
            i = i + 1;
        }
        proof {
            assert(all.take(lines@.len() as int) =~= all);
        }
    }

    /// Hangs the suffix `word[from..]` below `parent` as a new dictionary
    /// word; every word already below `parent` stays.
    pub fn addWord(parent: &mut TrieNode, word: &Vec<u8>, from: usize)
        requires
            node_wf(*old(parent)),
            from <= word@.len(),
            forall|k: int| from <= k < word@.len() ==> is_capital(word@[k]),
        ensures
            node_wf(*final(parent)),
            forall|w: Seq<u8>| #[trigger]
                accepts(*final(parent), w) == (accepts(*old(parent), w) || w == word@.skip(
                    from as int,
                )),
        decreases word@.len() - from,
    {
        if from == word.len() {
            parent.setWordEnd();
            proof {
                assert(word@.skip(from as int) =~= Seq::<u8>::empty());
                assert forall|w: Seq<u8>| #[trigger]
                    accepts(*parent, w) == (accepts(*old(parent), w) || w == word@.skip(
                        from as int,
                    )) by {
                    if w.len() == 0 {
                        assert(w =~= word@.skip(from as int));
                    }
                }
            }
            return;
        }
        let c0: u8 = word[from];
        let idx: usize = (c0 - 65) as usize;
        proof {
            lemma_node_wf_unfold(*old(parent));
        }
        let slot: Option<Box<TrieNode>> = parent.children.remove(idx);
        let ghost old_child = old(parent).spec_child(c0);
        let mut child: Box<TrieNode> = match slot {
            Some(b) => b,
            None => Box::new(TrieNode::new()),
        };
        let ghost child_before = *child;
        proof {
            assert(node_wf(child_before));
            assert(old_child is Some ==> old_child == Some(child_before));
            assert(old_child is None ==> forall|w: Seq<u8>| !accepts(child_before, w));
        }
        WordsTrie::addWord(&mut *child, word, from + 1);
        let ghost child_after = *child;
        let ghost inserted: Option<Box<TrieNode>> = Some(child);
        parent.children.insert(idx, Some(child));
        proof {
            let po = *old(parent);
            let pn = *parent;
            let suffix = word@.skip(from as int);
            let tail = word@.skip(from + 1);
            lemma_seq_remove_insert(po.children@, idx as int, inserted);
            assert(pn.children@ =~= po.children@.update(idx as int, inserted));
            assert(pn.spec_child(c0) == Some(child_after));
            assert forall|d: u8| d != c0 implies #[trigger] pn.spec_child(d) == po.spec_child(
                d,
            ) by {
                if is_capital(d) {
                    assert(d - 65 != idx as int);
                    assert(pn.children@[d - 65] == po.children@[d - 65]);
                }
            }
            lemma_child_update(po, pn, c0);
            lemma_node_wf_unfold(child_after);
            lemma_node_wf_fold(pn);
            assert(suffix =~= seq![c0] + tail);
            assert forall|w: Seq<u8>| #[trigger]
                accepts(pn, w) == (accepts(po, w) || w == suffix) by {
                if w.len() == 0 {
                    assert(w != suffix);
                } else if w[0] != c0 {
                    assert(w != suffix);
                } else {
                    assert(accepts(pn, w) == accepts(child_after, w.drop_first()));
                    assert(accepts(child_after, w.drop_first()) == (accepts(
                        child_before,
                        w.drop_first(),
                    ) || w.drop_first() == tail));
                    if old_child is None {
                        assert(!accepts(child_before, w.drop_first()));
                        assert(!accepts(po, w));
                    } else {
                        assert(accepts(po, w) == accepts(child_before, w.drop_first()));
                    }
                    if w.drop_first() == tail {
                        assert(w =~= seq![c0] + tail);
                    }
                    if w == suffix {
                        assert(w.drop_first() =~= tail);
                    }
                }
            }
        }
    }

    /// Counts the dictionary words occurring in `text`, at every starting
    /// position, overlaps included: one walker starts at each position and
    /// each word-end mark it passes counts once.
    pub fn countWords(&self, text: &Vec<u8>) -> (words: usize)
        requires
            self.wf(),
            text@.len() < 65536,
        ensures
            words == self.spec_word_count(text@),
    {
        let ghost total = word_count_from(self.root, text@, 0);
        proof {
            lemma_word_count_from_bound(self.root, text@, 0);
            assert(text@.len() * text@.len() < 65536 * 65536) by (nonlinear_arith)
                requires
                    text@.len() < 65536,
            ;
        }
        let mut words: usize = 0;
        let n: usize = text.len();
        let mut i: usize = 0;
        while i < n
            invariant
                self.wf(),
                n == text@.len(),
                n < 65536,
                i <= n,
                total == word_count_from(self.root, text@, 0),
                total < 65536 * 65536,
                words + word_count_from(self.root, text@, i as int) == total,
            decreases n - i,
        {
            let mut node: &TrieNode = &self.root;
            let ghost words_at_start = words as nat;
            let mut j: usize = i;
            proof {
                lemma_node_wf_unfold(self.root);
            }
            loop
                invariant
                    self.wf(),
                    node_wf(*node),
                    n == text@.len(),
                    i <= j <= n,
                    i < n,
                    total == word_count_from(self.root, text@, 0),
                    total < 65536 * 65536,
                    words_at_start + word_count_from(self.root, text@, i as int) == total,
                    words + tail_matches(*node, text@, j as int) == words_at_start + tail_matches(
                        self.root,
                        text@,
                        i as int,
                    ),
                ensures
                    words == words_at_start + tail_matches(self.root, text@, i as int),
                decreases n - j,
            {
                if j >= n {
                    break;
                }
                let c = text[j];
                match node.getChild(c) {
                    None => {
                        break;
                    },
                    Some(next) => {
                        if next.isWordEnd() {
                            proof {
                                lemma_tail_matches_bound(self.root, text@, i as int);
                                lemma_word_count_from_bound(self.root, text@, i as int);
                            }
                            words = words + 1;
                        }
                        node = next;
                        j = j + 1;
                    },
                }
            }
            i = i + 1;
        }
        words
    }
}

/// The dictionary words of `trie` occurring in `text` at position `i`,
/// counted by their end position `e`, for ends at or after `e0`.
pub open spec fn words_at_from(trie: WordsTrie, text: Seq<u8>, i: int, e0: int) -> nat
    decreases text.len() + 1 - e0,
{
    if e0 < 0 || e0 > text.len() {
        0
    } else {
        ((if e0 > i && trie.contains_word(text.subrange(i, e0)) {
            1nat
        } else {
            0nat
        }) + words_at_from(trie, text, i, e0 + 1)) as nat
    }
}

/// The (position, dictionary word) pairs of `text` with position at or after
/// `i`: at each position, the words starting there.
pub open spec fn pair_count_from(trie: WordsTrie, text: Seq<u8>, i: int) -> nat
    decreases text.len() - i,
{
    if i < 0 || i >= text.len() {
        0
    } else {
        words_at_from(trie, text, i, i + 1) + pair_count_from(trie, text, i + 1)
    }
}

/// A walk distributes over concatenation: walking `p + q` is walking `p` and
/// then `q` from wherever `p` ended.
proof fn lemma_walk_append(node: TrieNode, p: Seq<u8>, q: Seq<u8>)
    ensures
        walk(node, p + q) == (match walk(node, p) {
            Some(n) => walk(n, q),
            None => None::<TrieNode>,
        }),
    decreases p.len(),
{
    if p.len() == 0 {
        assert(p + q =~= q);
    } else {
        assert((p + q)[0] == p[0]);
        assert((p + q).drop_first() =~= p.drop_first() + q);
        match node.spec_child(p[0]) {
            Some(c) => {
                lemma_walk_append(c, p.drop_first(), q);
            },
            None => {},
        }
    }
}

/// Where no word of the trie starts at `i` and ends at or after `e0`, the
/// count from `e0` on is zero.
proof fn lemma_words_at_dead(trie: WordsTrie, text: Seq<u8>, i: int, e0: int)
    requires
        0 <= e0,
        forall|e: int|
            e0 <= e <= text.len() ==> !(e > i && trie.contains_word(#[trigger] text.subrange(i, e))),
    ensures
        words_at_from(trie, text, i, e0) == 0,
    decreases text.len() + 1 - e0,
{
    if e0 <= text.len() {
        lemma_words_at_dead(trie, text, i, e0 + 1);
    }
}

/// The word ends a walker passes are exactly the dictionary words starting
/// at the walker's start position: the walker from position `i` standing at
/// position `j` has reached `node`, and what it counts from here on are the
/// words `text[i..e]` with `e > j`.
proof fn lemma_tail_matches_counts(trie: &WordsTrie, text: Seq<u8>, i: int, j: int, node: TrieNode)
    requires
        0 <= i <= j <= text.len(),
        walk(trie.root, text.subrange(i, j)) == Some(node),
    ensures
        tail_matches(node, text, j) == words_at_from(*trie, text, i, j + 1),
    decreases text.len() - j,
{
    if j == text.len() {
        assert(words_at_from(*trie, text, i, j + 1) == 0);
    } else {
        let c = text[j];
        let p = text.subrange(i, j);
        let pc = text.subrange(i, j + 1);
        assert(pc =~= p + seq![c]);
        lemma_walk_append(trie.root, p, seq![c]);
        let one = seq![c];
        assert(one.drop_first() =~= Seq::<u8>::empty());
        assert(one[0] == c);
        match node.spec_child(c) {
            Some(ch0) => {
                assert(walk(ch0, Seq::<u8>::empty()) == Some(ch0));
                assert(walk(node, one) == Some(ch0));
            },
            None => {
                assert(walk(node, one) is None);
            },
        }
        match node.spec_child(c) {
            None => {
                assert(walk(trie.root, pc) is None);
                assert forall|e: int|
                    j + 1 <= e <= text.len() implies !(e > i && trie.contains_word(
                    #[trigger] text.subrange(i, e),
                )) by {
                    assert(text.subrange(i, e) =~= pc + text.subrange(j + 1, e));
                    lemma_walk_append(trie.root, pc, text.subrange(j + 1, e));
                }
                lemma_words_at_dead(*trie, text, i, j + 1);
            },
            Some(ch) => {
                assert(walk(trie.root, pc) == Some(ch));
                lemma_tail_matches_counts(trie, text, i, j + 1, ch);
                assert(trie.contains_word(pc) == ch.spec_word_end());
            },
        }
    }
}

/// `countWords` counts (position, dictionary word) pairs: its result is the
/// number of pairs `(i, e)` such that the word `text[i..e]` is in the
/// dictionary and starts at position `i`.
pub proof fn lemma_word_count_counts_pairs(trie: &WordsTrie, text: Seq<u8>)
    ensures
        trie.spec_word_count(text) == pair_count_from(*trie, text, 0),
{
    lemma_word_count_pairs_from(trie, text, 0);
}

proof fn lemma_word_count_pairs_from(trie: &WordsTrie, text: Seq<u8>, i: int)
    requires
        0 <= i <= text.len(),
    ensures
        word_count_from(trie.root, text, i) == pair_count_from(*trie, text, i),
    decreases text.len() - i,
{
    if i < text.len() {
        assert(text.subrange(i, i) =~= Seq::<u8>::empty());
        lemma_tail_matches_counts(trie, text, i, i, trie.root);
        lemma_word_count_pairs_from(trie, text, i + 1);
    }
}

/// `countWords` is monotone under concatenation: a word found in `a` or in
/// `b` is still found, at a shifted position, in `a + b`.
pub proof fn lemma_word_count_concat_monotone(trie: &WordsTrie, a: Seq<u8>, b: Seq<u8>)
    ensures
        trie.spec_word_count(a + b) >= trie.spec_word_count(a) + trie.spec_word_count(b),
{
    lemma_wcf_concat(trie.root, a, b, 0);
}

/// Walking a prefix of a longer text passes at least the word ends of the
/// shorter one.
proof fn lemma_tail_prefix(node: TrieNode, a: Seq<u8>, b: Seq<u8>, j: int)
    requires
        0 <= j <= a.len(),
    ensures
        tail_matches(node, a + b, j) >= tail_matches(node, a, j),
    decreases a.len() - j,
{
    if j < a.len() {
        assert((a + b)[j] == a[j]);
        match node.spec_child(a[j]) {
            None => {},
            Some(c) => {
                lemma_tail_prefix(c, a, b, j + 1);
            },
        }
    }
}

/// Positions inside the second part of a concatenation behave as in that part
/// alone.
proof fn lemma_tail_shift(node: TrieNode, a: Seq<u8>, b: Seq<u8>, j: int)
    requires
        0 <= j <= b.len(),
    ensures
        tail_matches(node, a + b, a.len() + j) == tail_matches(node, b, j),
    decreases b.len() - j,
{
    if j < b.len() {
        assert((a + b)[a.len() + j] == b[j]);
        match node.spec_child(b[j]) {
            None => {},
            Some(c) => {
                lemma_tail_shift(c, a, b, j + 1);
            },
        }
    }
}

proof fn lemma_wcf_shift(node: TrieNode, a: Seq<u8>, b: Seq<u8>, j: int)
    requires
        0 <= j <= b.len(),
    ensures
        word_count_from(node, a + b, a.len() + j) == word_count_from(node, b, j),
    decreases b.len() - j,
{
    if j < b.len() {
        lemma_tail_shift(node, a, b, j);
        lemma_wcf_shift(node, a, b, j + 1);
    }
}

proof fn lemma_wcf_concat(node: TrieNode, a: Seq<u8>, b: Seq<u8>, i: int)
    requires
        0 <= i <= a.len(),
    ensures
        word_count_from(node, a + b, i) >= word_count_from(node, a, i) + word_count_from(node, b, 0),
    decreases a.len() - i,
{
    if i == a.len() {
        lemma_wcf_shift(node, a, b, 0);
    } else {
        lemma_tail_prefix(node, a, b, i);
        lemma_wcf_concat(node, a, b, i + 1);
    }
}

} // verus!
