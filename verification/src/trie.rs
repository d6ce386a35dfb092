//! The prefix-tree (trie) index over the word list.
//!
//! Every node owns up to 26 child nodes, one per lowercase letter, and a
//! terminal flag. The tree is modelled as a map from paths (byte
//! sequences of lowercase letters) to the terminal flag of the node the
//! path reaches; the map's domain is the set of paths that reach a node.

use vstd::prelude::*;
use vstd::string::StringSliceAdditionalSpecFns;
use vstd::string::StrSliceExecFns;

use crate::norm::LOWER_A;
use crate::norm::is_letter;
use crate::norm::letters_only;
use crate::norm::normalize;
use crate::norm::normalize_bytes;

verus! {

/// The number of letters a node can branch on.
pub const ALPHABET: usize = 26;

/// A trie over lowercase-letter words; the struct itself is the root node.
pub struct TrieTypoChecker {
    /// One optional child per letter; always exactly 26 entries.
    children: Vec<Option<Box<TrieTypoChecker>>>,
    /// True iff the path from the root to this node spells a stored word.
    is_word: bool,
}

impl TrieTypoChecker {
    /// Every node of the tree has exactly one child slot per letter.
    pub closed spec fn wf(self) -> bool
        decreases self,
    {
        &&& self.children@.len() == ALPHABET
        &&& forall|c: int|
            0 <= c < ALPHABET ==> match #[trigger] self.children@[c] {
                Some(child) => child.wf(),
                None => true,
            }
    }

    /// True iff `p` spells a path from this node to some node of the tree.
    pub closed spec fn has_path(self, p: Seq<u8>) -> bool
        decreases p.len(),
    {
        if p.len() == 0 {
            true
        } else {
            let c = p[0] - LOWER_A;
            &&& 0 <= c < self.children@.len()
            &&& match self.children@[c] {
                Some(child) => child.has_path(p.skip(1)),
                None => false,
            }
        }
    }

    /// True iff `p` spells a path from this node to a node whose terminal
    /// flag is set, that is, iff `p` is a stored word.
    pub closed spec fn word_at(self, p: Seq<u8>) -> bool
        decreases p.len(),
    {
        if p.len() == 0 {
            self.is_word
        } else {
            let c = p[0] - LOWER_A;
            &&& 0 <= c < self.children@.len()
            &&& match self.children@[c] {
                Some(child) => child.word_at(p.skip(1)),
                None => false,
            }
        }
    }

    /// The word list stored in the trie.
    pub open spec fn knows(self, w: Seq<u8>) -> bool {
        model_knows(self@, w)
    }
}

/// A sequence is a prefix of another with the same first element iff the
/// tails are prefixes.
proof fn lemma_prefix_step(p: Seq<u8>, v: Seq<u8>)
    requires
        p.len() > 0,
        v.len() > 0,
        p[0] == v[0],
    ensures
        p.is_prefix_of(v) == p.skip(1).is_prefix_of(v.skip(1)),
        (p == v) == (p.skip(1) == v.skip(1)),
{
    let q = p.skip(1);
    let u = v.skip(1);
    if q.is_prefix_of(u) {
        assert forall|j: int| 0 <= j < p.len() implies p[j] == v.subrange(
            0,
            p.len() as int,
        )[j] by {
            if j > 0 {
                assert(q[j - 1] == u.subrange(0, q.len() as int)[j - 1]);
            }
        }
        assert(p =~= v.subrange(0, p.len() as int));
    }
    if p.is_prefix_of(v) {
        assert forall|j: int| 0 <= j < q.len() implies q[j] == u.subrange(
            0,
            q.len() as int,
        )[j] by {
            assert(p[j + 1] == v.subrange(0, p.len() as int)[j + 1]);
        }
        assert(q =~= u.subrange(0, q.len() as int));
    }
    if q == u {
        assert(p =~= v);
    }
    if p == v {
        assert(q =~= u);
    }
}

/// The model of a trie: the domain holds every path that reaches a node,
/// and the value at a path is the terminal flag of the node it reaches.
impl View for TrieTypoChecker {
    type V = Map<Seq<u8>, bool>;

    closed spec fn view(&self) -> Map<Seq<u8>, bool> {
        Map::new(|p: Seq<u8>| self.has_path(p), |p: Seq<u8>| self.word_at(p))
    }
}

/// The model of a trie with no words: only the empty path reaches a node
/// (the root), and it is not a word.
pub open spec fn empty_model() -> Map<Seq<u8>, bool> {
    Map::new(|p: Seq<u8>| p.len() == 0, |p: Seq<u8>| false)
}

/// The model of a trie after one insertion: nodes exist exactly for the
/// old paths and every prefix of the inserted word, and the inserted word
/// is flagged on top of the old flags.
pub open spec fn insert_model(m: Map<Seq<u8>, bool>, v: Seq<u8>) -> Map<Seq<u8>, bool> {
    Map::new(
        |p: Seq<u8>| m.dom().contains(p) || p.is_prefix_of(v),
        |p: Seq<u8>| p == v || (m.dom().contains(p) && m[p]),
    )
}

impl TrieTypoChecker {
    /// A stored word's path exists in the tree.
    pub proof fn lemma_word_at_has_path(self, p: Seq<u8>)
        ensures
            self.word_at(p) ==> self.has_path(p),
        decreases p.len(),
    {
        if p.len() > 0 {
            let c = p[0] - LOWER_A;
            if 0 <= c < self.children@.len() {
                match self.children@[c] {
                    Some(child) => child.lemma_word_at_has_path(p.skip(1)),
                    None => {},
                }
            }
        }
    }

    /// Builds a trie holding no words.
    pub fn new() -> (r: Self)
        ensures
            r.wf(),
            r@ =~= empty_model(),
    {
        let mut children: Vec<Option<Box<TrieTypoChecker>>> = Vec::new();
        let mut i: usize = 0;
        while i < ALPHABET
            invariant
                i <= ALPHABET,
                children@.len() == i,
                forall|c: int| 0 <= c < i ==> children@[c] is None,
            decreases ALPHABET - i,
        {
            children.push(None);
            i = i + 1;
        }
        let r = TrieTypoChecker { children, is_word: false };
        proof {
            assert forall|p: Seq<u8>| r.has_path(p) == (p.len() == 0) && !r.word_at(p) by {
                if p.len() > 0 {
                    let c = p[0] - LOWER_A;
                    if 0 <= c < 26 {
                        assert(r.children@[c] is None);
                    }
                }
            }
        }
        r
    }

    /// Inserts `word` into the trie: the word is normalized (folded to
    /// lowercase, bytes outside `a`..=`z` dropped) and the node at the end
    /// of its path is flagged, nodes being created on demand. Inserting a
    /// word that normalizes to the empty sequence flags the root.
    pub fn insert(&mut self, word: String)
        requires
            old(self).wf(),
        ensures
            final(self).wf(),
            final(self)@ =~= insert_model(old(self)@, normalize(vstd::utf8::encode_utf8(word@))),
    {
        let normalized = normalize_bytes(word.as_str().as_bytes());
        proof {
            crate::norm::lemma_normalize_letters_only(vstd::utf8::encode_utf8(word@));
        }
        self.insert_rec(&normalized, 0);
        proof {
            assert(normalized@.skip(0) =~= normalized@);
        }
    }

    /// Walks or creates the path of `word[i..]` below this node and flags
    /// its final node.
    fn insert_rec(&mut self, word: &Vec<u8>, i: usize)
        requires
            old(self).wf(),
            i <= word@.len(),
            letters_only(word@),
        ensures
            final(self).wf(),
            final(self)@ =~= insert_model(old(self)@, word@.skip(i as int)),
        decreases word@.len() - i,
    {
        let ghost v = word@.skip(i as int);
        if i == word.len() {
            self.is_word = true;
            proof {
                assert(v =~= Seq::<u8>::empty());
                assert forall|p: Seq<u8>|
                    self.has_path(p) == old(self).has_path(p)
                    && self.word_at(p) == (p == v || old(self).word_at(p)) by {
                    if p.len() == 0 {
                        assert(p =~= v);
                    } else {
                        assert(p != v);
                    }
                }
                assert(self@ =~= insert_model(old(self)@, v));
            }
        } else {
            let b = word[i];
            let idx = (b - LOWER_A) as usize;
            let child_opt = self.children.remove(idx);
            let ghost old_child = child_opt;
            let mut child = match child_opt {
                Some(c) => c,
                None => Box::new(TrieTypoChecker::new()),
            };
            let ghost m0 = child@;
            proof {
                if old_child is None {
                    assert(child@ =~= empty_model());
                }
            }
            (&mut *child).insert_rec(word, i + 1);
            self.children.insert(idx, Some(child));
            proof {
                let t0 = *old(self);
                let t1 = *self;
                let ch1 = *t1.children@[idx as int].unwrap();
                assert(t1.children@ =~= t0.children@.update(idx as int, t1.children@[idx as int]));
                assert(v[0] == b);
                assert(v.skip(1) =~= word@.skip(i + 1 as int));
                assert(ch1@ =~= insert_model(m0, v.skip(1)));
                assert forall|c: int|
                    0 <= c < ALPHABET implies match #[trigger] t1.children@[c] {
                        Some(child2) => child2.wf(),
                        None => true,
                    } by {
                    if 0 <= c < ALPHABET && c != idx {
                        assert(t1.children@[c] == t0.children@[c]);
                    }
                }
                assert(t1.wf());
                assert forall|p: Seq<u8>|
                    t1.has_path(p) == (t0.has_path(p) || p.is_prefix_of(v))
                    && t1.word_at(p) == (p == v || t0.word_at(p))
                    && (t0.word_at(p) ==> t0.has_path(p))
                    && (t1.word_at(p) ==> t1.has_path(p)) by {
                    Self::lemma_insert_step(t0, t1, m0, old_child, v, p);
                    t0.lemma_word_at_has_path(p);
                    t1.lemma_word_at_has_path(p);
                }
                assert(t1@.dom() =~= insert_model(t0@, v).dom());
                assert forall|p: Seq<u8>| t1@.dom().contains(p) implies t1@[p]
                    == insert_model(t0@, v)[p] by {}
                assert(t1@ =~= insert_model(t0@, v));
            }
        }
    }

    /// One level of the insertion proof: how paths and flags at this node
    /// relate to those of the updated child.
    proof fn lemma_insert_step(
        t0: Self,
        t1: Self,
        m0: Map<Seq<u8>, bool>,
        old_child: Option<Box<Self>>,
        v: Seq<u8>,
        p: Seq<u8>,
    )
        requires
            t0.wf(),
            v.len() > 0,
            is_letter(v[0]),
            letters_only(v),
            t1.is_word == t0.is_word,
            t1.children@.len() == ALPHABET,
            old_child == t0.children@[v[0] - LOWER_A],
            m0 == (match old_child {
                Some(c) => c@,
                None => empty_model(),
            }),
            t1.children@ =~= t0.children@.update(
                v[0] - LOWER_A,
                t1.children@[v[0] - LOWER_A],
            ),
            t1.children@[v[0] - LOWER_A] is Some,
            (match t1.children@[v[0] - LOWER_A] {
                Some(c) => c@,
                None => empty_model(),
            }) =~= insert_model(m0, v.skip(1)),
        ensures
            t1.has_path(p) == (t0.has_path(p) || p.is_prefix_of(v)),
            t1.word_at(p) == (p == v || t0.word_at(p)),
    {
        let b = v[0];
        let idx = b - LOWER_A;
        let ch1 = *t1.children@[idx].unwrap();
        if p.len() == 0 {
            assert(p.is_prefix_of(v)) by {
                assert(p =~= v.subrange(0, 0));
            }
            assert(p != v);
        } else if p[0] != b {
            let c = p[0] - LOWER_A;
            if 0 <= c < ALPHABET {
                assert(t1.children@[c] == t0.children@[c]);
            }
            assert(!p.is_prefix_of(v)) by {
                if p.is_prefix_of(v) {
                    assert(p[0] == v.subrange(0, p.len() as int)[0]);
                }
            }
            assert(p != v);
        } else {
            let q = p.skip(1);
            let u = v.skip(1);
            // The child's model decides this node's paths and flags at `p`.
            assert(t1.has_path(p) == ch1.has_path(q));
            assert(t1.word_at(p) == ch1.word_at(q));
            let m1 = insert_model(m0, u);
            assert(ch1@ == m1);
            assert(ch1.has_path(q) == m1.dom().contains(q));
            assert(ch1.word_at(q) == (m1.dom().contains(q) && m1[q])) by {
                ch1.lemma_word_at_has_path(q);
            }
            assert(m1.dom().contains(q) == (m0.dom().contains(q) || q.is_prefix_of(u)));
            assert((m1.dom().contains(q) && m1[q]) == (q == u || (m0.dom().contains(q)
                && m0[q]))) by {
                if q == u {
                    assert(q.is_prefix_of(u)) by {
                        assert(q =~= u.subrange(0, q.len() as int));
                    }
                }
            }
            match old_child {
                Some(c0) => {
                    assert(t0.has_path(p) == c0.has_path(q));
                    assert(t0.word_at(p) == c0.word_at(q));
                    assert(m0.dom().contains(q) == c0.has_path(q));
                    assert((m0.dom().contains(q) && m0[q]) == c0.word_at(q)) by {
                        c0.lemma_word_at_has_path(q);
                    }
                },
                None => {
                    assert(!t0.has_path(p));
                    assert(!t0.word_at(p));
                    assert(m0.dom().contains(q) == (q.len() == 0));
                    assert(!(m0.dom().contains(q) && m0[q]));
                    if q.len() == 0 {
                        assert(q.is_prefix_of(u)) by {
                            assert(q =~= u.subrange(0, 0));
                        }
                    }
                },
            }
            // Prefix and equality step down one letter when the heads agree.
            lemma_prefix_step(p, v);
        }
    }

    /// Membership walk: follows each letter of `word` from the root and
    /// reports whether the walk ends on a flagged node. A word is a typo
    /// iff it is not stored. The input must already be lowercase letters
    /// only; the walk performs no normalization.
    pub fn is_typo(&self, word: &str) -> (r: bool)
        requires
            self.wf(),
            letters_only(word.spec_bytes()),
        ensures
            r == !self.knows(word.spec_bytes()),
    {
        let bytes = word.as_bytes();
        let ghost w = word.spec_bytes();
        let mut node: &TrieTypoChecker = self;
        let mut i: usize = 0;
        proof {
            assert(w.skip(0) =~= w);
        }
        while i < bytes.len()
            invariant
                i <= bytes@.len(),
                bytes@ == w,
                w == word.spec_bytes(),
                self.wf(),
                letters_only(w),
                node.wf(),
                self.word_at(w) == node.word_at(w.skip(i as int)),
            decreases bytes@.len() - i,
        {
            let idx = (bytes[i] - LOWER_A) as usize;
            let ghost rest = w.skip(i as int);
            proof {
                assert(rest[0] == w[i as int]);
                assert(rest.skip(1) =~= w.skip(i + 1 as int));
            }
            match &node.children[idx] {
                Some(child) => {
                    node = &**child;
                },
                None => {
                    proof {
                        assert(!node.word_at(rest));
                        assert(!self.word_at(w));
                        self.lemma_word_at_has_path(w);
                        assert(self@.dom().contains(w) == self.has_path(w));
                        assert(!self.knows(w));
                    }
                    return true;
                },
            }
            i = i + 1;
        }
        proof {
            assert(w.skip(w.len() as int) =~= Seq::<u8>::empty());
            self.lemma_word_at_has_path(w);
            assert(self@.dom().contains(w) == self.has_path(w));
            assert(self@.dom().contains(w) ==> self@[w] == self.word_at(w));
            assert(self.knows(w) == self.word_at(w));
        }
        !node.is_word
    }
}

/// The default edit budget for suggestion searches.
pub const MAX_EDIT_DISTANCE: usize = 1;

/// The suggestion-count cap consulted by the search's early-exit guard.
pub const NUMBER_OF_SUGGESTIONS: usize = 5;

/// The suggestions of the bounded-edit-distance depth-first search, in
/// visitation order, from node `n` with `i` input letters consumed, budget
/// `e` left, `path` the letters walked from the root, and `cnt` the number
/// of suggestions emitted so far (the early-exit guard reads it only while
/// input remains, so late branches can overshoot the cap).
pub closed spec fn dfs_spec(
    n: TrieTypoChecker,
    w: Seq<u8>,
    i: int,
    e: int,
    path: Seq<u8>,
    cnt: int,
) -> Seq<Seq<u8>>
    decreases w.len() - i + e + 1, 27int,
{
    if e < 0 || i < 0 || i > w.len() {
        Seq::empty()
    } else if i == w.len() {
        let base: Seq<Seq<u8>> = if n.is_word {
            seq![path]
        } else {
            Seq::empty()
        };
        if e == 0 {
            base
        } else {
            base + dfs_append(n, w, i, e, path, 0)
        }
    } else if cnt >= NUMBER_OF_SUGGESTIONS {
        Seq::empty()
    } else {
        dfs_step(n, w, i, e, path, cnt, 0)
    }
}

/// The trailing-append part of the search: the input is consumed, and each
/// existing child, in letter order from `c` on, is entered at the same
/// input position with one budget unit spent.
pub closed spec fn dfs_append(
    n: TrieTypoChecker,
    w: Seq<u8>,
    i: int,
    e: int,
    path: Seq<u8>,
    c: int,
) -> Seq<Seq<u8>>
    decreases w.len() - i + e + 1, 26 - c,
{
    if !(0 <= c < 26) || i != w.len() || e < 1 || n.children@.len() != 26 {
        Seq::empty()
    } else {
        let here = match n.children@[c] {
            Some(child) => dfs_spec(*child, w, i, e - 1, path.push((LOWER_A + c) as u8), 0),
            None => Seq::empty(),
        };
        here + dfs_append(n, w, i, e, path, c + 1)
    }
}

/// The in-word part of the search: each existing child, in letter order
/// from `c` on, is entered at the next input position, for free when its
/// letter matches the input and for one budget unit otherwise.
pub closed spec fn dfs_step(
    n: TrieTypoChecker,
    w: Seq<u8>,
    i: int,
    e: int,
    path: Seq<u8>,
    cnt: int,
    c: int,
) -> Seq<Seq<u8>>
    decreases w.len() - i + e + 1, 26 - c,
{
    if !(0 <= c < 26) || !(0 <= i < w.len()) || e < 0 || n.children@.len() != 26 {
        Seq::empty()
    } else {
        let here = match n.children@[c] {
            Some(child) => if LOWER_A + c == w[i] {
                dfs_spec(*child, w, i + 1, e, path.push(w[i]), cnt)
            } else {
                dfs_spec(*child, w, i + 1, e - 1, path.push((LOWER_A + c) as u8), cnt)
            },
            None => Seq::empty(),
        };
        here + dfs_step(n, w, i, e, path, cnt + here.len(), c + 1)
    }
}

/// The byte words held in a list of suggestion buffers.
pub open spec fn words_of(out: Seq<Vec<u8>>) -> Seq<Seq<u8>> {
    out.map_values(|v: Vec<u8>| v@)
}

/// Every buffered suggestion consists of lowercase letters.
pub open spec fn outputs_letters(out: Seq<Vec<u8>>) -> bool {
    forall|k: int| 0 <= k < out.len() ==> letters_only(#[trigger] out[k]@)
}

/// The mutable state shared by the recursive search: the query word, the
/// suggestions found so far, and the letters walked from the root to the
/// node under visit.
struct DfsHelper {
    input_word: Vec<u8>,
    output_suggestions: Vec<Vec<u8>>,
    path: Vec<u8>,
}

impl DfsHelper {
    /// The bounded depth-first search itself; appends exactly the
    /// suggestions of `dfs_spec` to the output, leaving the query word and
    /// the walked path as they were.
    fn dfs(&mut self, curr_node: &TrieTypoChecker, input_word_index: usize, edit_times: i32)
        requires
            curr_node.wf(),
            input_word_index <= old(self).input_word@.len(),
            letters_only(old(self).input_word@),
            letters_only(old(self).path@),
            outputs_letters(old(self).output_suggestions@),
        ensures
            final(self).input_word@ == old(self).input_word@,
            final(self).path@ == old(self).path@,
            outputs_letters(final(self).output_suggestions@),
            words_of(final(self).output_suggestions@) == words_of(old(self).output_suggestions@)
                + dfs_spec(
                *curr_node,
                old(self).input_word@,
                input_word_index as int,
                edit_times as int,
                old(self).path@,
                old(self).output_suggestions@.len() as int,
            ),
        decreases old(self).input_word@.len() - input_word_index + edit_times + 1,
    {
        let ghost w = self.input_word@;
        let ghost path0 = self.path@;
        let ghost out0 = self.output_suggestions@;
        let ghost i_spec = input_word_index as int;
        let ghost e_spec = edit_times as int;
        let ghost full = dfs_spec(*curr_node, w, i_spec, e_spec, path0, out0.len() as int);

        if edit_times < 0 {
            proof {
                assert(words_of(out0) + full =~= words_of(out0));
            }
            return;
        }

        if input_word_index == self.input_word.len() {
            if curr_node.is_word {
                let found = self.path.clone();
                proof {
                    assert(found@ == path0);
                }
                self.output_suggestions.push(found);
                proof {
                    assert(words_of(self.output_suggestions@) =~= words_of(out0) + seq![path0]);
                }
            }
            let ghost based = words_of(self.output_suggestions@);
            if edit_times == 0 {
                proof {
                    assert(words_of(out0) + full =~= based);
                }
                return;
            }
            let mut c: usize = 0;
            proof {
                assert(words_of(out0) + full =~= based + dfs_append(
                    *curr_node,
                    w,
                    i_spec,
                    e_spec,
                    path0,
                    0,
                ));
            }
            while c < ALPHABET
                invariant
                    c <= ALPHABET,
                    curr_node.wf(),
                    edit_times >= 1,
                    input_word_index as int == i_spec,
                    edit_times as int == e_spec,
                    i_spec == w.len(),
                    w == old(self).input_word@,
                    self.input_word@ == w,
                    self.path@ == path0,
                    letters_only(w),
                    letters_only(path0),
                    outputs_letters(self.output_suggestions@),
                    words_of(out0) + full =~= words_of(self.output_suggestions@) + dfs_append(
                        *curr_node,
                        w,
                        i_spec,
                        e_spec,
                        path0,
                        c as int,
                    ),
                decreases ALPHABET - c,
            {
                let ghost out_here = self.output_suggestions@;
                match &curr_node.children[c] {
                    Some(child) => {
                        let letter = LOWER_A + c as u8;
                        self.path.push(letter);
                        self.dfs(&**child, input_word_index, edit_times - 1);
                        let _popped = self.path.pop();
                        proof {
                            assert(self.path@ =~= path0);
                            let here = dfs_spec(
                                **child,
                                w,
                                i_spec,
                                e_spec - 1,
                                path0.push(letter),
                                out_here.len() as int,
                            );
                            assert(here == dfs_spec(
                                **child,
                                w,
                                i_spec,
                                e_spec - 1,
                                path0.push(letter),
                                0,
                            ));
                            assert(words_of(self.output_suggestions@) =~= (words_of(out_here)
                                + here));
                            assert(dfs_append(*curr_node, w, i_spec, e_spec, path0, c as int)
                                == here + dfs_append(
                                *curr_node,
                                w,
                                i_spec,
                                e_spec,
                                path0,
                                c + 1,
                            ));
                            assert(words_of(out0) + full =~= words_of(self.output_suggestions@)
                                + dfs_append(*curr_node, w, i_spec, e_spec, path0, c + 1));
                        }
                    },
                    None => {
                        proof {
                            assert(dfs_append(*curr_node, w, i_spec, e_spec, path0, c as int)
                                =~= dfs_append(*curr_node, w, i_spec, e_spec, path0, c + 1));
                        }
                    },
                }
                c = c + 1;
            }
            proof {
                assert(dfs_append(*curr_node, w, i_spec, e_spec, path0, 26) =~= Seq::empty());
                assert(words_of(out0) + full =~= words_of(self.output_suggestions@));
            }
            return;
        }

        if self.output_suggestions.len() >= NUMBER_OF_SUGGESTIONS {
            proof {
                assert(words_of(out0) + full =~= words_of(out0));
            }
            return;
        }

        let target = self.input_word[input_word_index];
        let mut c: usize = 0;
        proof {
            assert(words_of(out0) + full =~= words_of(self.output_suggestions@) + dfs_step(
                *curr_node,
                w,
                i_spec,
                e_spec,
                path0,
                out0.len() as int,
                0,
            ));
        }
        while c < ALPHABET
            invariant
                c <= ALPHABET,
                curr_node.wf(),
                edit_times >= 0,
                input_word_index as int == i_spec,
                edit_times as int == e_spec,
                0 <= i_spec < w.len(),
                w == old(self).input_word@,
                input_word_index < self.input_word.len(),
                target == w[i_spec],
                self.input_word@ == w,
                self.path@ == path0,
                letters_only(w),
                letters_only(path0),
                outputs_letters(self.output_suggestions@),
                words_of(out0) + full =~= words_of(self.output_suggestions@) + dfs_step(
                    *curr_node,
                    w,
                    i_spec,
                    e_spec,
                    path0,
                    self.output_suggestions@.len() as int,
                    c as int,
                ),
            decreases ALPHABET - c,
        {
            let ghost out_here = self.output_suggestions@;
            match &curr_node.children[c] {
                Some(child) => {
                    let letter = LOWER_A + c as u8;
                    let ghost here: Seq<Seq<u8>>;
                    if letter == target {
                        self.path.push(target);
                        self.dfs(&**child, input_word_index + 1, edit_times);
                        proof {
                            here = dfs_spec(
                                **child,
                                w,
                                i_spec + 1,
                                e_spec,
                                path0.push(w[i_spec]),
                                out_here.len() as int,
                            );
                        }
                    } else {
                        self.path.push(letter);
                        self.dfs(&**child, input_word_index + 1, edit_times - 1);
                        proof {
                            here = dfs_spec(
                                **child,
                                w,
                                i_spec + 1,
                                e_spec - 1,
                                path0.push(letter),
                                out_here.len() as int,
                            );
                        }
                    }
                    let _popped = self.path.pop();
                    proof {
                        assert(self.path@ =~= path0);
                        assert(words_of(self.output_suggestions@) =~= words_of(out_here) + here);
                        assert(dfs_step(
                            *curr_node,
                            w,
                            i_spec,
                            e_spec,
                            path0,
                            out_here.len() as int,
                            c as int,
                        ) == here + dfs_step(
                            *curr_node,
                            w,
                            i_spec,
                            e_spec,
                            path0,
                            out_here.len() + here.len() as int,
                            c + 1,
                        ));
                        assert(words_of(out0) + full =~= words_of(self.output_suggestions@)
                            + dfs_step(
                            *curr_node,
                            w,
                            i_spec,
                            e_spec,
                            path0,
                            self.output_suggestions@.len() as int,
                            c + 1,
                        ));
                    }
                },
                None => {
                    proof {
                        assert(dfs_step(
                            *curr_node,
                            w,
                            i_spec,
                            e_spec,
                            path0,
                            out_here.len() as int,
                            c as int,
                        ) =~= dfs_step(
                            *curr_node,
                            w,
                            i_spec,
                            e_spec,
                            path0,
                            out_here.len() as int,
                            c + 1,
                        ));
                    }
                },
            }
            c = c + 1;
        }
        proof {
            assert(dfs_step(
                *curr_node,
                w,
                i_spec,
                e_spec,
                path0,
                self.output_suggestions@.len() as int,
                26,
            ) =~= Seq::empty());
            assert(words_of(out0) + full =~= words_of(self.output_suggestions@));
        }
    }
}

/// The characters spelled by a byte word of lowercase letters.
pub open spec fn chars_of(b: Seq<u8>) -> Seq<char> {
    b.map_values(|c: u8| c as char)
}

/// The list `s` cut to its first `n` entries if it is longer than `n`.
pub open spec fn take_up_to(s: Seq<Seq<u8>>, n: int) -> Seq<Seq<u8>> {
    if s.len() <= n {
        s
    } else {
        s.take(n)
    }
}

/// The byte words suggested for the query `w`: what the bounded search
/// emits from the root, cut to one entry over the configured cap (the
/// search's own guard is leaky, so the facade cuts the list).
pub open spec fn suggestions_model(t: TrieTypoChecker, w: Seq<u8>) -> Seq<Seq<u8>> {
    take_up_to(dfs_spec(t, w, 0, 1, Seq::empty(), 0), NUMBER_OF_SUGGESTIONS + 1)
}

/// Relies on String::from_utf8: a vector of ASCII letter bytes decodes to
/// the string whose characters are exactly those bytes.
#[verifier::external_body]
fn letters_to_string(bytes: &Vec<u8>) -> (r: String)
    requires
        letters_only(bytes@),
    ensures
        r@ == chars_of(bytes@),
{
    String::from_utf8(bytes.clone()).unwrap_or_default()
}

impl TrieTypoChecker {
    /// Suggestions for `word`, in the search's visitation order: empty if
    /// the word is already known, else the words the bounded
    /// depth-first search finds, cut to one entry over the cap. The input
    /// must already be lowercase letters only.
    pub fn typo_suggestions(&self, word: &str) -> (r: Vec<String>)
        requires
            self.wf(),
            letters_only(word.spec_bytes()),
        ensures
            r@.len() <= NUMBER_OF_SUGGESTIONS + 1,
            self.knows(word.spec_bytes()) ==> r@.len() == 0,
            !self.knows(word.spec_bytes()) ==> r@.len() == suggestions_model(
                *self,
                word.spec_bytes(),
            ).len(),
            !self.knows(word.spec_bytes()) ==> forall|k: int|
                0 <= k < r@.len() ==> r@[k]@ == chars_of(
                    #[trigger] suggestions_model(*self, word.spec_bytes())[k],
                ),
    {
        let ghost w = word.spec_bytes();
        if !self.is_typo(word) {
            return Vec::new();
        }
        let mut helper = DfsHelper {
            input_word: word.as_bytes_vec(),
            output_suggestions: Vec::new(),
            path: Vec::new(),
        };
        helper.dfs(self, 0, 1);
        let ghost found = dfs_spec(*self, w, 0, 1, Seq::empty(), 0);
        let ghost model = suggestions_model(*self, w);
        proof {
            assert(words_of(Seq::<Vec<u8>>::empty()) =~= Seq::<Seq<u8>>::empty());
            assert(Seq::<Seq<u8>>::empty() + found =~= found);
            assert(words_of(helper.output_suggestions@) == found);
        }
        let cap = NUMBER_OF_SUGGESTIONS + 1;
        let total = helper.output_suggestions.len();
        let lim = if total < cap {
            total
        } else {
            cap
        };
        proof {
            assert(found.len() == total);
            assert(model.len() == lim);
            assert(forall|j: int| 0 <= j < lim ==> model[j] == found[j]);
        }
        let mut r: Vec<String> = Vec::new();
        let mut k: usize = 0;
        while k < lim
            invariant
                k <= lim,
                lim <= helper.output_suggestions@.len(),
                outputs_letters(helper.output_suggestions@),
                words_of(helper.output_suggestions@) == found,
                model.len() == lim,
                forall|j: int| 0 <= j < lim ==> model[j] == found[j],
                r@.len() == k,
                forall|j: int| 0 <= j < k ==> r@[j]@ == chars_of(#[trigger] model[j]),
            decreases lim - k,
        {
            let s = letters_to_string(&helper.output_suggestions[k]);
            proof {
                assert(helper.output_suggestions@[k as int]@ == found[k as int]);
            }
            r.push(s);
            k = k + 1;
        }
        r
    }
}

/// A freshly built checker holds no words.
impl Default for TrieTypoChecker {
    fn default() -> (r: Self)
        ensures
            r.wf(),
            r@ =~= empty_model(),
    {
        TrieTypoChecker::new()
    }
}

/// A word list holds `w` iff the model flags it.
pub open spec fn model_knows(m: Map<Seq<u8>, bool>, w: Seq<u8>) -> bool {
    m.dom().contains(w) && m[w]
}

/// Membership correctness: right after a word is inserted into any trie,
/// its normalized form is known; a word that is already lowercase letters
/// is thus found again exactly as it was inserted.
pub proof fn lemma_membership_correctness(m: Map<Seq<u8>, bool>, w: Seq<u8>)
    ensures
        model_knows(insert_model(m, normalize(w)), normalize(w)),
        letters_only(w) ==> model_knows(insert_model(m, normalize(w)), w),
{
    let v = normalize(w);
    assert(v.is_prefix_of(v)) by {
        assert(v =~= v.subrange(0, v.len() as int));
    }
    if letters_only(w) {
        crate::norm::lemma_normalize_identity(w);
    }
}

/// Later insertions never remove a known word.
pub proof fn lemma_insert_keeps_known(m: Map<Seq<u8>, bool>, u: Seq<u8>, w: Seq<u8>)
    requires
        model_knows(m, w),
    ensures
        model_knows(insert_model(m, u), w),
{
}

/// Negative membership: a word that no insertion produced is not known.
/// The empty trie knows nothing, and inserting a word whose normalized
/// form differs from `w` leaves `w` unknown.
pub proof fn lemma_negative_membership(m: Map<Seq<u8>, bool>, u: Seq<u8>, w: Seq<u8>)
    ensures
        !model_knows(empty_model(), w),
        !model_knows(m, w) && w != normalize(u) ==> !model_knows(
            insert_model(m, normalize(u)),
            w,
        ),
{
}

/// Idempotent insert: inserting the same word twice leaves the model as
/// one insertion does.
pub proof fn lemma_insert_idempotent(m: Map<Seq<u8>, bool>, v: Seq<u8>)
    ensures
        insert_model(insert_model(m, v), v) =~= insert_model(m, v),
{
}

/// Walking one letter down relates a node's paths to its child's.
proof fn lemma_path_through_child(t: TrieTypoChecker, b: u8, p: Seq<u8>)
    requires
        t.children@.len() == 26,
        is_letter(b),
        t.children@[b - LOWER_A] is Some,
    ensures
        t.has_path(seq![b] + p) == t.children@[b - LOWER_A].unwrap().has_path(p),
        t.word_at(seq![b] + p) == t.children@[b - LOWER_A].unwrap().word_at(p),
{
    assert((seq![b] + p)[0] == b);
    assert((seq![b] + p).skip(1) =~= p);
}

/// Two well-formed tries with one model have equal children at `c`, and
/// equal child models where the child exists.
proof fn lemma_child_model_eq(t1: TrieTypoChecker, t2: TrieTypoChecker, c: int)
    requires
        t1.wf(),
        t2.wf(),
        t1@ == t2@,
        0 <= c < 26,
    ensures
        (t1.children@[c] is Some) == (t2.children@[c] is Some),
        t1.children@[c] is Some ==> t1.children@[c].unwrap()@ == t2.children@[c].unwrap()@,
{
    let b = (LOWER_A + c) as u8;
    assert(b == LOWER_A + c);
    assert(is_letter(b));
    let single = seq![b];
    assert(single[0] == b && single.skip(1) =~= Seq::<u8>::empty());
    match t1.children@[c] {
        Some(ch) => {
            assert(ch.has_path(Seq::<u8>::empty()));
            assert(t1.has_path(single));
        },
        None => {
            assert(!t1.has_path(single));
        },
    }
    match t2.children@[c] {
        Some(ch) => {
            assert(ch.has_path(Seq::<u8>::empty()));
            assert(t2.has_path(single));
        },
        None => {
            assert(!t2.has_path(single));
        },
    }
    assert(t1@.dom().contains(single) == t1.has_path(single));
    assert(t2@.dom().contains(single) == t2.has_path(single));
    assert(t1@.dom().contains(single) == t2@.dom().contains(single));
    assert((t1.children@[c] is Some) == (t2.children@[c] is Some));
    if t1.children@[c] is Some {
        let c1 = *t1.children@[c].unwrap();
        let c2 = *t2.children@[c].unwrap();
        assert forall|p: Seq<u8>|
            c1.has_path(p) == c2.has_path(p) && c1.word_at(p) == c2.word_at(p) by {
            assert(t1.children@[b - LOWER_A] is Some);
            assert(t2.children@[b - LOWER_A] is Some);
            lemma_path_through_child(t1, b, p);
            lemma_path_through_child(t2, b, p);
            let sp = single + p;
            assert(t1@.dom().contains(sp) == t1.has_path(sp));
            assert(t2@.dom().contains(sp) == t2.has_path(sp));
            assert(c1.has_path(p) == c2.has_path(p));
            if t1.has_path(sp) {
                assert(t1@[sp] == t1.word_at(sp));
                assert(t2@[sp] == t2.word_at(sp));
            } else {
                c1.lemma_word_at_has_path(p);
                c2.lemma_word_at_has_path(p);
                assert(!c1.word_at(p) && !c2.word_at(p));
            }
        }
        assert forall|p: Seq<u8>| c1@.dom().contains(p) implies c1@[p] == c2@[p] by {}
        assert(c1@ =~= c2@);
    }
}

/// The search depends on the trie only through its model.
proof fn lemma_dfs_spec_congruent(
    t1: TrieTypoChecker,
    t2: TrieTypoChecker,
    w: Seq<u8>,
    i: int,
    e: int,
    path: Seq<u8>,
    cnt: int,
)
    requires
        t1.wf(),
        t2.wf(),
        t1@ == t2@,
    ensures
        dfs_spec(t1, w, i, e, path, cnt) == dfs_spec(t2, w, i, e, path, cnt),
    decreases w.len() - i + e + 1, 27int,
{
    if e < 0 || i < 0 || i > w.len() {
    } else if i == w.len() {
        assert(t1@.dom().contains(Seq::<u8>::empty()));
        assert(t1.is_word == t1@[Seq::<u8>::empty()]);
        assert(t2.is_word == t2@[Seq::<u8>::empty()]);
        if e > 0 {
            lemma_dfs_append_congruent(t1, t2, w, i, e, path, 0);
        }
    } else if cnt >= NUMBER_OF_SUGGESTIONS {
    } else {
        lemma_dfs_step_congruent(t1, t2, w, i, e, path, cnt, 0);
    }
}

/// The trailing-append part of the search depends only on the model.
proof fn lemma_dfs_append_congruent(
    t1: TrieTypoChecker,
    t2: TrieTypoChecker,
    w: Seq<u8>,
    i: int,
    e: int,
    path: Seq<u8>,
    c: int,
)
    requires
        t1.wf(),
        t2.wf(),
        t1@ == t2@,
    ensures
        dfs_append(t1, w, i, e, path, c) == dfs_append(t2, w, i, e, path, c),
    decreases w.len() - i + e + 1, 26 - c,
{
    if !(0 <= c < 26) || i != w.len() || e < 1 {
    } else {
        lemma_child_model_eq(t1, t2, c);
        match t1.children@[c] {
            Some(child1) => {
                let child2 = t2.children@[c].unwrap();
                lemma_dfs_spec_congruent(
                    *child1,
                    *child2,
                    w,
                    i,
                    e - 1,
                    path.push((LOWER_A + c) as u8),
                    0,
                );
            },
            None => {},
        }
        lemma_dfs_append_congruent(t1, t2, w, i, e, path, c + 1);
    }
}

/// The in-word part of the search depends only on the model.
proof fn lemma_dfs_step_congruent(
    t1: TrieTypoChecker,
    t2: TrieTypoChecker,
    w: Seq<u8>,
    i: int,
    e: int,
    path: Seq<u8>,
    cnt: int,
    c: int,
)
    requires
        t1.wf(),
        t2.wf(),
        t1@ == t2@,
    ensures
        dfs_step(t1, w, i, e, path, cnt, c) == dfs_step(t2, w, i, e, path, cnt, c),
    decreases w.len() - i + e + 1, 26 - c,
{
    if !(0 <= c < 26) || !(0 <= i < w.len()) || e < 0 {
    } else {
        lemma_child_model_eq(t1, t2, c);
        match t1.children@[c] {
            Some(child1) => {
                let child2 = t2.children@[c].unwrap();
                if LOWER_A + c == w[i] {
                    lemma_dfs_spec_congruent(*child1, *child2, w, i + 1, e, path.push(w[i]), cnt);
                } else {
                    lemma_dfs_spec_congruent(
                        *child1,
                        *child2,
                        w,
                        i + 1,
                        e - 1,
                        path.push((LOWER_A + c) as u8),
                        cnt,
                    );
                }
            },
            None => {},
        }
        let here1 = match t1.children@[c] {
            Some(child) => if LOWER_A + c == w[i] {
                dfs_spec(*child, w, i + 1, e, path.push(w[i]), cnt)
            } else {
                dfs_spec(*child, w, i + 1, e - 1, path.push((LOWER_A + c) as u8), cnt)
            },
            None => Seq::empty(),
        };
        lemma_dfs_step_congruent(t1, t2, w, i, e, path, cnt + here1.len(), c + 1);
    }
}

/// Idempotent insert, seen at the interface: two well-formed tries with
/// one model give the same membership answer and the same suggestion
/// list for every query. With `lemma_insert_idempotent`, a trie that
/// got a word twice behaves as one that got it once.
pub proof fn lemma_same_model_same_answers(
    t1: TrieTypoChecker,
    t2: TrieTypoChecker,
    q: Seq<u8>,
)
    requires
        t1.wf(),
        t2.wf(),
        t1@ == t2@,
    ensures
        t1.knows(q) == t2.knows(q),
        suggestions_model(t1, q) == suggestions_model(t2, q),
{
    lemma_dfs_spec_congruent(t1, t2, q, 0, 1, Seq::empty(), 0);
}

/// True iff the search can emit the letters `s` from node `n`, with `i`
/// input letters consumed and budget `e` left, under the edit rules alone:
/// matching letters are free, substitutions and trailing appends each cost
/// one budget unit. The suggestion-count cap plays no part here.
pub closed spec fn reachable(n: TrieTypoChecker, w: Seq<u8>, i: int, e: int, s: Seq<u8>) -> bool
    decreases w.len() - i + e + 1,
{
    if e < 0 || i < 0 || i > w.len() || n.children@.len() != 26 {
        false
    } else if i == w.len() {
        (s.len() == 0 && n.is_word) || (e > 0 && s.len() > 0 && exists|c: int|
            0 <= c < 26 && (#[trigger] n.children@[c]) is Some && s[0] == LOWER_A + c
                && reachable(*n.children@[c].unwrap(), w, i, e - 1, s.skip(1)))
    } else {
        s.len() > 0 && exists|c: int|
            0 <= c < 26 && (#[trigger] n.children@[c]) is Some && s[0] == LOWER_A + c && (if LOWER_A
                + c == w[i] {
                reachable(*n.children@[c].unwrap(), w, i + 1, e, s.skip(1))
            } else {
                reachable(*n.children@[c].unwrap(), w, i + 1, e - 1, s.skip(1))
            })
    }
}

/// Budget monotonicity: letters reachable within budget `e1` stay
/// reachable within any larger budget.
pub proof fn lemma_budget_monotone(
    n: TrieTypoChecker,
    w: Seq<u8>,
    i: int,
    e1: int,
    e2: int,
    s: Seq<u8>,
)
    requires
        reachable(n, w, i, e1, s),
        e1 <= e2,
    ensures
        reachable(n, w, i, e2, s),
    decreases w.len() - i + e1 + 1,
{
    if i == w.len() {
        if s.len() == 0 && n.is_word {
        } else {
            let c = choose|c: int|
                0 <= c < 26 && (#[trigger] n.children@[c]) is Some && s[0] == LOWER_A + c
                    && reachable(*n.children@[c].unwrap(), w, i, e1 - 1, s.skip(1));
            lemma_budget_monotone(*n.children@[c].unwrap(), w, i, e1 - 1, e2 - 1, s.skip(1));
            assert(n.children@[c] is Some && s[0] == LOWER_A + c && reachable(
                *n.children@[c].unwrap(),
                w,
                i,
                e2 - 1,
                s.skip(1),
            ));
        }
    } else {
        let c = choose|c: int|
            0 <= c < 26 && (#[trigger] n.children@[c]) is Some && s[0] == LOWER_A + c && (if LOWER_A
                + c == w[i] {
                reachable(*n.children@[c].unwrap(), w, i + 1, e1, s.skip(1))
            } else {
                reachable(*n.children@[c].unwrap(), w, i + 1, e1 - 1, s.skip(1))
            });
        if LOWER_A + c == w[i] {
            lemma_budget_monotone(*n.children@[c].unwrap(), w, i + 1, e1, e2, s.skip(1));
        } else {
            lemma_budget_monotone(*n.children@[c].unwrap(), w, i + 1, e1 - 1, e2 - 1, s.skip(1));
        }
        assert(n.children@[c] is Some && s[0] == LOWER_A + c);
    }
}

/// Every word the capped search emits extends the walked path by letters
/// that are reachable within the budget.
proof fn lemma_dfs_spec_sound(
    n: TrieTypoChecker,
    w: Seq<u8>,
    i: int,
    e: int,
    path: Seq<u8>,
    cnt: int,
    k: int,
)
    requires
        n.wf(),
        0 <= k < dfs_spec(n, w, i, e, path, cnt).len(),
    ensures
        exists|s: Seq<u8>| dfs_spec(n, w, i, e, path, cnt)[k] == path + s && #[trigger] reachable(
            n,
            w,
            i,
            e,
            s,
        ),
    decreases w.len() - i + e + 1, 27int,
{
    let out = dfs_spec(n, w, i, e, path, cnt);
    if i == w.len() {
        let base: Seq<Seq<u8>> = if n.is_word {
            seq![path]
        } else {
            Seq::empty()
        };
        if k < base.len() {
            assert(out[k] == path);
            assert(path + Seq::<u8>::empty() =~= path);
            assert(reachable(n, w, i, e, Seq::<u8>::empty()));
        } else {
            lemma_dfs_append_sound(n, w, i, e, path, 0, k - base.len());
        }
    } else {
        lemma_dfs_step_sound(n, w, i, e, path, cnt, 0, k);
    }
}

/// Soundness of the trailing-append part of the search.
proof fn lemma_dfs_append_sound(
    n: TrieTypoChecker,
    w: Seq<u8>,
    i: int,
    e: int,
    path: Seq<u8>,
    c: int,
    k: int,
)
    requires
        n.wf(),
        0 <= k < dfs_append(n, w, i, e, path, c).len(),
    ensures
        exists|s: Seq<u8>| dfs_append(n, w, i, e, path, c)[k] == path + s && #[trigger] reachable(
            n,
            w,
            i,
            e,
            s,
        ),
    decreases w.len() - i + e + 1, 26 - c,
{
    let here = match n.children@[c] {
        Some(child) => dfs_spec(*child, w, i, e - 1, path.push((LOWER_A + c) as u8), 0),
        None => Seq::<Seq<u8>>::empty(),
    };
    if k < here.len() {
        let child = *n.children@[c].unwrap();
        let letter = (LOWER_A + c) as u8;
        lemma_dfs_spec_sound(child, w, i, e - 1, path.push(letter), 0, k);
        let sub = choose|sub: Seq<u8>|
            here[k] == path.push(letter) + sub && #[trigger] reachable(child, w, i, e - 1, sub);
        let s = seq![letter] + sub;
        assert(path + s =~= path.push(letter) + sub);
        assert(s[0] == letter && s.skip(1) =~= sub);
        assert(reachable(n, w, i, e, s));
        assert(dfs_append(n, w, i, e, path, c)[k] == path + s);
    } else {
        lemma_dfs_append_sound(n, w, i, e, path, c + 1, k - here.len());
        let rest = dfs_append(n, w, i, e, path, c + 1);
        let s = choose|s: Seq<u8>|
            rest[k - here.len()] == path + s && #[trigger] reachable(n, w, i, e, s);
        assert(dfs_append(n, w, i, e, path, c)[k] == rest[k - here.len()]);
    }
}

/// Soundness of the in-word part of the search.
proof fn lemma_dfs_step_sound(
    n: TrieTypoChecker,
    w: Seq<u8>,
    i: int,
    e: int,
    path: Seq<u8>,
    cnt: int,
    c: int,
    k: int,
)
    requires
        n.wf(),
        0 <= k < dfs_step(n, w, i, e, path, cnt, c).len(),
    ensures
        exists|s: Seq<u8>| dfs_step(n, w, i, e, path, cnt, c)[k] == path + s
            && #[trigger] reachable(n, w, i, e, s),
    decreases w.len() - i + e + 1, 26 - c,
{
    let here = match n.children@[c] {
        Some(child) => if LOWER_A + c == w[i] {
            dfs_spec(*child, w, i + 1, e, path.push(w[i]), cnt)
        } else {
            dfs_spec(*child, w, i + 1, e - 1, path.push((LOWER_A + c) as u8), cnt)
        },
        None => Seq::<Seq<u8>>::empty(),
    };
    if k < here.len() {
        let child = *n.children@[c].unwrap();
        let letter = (LOWER_A + c) as u8;
        if LOWER_A + c == w[i] {
            lemma_dfs_spec_sound(child, w, i + 1, e, path.push(w[i]), cnt, k);
            let sub = choose|sub: Seq<u8>|
                here[k] == path.push(w[i]) + sub && #[trigger] reachable(child, w, i + 1, e, sub);
            let s = seq![w[i]] + sub;
            assert(path + s =~= path.push(w[i]) + sub);
            assert(s[0] == letter && s.skip(1) =~= sub);
            assert(reachable(n, w, i, e, s));
            assert(dfs_step(n, w, i, e, path, cnt, c)[k] == path + s);
        } else {
            lemma_dfs_spec_sound(child, w, i + 1, e - 1, path.push(letter), cnt, k);
            let sub = choose|sub: Seq<u8>|
                here[k] == path.push(letter) + sub && #[trigger] reachable(
                    child,
                    w,
                    i + 1,
                    e - 1,
                    sub,
                );
            let s = seq![letter] + sub;
            assert(path + s =~= path.push(letter) + sub);
            assert(s[0] == letter && s.skip(1) =~= sub);
            assert(reachable(n, w, i, e, s));
            assert(dfs_step(n, w, i, e, path, cnt, c)[k] == path + s);
        }
    } else {
        lemma_dfs_step_sound(n, w, i, e, path, cnt + here.len() as int, c + 1, k - here.len());
        let rest = dfs_step(n, w, i, e, path, cnt + here.len() as int, c + 1);
        let s = choose|s: Seq<u8>|
            rest[k - here.len()] == path + s && #[trigger] reachable(n, w, i, e, s);
        assert(dfs_step(n, w, i, e, path, cnt, c)[k] == rest[k - here.len()]);
    }
}

/// Budget monotonicity at the interface: every suggestion the checker
/// returns under the default budget of one edit is reachable, ignoring
/// the cap, under any budget of at least one edit.
pub proof fn lemma_suggestion_budget_monotone(t: TrieTypoChecker, w: Seq<u8>, e2: int, k: int)
    requires
        t.wf(),
        1 <= e2,
        0 <= k < suggestions_model(t, w).len(),
    ensures
        reachable(t, w, 0, e2, suggestions_model(t, w)[k]),
{
    let full = dfs_spec(t, w, 0, 1, Seq::empty(), 0);
    assert(suggestions_model(t, w)[k] == full[k]);
    lemma_dfs_spec_sound(t, w, 0, 1, Seq::empty(), 0, k);
    let s = choose|s: Seq<u8>| full[k] == Seq::<u8>::empty() + s && #[trigger] reachable(
        t,
        w,
        0,
        1,
        s,
    );
    assert(Seq::<u8>::empty() + s =~= s);
    lemma_budget_monotone(t, w, 0, 1, e2, s);
}

} // verus!
