//! The linear-scan baseline checker: a plain word list, membership by
//! equality, and suggestions by an edit-distance scan. It serves as a
//! comparison oracle for the trie-based checker.

use vstd::prelude::*;
use vstd::string::StringSliceAdditionalSpecFns;

use crate::trie::MAX_EDIT_DISTANCE;
use crate::trie::NUMBER_OF_SUGGESTIONS;

verus! {

/// The Levenshtein distance between two byte sequences: the least number
/// of single-byte insertions, deletions and substitutions that turns one
/// into the other.
pub open spec fn lev(a: Seq<u8>, b: Seq<u8>) -> int
    decreases a.len() + b.len(),
{
    if a.len() == 0 {
        b.len() as int
    } else if b.len() == 0 {
        a.len() as int
    } else {
        let s = lev(a.skip(1), b.skip(1)) + if a[0] == b[0] {
            0int
        } else {
            1int
        };
        let d = lev(a.skip(1), b) + 1;
        let n = lev(a, b.skip(1)) + 1;
        if s <= d && s <= n {
            s
        } else if d <= n {
            d
        } else {
            n
        }
    }
}

/// The distance never exceeds the longer length: editing every byte and
/// appending or dropping the overhang always suffices.
pub proof fn lemma_lev_bound(a: Seq<u8>, b: Seq<u8>)
    ensures
        0 <= lev(a, b),
        lev(a, b) <= a.len() || lev(a, b) <= b.len(),
    decreases a.len() + b.len(),
{
    if a.len() > 0 && b.len() > 0 {
        lemma_lev_bound(a.skip(1), b.skip(1));
        lemma_lev_bound(a.skip(1), b);
        lemma_lev_bound(a, b.skip(1));
    }
}

/// The bytes of a stored word.
pub open spec fn word_bytes(s: String) -> Seq<u8> {
    vstd::utf8::encode_utf8(s@)
}

/// The suggestions a scan of `ws` yields for the query `w`, with `cnt`
/// already collected: each word within the edit-distance bound is taken,
/// and the scan stops once one more than the cap has accumulated.
pub open spec fn scan_suggestions(ws: Seq<Seq<u8>>, w: Seq<u8>, cnt: int) -> Seq<Seq<u8>>
    decreases ws.len(),
{
    if ws.len() == 0 || cnt > NUMBER_OF_SUGGESTIONS {
        Seq::empty()
    } else if lev(w, ws[0]) <= MAX_EDIT_DISTANCE {
        seq![ws[0]] + scan_suggestions(ws.skip(1), w, cnt + 1)
    } else {
        scan_suggestions(ws.skip(1), w, cnt)
    }
}

/// The scan collects at most one word over the cap.
pub proof fn lemma_scan_len(ws: Seq<Seq<u8>>, w: Seq<u8>, cnt: int)
    requires
        0 <= cnt,
    ensures
        cnt + scan_suggestions(ws, w, cnt).len() <= NUMBER_OF_SUGGESTIONS + 1 || scan_suggestions(
            ws,
            w,
            cnt,
        ).len() + cnt == cnt,
        cnt <= NUMBER_OF_SUGGESTIONS ==> cnt + scan_suggestions(ws, w, cnt).len()
            <= NUMBER_OF_SUGGESTIONS + 1,
    decreases ws.len(),
{
    if ws.len() > 0 && cnt <= NUMBER_OF_SUGGESTIONS {
        lemma_scan_len(ws.skip(1), w, cnt + 1);
        lemma_scan_len(ws.skip(1), w, cnt);
    }
}

/// Reports whether two byte slices hold the same bytes.
fn bytes_equal(a: &[u8], b: &[u8]) -> (r: bool)
    ensures
        r == (a@ == b@),
{
    if a.len() != b.len() {
        proof {
            assert(a@.len() != b@.len());
        }
        return false;
    }
    let mut i: usize = 0;
    while i < a.len()
        invariant
            i <= a@.len(),
            a@.len() == b@.len(),
            forall|j: int| 0 <= j < i ==> a@[j] == b@[j],
        decreases a@.len() - i,
    {
        if a[i] != b[i] {
            return false;
        }
        i = i + 1;
    }
    proof {
        assert(a@ =~= b@);
    }
    true
}

/// The edit distance between the suffixes `a[i..]` and `b[j..]`.
fn lev_rec(a: &[u8], b: &[u8], i: usize, j: usize) -> (r: usize)
    requires
        i <= a@.len(),
        j <= b@.len(),
    ensures
        r == lev(a@.skip(i as int), b@.skip(j as int)),
    decreases a@.len() - i + b@.len() - j,
{
    let ghost sa = a@.skip(i as int);
    let ghost sb = b@.skip(j as int);
    if i == a.len() {
        proof {
            assert(sa.len() == 0);
        }
        b.len() - j
    } else if j == b.len() {
        proof {
            assert(sb.len() == 0);
        }
        a.len() - i
    } else {
        proof {
            assert(sa[0] == a@[i as int] && sb[0] == b@[j as int]);
            assert(sa.skip(1) =~= a@.skip(i + 1 as int));
            assert(sb.skip(1) =~= b@.skip(j + 1 as int));
        }
        let sub = lev_rec(a, b, i + 1, j + 1);
        proof {
            lemma_lev_bound(a@.skip(i + 1 as int), b@.skip(j + 1 as int));
        }
        let subc = if a[i] == b[j] {
            sub
        } else {
            sub + 1
        };
        let del = lev_rec(a, b, i + 1, j);
        let ins = lev_rec(a, b, i, j + 1);
        let m = if del <= ins {
            del
        } else {
            ins
        };
        if m >= subc {
            subc
        } else {
            m + 1
        }
    }
}

/// The Levenshtein distance between two byte strings.
pub fn lev_distance(a: &[u8], b: &[u8]) -> (r: usize)
    ensures
        r == lev(a@, b@),
{
    let r = lev_rec(a, b, 0, 0);
    proof {
        assert(a@.skip(0) =~= a@);
        assert(b@.skip(0) =~= b@);
    }
    r
}

/// A checker over a plain word list, scanned linearly.
pub struct VecTypoChecker {
    /// The stored words, in insertion order, not normalized.
    words: Vec<String>,
}

/// The model of the baseline checker: the bytes of each stored word, in
/// insertion order.
impl View for VecTypoChecker {
    type V = Seq<Seq<u8>>;

    closed spec fn view(&self) -> Seq<Seq<u8>> {
        self.words@.map_values(|s: String| word_bytes(s))
    }
}

impl VecTypoChecker {
    /// Builds a checker with no words.
    pub fn new() -> (r: Self)
        ensures
            r@ =~= Seq::<Seq<u8>>::empty(),
    {
        let r = VecTypoChecker { words: Vec::new() };
        proof {
            assert(r@ =~= Seq::<Seq<u8>>::empty());
        }
        r
    }

    /// Stores a word as given; no normalization, duplicates kept.
    pub fn insert(&mut self, word: String)
        ensures
            final(self)@ =~= old(self)@.push(word_bytes(word)),
    {
        self.words.push(word);
        proof {
            assert(self@ =~= old(self)@.push(word_bytes(word)));
        }
    }

    /// A word is a typo iff no stored word has the same bytes.
    pub fn is_typo(&self, word: &str) -> (r: bool)
        ensures
            r == !self@.contains(word.spec_bytes()),
    {
        let query = word.as_bytes();
        let mut i: usize = 0;
        while i < self.words.len()
            invariant
                i <= self.words@.len(),
                query@ == word.spec_bytes(),
                forall|j: int| 0 <= j < i ==> self@[j] != word.spec_bytes(),
            decreases self.words@.len() - i,
        {
            if bytes_equal(self.words[i].as_str().as_bytes(), query) {
                proof {
                    assert(self@[i as int] == word.spec_bytes());
                }
                return false;
            }
            i = i + 1;
        }
        proof {
            assert(forall|j: int| 0 <= j < self@.len() ==> self@[j] != word.spec_bytes());
        }
        true
    }

    /// Suggestions for `word`: empty if the word is stored; otherwise the
    /// stored words within the edit-distance bound, in insertion order,
    /// the scan stopping once one more than the cap has been collected.
    pub fn typo_suggestions(&self, word: &str) -> (r: Vec<String>)
        ensures
            r@.len() <= NUMBER_OF_SUGGESTIONS + 1,
            self@.contains(word.spec_bytes()) ==> r@.len() == 0,
            !self@.contains(word.spec_bytes()) ==> r@.len() == scan_suggestions(
                self@,
                word.spec_bytes(),
                0,
            ).len(),
            !self@.contains(word.spec_bytes()) ==> forall|k: int|
                0 <= k < r@.len() ==> word_bytes(r@[k]) == scan_suggestions(
                    self@,
                    word.spec_bytes(),
                    0,
                )[k],
    {
        let ghost w = word.spec_bytes();
        let ghost full = scan_suggestions(self@, w, 0);
        if !self.is_typo(word) {
            return Vec::new();
        }
        let query = word.as_bytes();
        let mut out: Vec<String> = Vec::new();
        let mut i: usize = 0;
        proof {
            assert(self@.skip(0) =~= self@);
            lemma_scan_len(self@, w, 0);
        }
        while i < self.words.len() && out.len() <= NUMBER_OF_SUGGESTIONS
            invariant
                i <= self.words@.len(),
                query@ == w,
                full == scan_suggestions(self@, w, 0),
                out@.len() <= NUMBER_OF_SUGGESTIONS + 1,
                forall|k: int| 0 <= k < out@.len() ==> word_bytes(#[trigger] out@[k]) == full[k],
                full =~= out@.map_values(|s: String| word_bytes(s)) + scan_suggestions(
                    self@.skip(i as int),
                    w,
                    out@.len() as int,
                ),
            decreases self.words@.len() - i,
        {
            let ghost rest = self@.skip(i as int);
            proof {
                assert(rest[0] == self@[i as int]);
                assert(rest.skip(1) =~= self@.skip(i + 1 as int));
                lemma_lev_bound(w, self@[i as int]);
            }
            let d = lev_distance(query, self.words[i].as_str().as_bytes());
            if d <= MAX_EDIT_DISTANCE {
                let found = self.words[i].clone();
                proof {
                    assert(word_bytes(found) == self@[i as int]);
                }
                out.push(found);
                proof {
                    assert(out@.map_values(|s: String| word_bytes(s)) =~= out@.drop_last()
                        .map_values(|s: String| word_bytes(s)) + seq![self@[i as int]]);
                    lemma_scan_len(self@.skip(i + 1 as int), w, out@.len() as int);
                }
            }
            i = i + 1;
        }
        proof {
            if i == self.words@.len() {
                assert(self@.skip(i as int) =~= Seq::<Seq<u8>>::empty());
            }
            assert(scan_suggestions(self@.skip(i as int), w, out@.len() as int)
                =~= Seq::<Seq<u8>>::empty());
            assert(full =~= out@.map_values(|s: String| word_bytes(s)));
            assert(forall|k: int| 0 <= k < out@.len() ==> full[k] == word_bytes(
                #[trigger] out@[k],
            ));
        }
        out
    }
}

/// A freshly built baseline checker holds no words.
impl Default for VecTypoChecker {
    fn default() -> (r: Self)
        ensures
            r@ =~= Seq::<Seq<u8>>::empty(),
    {
        VecTypoChecker::new()
    }
}

} // verus!
