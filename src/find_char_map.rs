//! The solver: the word model, the dictionary index and the backtracking
//! search over one shared substitution.

use itertools::Itertools;
use vstd::prelude::*;

use crate::notree::{
    allowed, disjoint, lemma_allowed_contains, lemma_allowed_distinct, lemma_insert_distinct, values_distinct,
    Notree,
};
use crate::pattern::{
    chars_of, ints, labels, lemma_labels, lemma_labels_concat, lemma_labels_len, lemma_labels_shape,
    lemma_pattern_equivalence, lemma_syms_after, pattern, relative_representation, same_shape,
    relative_pattern, syms_after,
};

verus! {

/// One accepted word and the accepted continuations for the next word.
/// A node without continuations ends a complete phrase.
pub struct WordTree {
    pub word: String,
    pub next: Vec<WordTree>,
}

/// Following the child indices `idx` down from `t` reads the phrase `p`
/// and ends at a node without continuations.
pub open spec fn path_ok(t: WordTree, idx: Seq<int>, p: Seq<Seq<char>>) -> bool
    decreases p.len(),
{
    &&& p.len() >= 1
    &&& p[0] == t.word@
    &&& if p.len() == 1 {
        t.next@.len() == 0
    } else {
        &&& idx.len() >= 1
        &&& 0 <= idx[0] < t.next@.len()
        &&& path_ok(t.next@[idx[0]], idx.drop_first(), p.drop_first())
    }
}

/// The phrase `p` is a path from `t` down to a node without continuations.
pub open spec fn tree_has(t: WordTree, p: Seq<Seq<char>>) -> bool {
    exists|idx: Seq<int>| #[trigger] path_ok(t, idx, p)
}

/// The phrase `p` is a path of one of the trees of `f`.
pub open spec fn forest_has(f: Seq<WordTree>, p: Seq<Seq<char>>) -> bool {
    exists|i: int| 0 <= i < f.len() && #[trigger] tree_has(f[i], p)
}

/// The phrases of a node are its word followed by a phrase of its
/// continuations, or its word alone where it has none.
pub proof fn lemma_tree_has(t: WordTree, p: Seq<Seq<char>>)
    ensures
        tree_has(t, p) <==> (p.len() >= 1 && p[0] == t.word@ && if t.next@.len() == 0 {
            p.len() == 1
        } else {
            forest_has(t.next@, p.drop_first())
        }),
{
    if tree_has(t, p) {
        let idx = choose|idx: Seq<int>| #[trigger] path_ok(t, idx, p);
        if p.len() > 1 {
            assert(path_ok(t.next@[idx[0]], idx.drop_first(), p.drop_first()));
            assert(tree_has(t.next@[idx[0]], p.drop_first()));
        }
    }
    if p.len() >= 1 && p[0] == t.word@ {
        if t.next@.len() == 0 {
            if p.len() == 1 {
                assert(path_ok(t, Seq::empty(), p));
            }
        } else if forest_has(t.next@, p.drop_first()) {
            let i = choose|i: int| 0 <= i < t.next@.len() && #[trigger] tree_has(t.next@[i], p.drop_first());
            let idx = choose|idx: Seq<int>| #[trigger] path_ok(t.next@[i], idx, p.drop_first());
            let full = seq![i] + idx;
            assert(full.drop_first() =~= idx);
            assert(p.drop_first().len() >= 1);
            assert(path_ok(t, full, p));
        }
    }
}

/// The words of a phrase written one after the other.
pub open spec fn concat<A>(ws: Seq<Seq<A>>) -> Seq<A>
    decreases ws.len(),
{
    if ws.len() == 0 {
        Seq::empty()
    } else {
        ws[0] + concat(ws.drop_first())
    }
}

/// `cs` is a phrase that one substitution, one-to-one over the whole
/// phrase, makes out of `ws`, with every word taken from `dict`.
pub open spec fn is_solution(ws: Seq<Seq<char>>, dict: Seq<Seq<char>>, cs: Seq<Seq<char>>) -> bool {
    &&& cs.len() == ws.len()
    &&& forall|k: int| 0 <= k < cs.len() ==> #[trigger] dict.contains(cs[k])
    &&& forall|k: int| 0 <= k < cs.len() ==> #[trigger] cs[k].len() == ws[k].len()
    &&& same_shape(concat(ws), concat(cs))
}

/// The bucket `b` indexes, among the first `m` lines of `ls`, exactly those
/// of pattern `tp`: each under the letters at the positions `bd`, in a
/// trie keyed by its letters; groups have distinct letters.
pub open spec fn bucket_valid(
    b: Seq<(Vec<char>, Notree<usize>)>,
    ls: Seq<Seq<char>>,
    bd: Seq<usize>,
    tp: Seq<int>,
    m: int,
) -> bool {
    &&& forall|d: int, key: Seq<char>, j: usize|
        0 <= d < b.len() && #[trigger] b[d].1.entries().contains((key, j)) ==> {
            &&& j < m
            &&& j < ls.len()
            &&& same_letters(key, ls[j as int])
            &&& forall|x: int, y: int| 0 <= x < y < key.len() ==> key[x] < key[y]
            &&& b[d].0@ == sig_of(ls[j as int], bd)
            &&& pattern(ls[j as int]) == tp
        }
    &&& forall|j: int|
        0 <= j < m && j < ls.len() && #[trigger] pattern(ls[j]) == tp ==> exists|d: int, key: Seq<char>|
            0 <= d < b.len() && b[d].0@ == sig_of(ls[j], bd) && #[trigger] b[d].1.entries().contains(
                (key, j as usize),
            )
    &&& forall|d1: int, d2: int| 0 <= d1 < b.len() && 0 <= d2 < b.len() && d1 != d2 ==> b[d1].0@ != b[d2].0@
    &&& forall|d: int| 0 <= d < b.len() ==> values_distinct(#[trigger] b[d].1.entries())
    &&& forall|d: int| 0 <= d < b.len() ==> (#[trigger] b[d]).1.sorted()
}

/// Read word after word against one table, `cs` gives the labels `rels`.
pub open spec fn matches(syms: Seq<char>, rels: Seq<Seq<int>>, cs: Seq<Seq<char>>) -> bool
    decreases cs.len(),
{
    &&& cs.len() == rels.len()
    &&& (cs.len() == 0 || (labels(syms, cs[0]) == rels[0] && matches(
        syms_after(syms, cs[0]),
        rels.drop_first(),
        cs.drop_first(),
    )))
}

/// The symbol table after the first `k` words of `ws`.
pub open spec fn syms_upto(ws: Seq<Seq<char>>, k: int) -> Seq<char>
    decreases k,
{
    if k <= 0 {
        Seq::empty()
    } else {
        syms_after(syms_upto(ws, k - 1), ws[k - 1])
    }
}

/// The letters of `w` at the positions `dep`.
pub open spec fn sig_of(w: Seq<char>, dep: Seq<usize>) -> Seq<char> {
    dep.map_values(|i: usize| w[i as int])
}

/// `a` and `b` hold the same letters.
pub open spec fn same_letters(a: Seq<char>, b: Seq<char>) -> bool {
    forall|c: char| a.contains(c) <==> b.contains(c)
}

pub proof fn lemma_syms_upto(ws: Seq<Seq<char>>, k: int)
    ensures
        syms_upto(ws, k).no_duplicates(),
    decreases k,
{
    if k > 0 {
        lemma_syms_upto(ws, k - 1);
        lemma_syms_after(syms_upto(ws, k - 1), ws[k - 1]);
    }
}

proof fn lemma_concat_split<A>(a: Seq<A>, b: Seq<A>, c: Seq<A>, d: Seq<A>)
    requires
        a.len() == c.len(),
    ensures
        (a + b == c + d) <==> (a == c && b == d),
{
    if a + b == c + d {
        assert(a =~= (a + b).subrange(0, a.len() as int));
        assert(c =~= (c + d).subrange(0, c.len() as int));
        assert(b =~= (a + b).subrange(a.len() as int, (a + b).len() as int));
        assert(d =~= (c + d).subrange(c.len() as int, (c + d).len() as int));
    }
}

/// Matching word by word is matching the whole phrase at once, word
/// lengths kept.
proof fn lemma_matches_concat(syms: Seq<char>, rels: Seq<Seq<int>>, cs: Seq<Seq<char>>)
    requires
        syms.no_duplicates(),
    ensures
        matches(syms, rels, cs) <==> (cs.len() == rels.len() && (forall|k: int|
            0 <= k < cs.len() ==> #[trigger] cs[k].len() == rels[k].len()) && labels(syms, concat(cs))
            == concat(rels)),
    decreases cs.len(),
{
    if cs.len() == rels.len() && cs.len() > 0 {
        let s1 = syms_after(syms, cs[0]);
        lemma_syms_after(syms, cs[0]);
        lemma_matches_concat(s1, rels.drop_first(), cs.drop_first());
        lemma_labels_concat(syms, cs[0], concat(cs.drop_first()));
        lemma_labels(syms, cs[0]);
        if cs[0].len() == rels[0].len() {
            lemma_concat_split(
                labels(syms, cs[0]),
                labels(s1, concat(cs.drop_first())),
                rels[0],
                concat(rels.drop_first()),
            );
        }
        if forall|k: int| 0 <= k < cs.len() ==> #[trigger] cs[k].len() == rels[k].len() {
            assert forall|k: int| 0 <= k < cs.len() - 1 implies #[trigger] cs.drop_first()[k].len()
                == rels.drop_first()[k].len() by {
                assert(cs[k + 1].len() == rels[k + 1].len());
            }
        }
        if cs[0].len() == rels[0].len() && (forall|k: int|
            0 <= k < cs.len() - 1 ==> #[trigger] cs.drop_first()[k].len() == rels.drop_first()[k].len()) {
            assert forall|k: int| 0 <= k < cs.len() implies #[trigger] cs[k].len() == rels[k].len() by {
                if k > 0 {
                    assert(cs.drop_first()[k - 1].len() == rels.drop_first()[k - 1].len());
                }
            }
        }
    }
}

/// Words that carry their own labels match them.
proof fn lemma_words_match(ws: Seq<Seq<char>>, rels: Seq<Seq<int>>, m: int)
    requires
        ws.len() == rels.len(),
        0 <= m <= ws.len(),
        forall|k: int| 0 <= k < ws.len() ==> #[trigger] rels[k] == labels(syms_upto(ws, k), ws[k]),
    ensures
        matches(syms_upto(ws, m), rels.skip(m), ws.skip(m)),
    decreases ws.len() - m,
{
    if m < ws.len() {
        lemma_words_match(ws, rels, m + 1);
        assert(ws.skip(m).drop_first() =~= ws.skip(m + 1));
        assert(rels.skip(m).drop_first() =~= rels.skip(m + 1));
        assert(ws.skip(m)[0] == ws[m]);
        assert(rels.skip(m)[0] == rels[m]);
    }
}

/// A phrase matches the labels of the words exactly when one one-to-one
/// substitution turns the words into it, word lengths kept.
proof fn lemma_matches_shape(ws: Seq<Seq<char>>, rels: Seq<Seq<int>>, cs: Seq<Seq<char>>)
    requires
        matches(Seq::empty(), rels, ws),
    ensures
        matches(Seq::empty(), rels, cs) <==> (cs.len() == ws.len() && (forall|k: int|
            0 <= k < cs.len() ==> #[trigger] cs[k].len() == ws[k].len()) && same_shape(
            concat(ws),
            concat(cs),
        )),
{
    let e = Seq::<char>::empty();
    assert(e.no_duplicates());
    lemma_matches_concat(e, rels, ws);
    lemma_matches_concat(e, rels, cs);
    lemma_pattern_equivalence(concat(ws), concat(cs));
    if cs.len() == ws.len() {
        if forall|k: int| 0 <= k < cs.len() ==> #[trigger] cs[k].len() == ws[k].len() {
            assert forall|k: int| 0 <= k < cs.len() implies #[trigger] cs[k].len() == rels[k].len() by {
                assert(ws[k].len() == rels[k].len());
            }
        }
        if forall|k: int| 0 <= k < cs.len() ==> #[trigger] cs[k].len() == rels[k].len() {
            assert forall|k: int| 0 <= k < cs.len() implies #[trigger] cs[k].len() == ws[k].len() by {
                assert(ws[k].len() == rels[k].len());
            }
        }
    }
}


/// One distinct input word.
struct Word {
    s: String,
    chars: Vec<char>,
    /// Labels against the table shared by all words, in solving order.
    rel: Vec<usize>,
    /// The word's own pattern, the key of its dictionary bucket.
    urel: Vec<usize>,
    /// For each position: its letter occurs in another input word.
    dependencies: Vec<bool>,
    /// Positions whose letter occurs in an earlier word of the solving order.
    back_dep: Vec<usize>,
}

/// The words of one bucket, grouped by the letters at the positions fixed
/// by earlier words, each group a trie over the words' letter sets.
type Bucket = Vec<(Vec<char>, Notree<usize>)>;

spec fn word_texts(ws: Seq<Word>) -> Seq<Seq<char>> {
    ws.map_values(|w: Word| w.s@)
}

/// One level of the search: the trees accepted so far for word `k`, the
/// table length to restore before each candidate, the candidates, and the
/// next candidate to try.
struct Frame {
    res: Vec<WordTree>,
    len: usize,
    opts: Vec<usize>,
    next: usize,
}

/// The weight of a frame's untried candidates, `e` levels above the deepest.
spec fn weight(e: nat) -> nat
    decreases e,
{
    if e == 0 {
        1
    } else {
        (usize::MAX as nat + 1) * weight((e - 1) as nat)
    }
}

proof fn lemma_weight(e: nat)
    ensures
        weight(e) >= 1,
        weight(e + 1) == (usize::MAX as nat + 1) * weight(e),
    decreases e,
{
    if e > 0 {
        lemma_weight((e - 1) as nat);
        assert(weight(e) >= 1) by (nonlinear_arith)
            requires
                weight(e) == (usize::MAX as nat + 1) * weight((e - 1) as nat),
                weight((e - 1) as nat) >= 1,
        ;
    }
}

/// The input words, ordered for solving, and the dictionary indexed for them.
pub struct FcmData {
    orig_words: Vec<String>,
    word_map: Vec<usize>,
    lines: Vec<String>,
    line_chars: Vec<Vec<char>>,
    dict: Vec<Bucket>,
    words: Vec<Word>,
}

impl FcmData {
    /// The distinct input words, in solving order.
    pub closed spec fn words_view(self) -> Seq<Seq<char>> {
        word_texts(self.words@)
    }

    /// The input words as given.
    pub closed spec fn orig_view(self) -> Seq<Seq<char>> {
        self.orig_words@.map_values(|w: String| w@)
    }

    /// The dictionary lines, trimmed.
    pub closed spec fn lines_view(self) -> Seq<Seq<char>> {
        self.lines@.map_values(|l: String| l@)
    }

    /// For each input position, the index of its word in solving order.
    pub closed spec fn word_map_view(self) -> Seq<usize> {
        self.word_map@
    }

    closed spec fn rels(self) -> Seq<Seq<int>> {
        self.words@.map_values(|w: Word| ints(w.rel@))
    }

    closed spec fn bucket_ok(self, k: int) -> bool {
        bucket_valid(
            self.dict@[k]@,
            self.lines_view(),
            self.words@[k].back_dep@,
            pattern(self.words_view()[k]),
            self.lines_view().len() as int,
        )
    }

    /// The word model and the index agree with the words and the lines.
    pub closed spec fn wf(self) -> bool {
        let n = self.words@.len();
        let ws = self.words_view();
        &&& self.dict@.len() == n
        &&& self.lines@.len() == self.line_chars@.len()
        &&& self.lines@.len() < usize::MAX
        &&& forall|j: int| 0 <= j < self.lines@.len() ==> #[trigger] self.line_chars@[j]@ == self.lines@[j]@
        &&& forall|k: int| 0 <= k < n ==> #[trigger] self.words@[k].chars@ == self.words@[k].s@
        &&& forall|k: int| 0 <= k < n ==> #[trigger] self.rels()[k] == labels(syms_upto(ws, k), ws[k])
        &&& forall|k: int, t: int|
            0 <= k < n && 0 <= t < self.words@[k].back_dep@.len() ==> {
                let i = #[trigger] self.words@[k].back_dep@[t];
                &&& i < self.words@[k].rel@.len()
                &&& self.words@[k].rel@[i as int] < syms_upto(ws, k).len()
            }
        &&& forall|k: int, s: int, t: int|
            0 <= k < n && 0 <= s < t < self.words@[k].back_dep@.len() ==> #[trigger] self.words@[k].back_dep@[s]
                < #[trigger] self.words@[k].back_dep@[t]
        &&& forall|k: int| 0 <= k < n ==> #[trigger] self.bucket_ok(k)
        &&& self.word_map@.len() == self.orig_words@.len()
        &&& forall|p: int|
            0 <= p < self.word_map@.len() ==> #[trigger] self.word_map@[p] < n && ws[self.word_map@[p] as int]
                == self.orig_words@[p]@
    }

    /// `p` completes, from word `k` on, a phrase whose earlier words left the
    /// table `syms`.
    closed spec fn completes(self, syms: Seq<char>, k: int, p: Seq<Seq<char>>) -> bool {
        &&& p.len() == self.words@.len() - k
        &&& matches(syms, self.rels().skip(k), p)
        &&& forall|i: int| 0 <= i < p.len() ==> #[trigger] self.lines_view().contains(p[i])
    }

    /// `p` completes from word `k` on, and starts with dictionary line `o`.
    closed spec fn from_line(self, syms: Seq<char>, k: int, o: usize, p: Seq<Seq<char>>) -> bool {
        &&& o < self.lines@.len()
        &&& p.len() >= 1
        &&& p[0] == self.lines@[o as int]@
        &&& self.completes(syms, k, p)
    }

    proof fn lemma_completes_step(self, syms: Seq<char>, k: int, p: Seq<Seq<char>>)
        requires
            0 <= k < self.words@.len(),
        ensures
            self.completes(syms, k, p) <==> (p.len() >= 1 && self.lines_view().contains(p[0])
                && labels(syms, p[0]) == self.rels()[k] && self.completes(
                syms_after(syms, p[0]),
                k + 1,
                p.drop_first(),
            )),
    {
        let rs = self.rels().skip(k);
        assert(rs.drop_first() =~= self.rels().skip(k + 1));
        if p.len() >= 1 {
            if forall|i: int| 0 <= i < p.len() ==> #[trigger] self.lines_view().contains(p[i]) {
                assert forall|i: int| 0 <= i < p.len() - 1 implies #[trigger] self.lines_view().contains(
                    p.drop_first()[i],
                ) by {
                    assert(self.lines_view().contains(p[i + 1]));
                }
            }
            if self.lines_view().contains(p[0]) && forall|i: int|
                0 <= i < p.len() - 1 ==> #[trigger] self.lines_view().contains(p.drop_first()[i]) {
                assert forall|i: int| 0 <= i < p.len() implies #[trigger] self.lines_view().contains(p[i]) by {
                    if i > 0 {
                        assert(self.lines_view().contains(p.drop_first()[i - 1]));
                    }
                }
            }
        }
    }
}

impl FcmData {
    /// The letters that the table `syms` gives to the positions of word `k`
    /// whose letter an earlier word fixed.
    closed spec fn query(self, syms: Seq<char>, k: int) -> Seq<char> {
        let rel = self.words@[k].rel@;
        self.words@[k].back_dep@.map_values(|i: usize| syms[rel[i as int] as int])
    }

    /// A line that fits word `k` after table `syms` sits in the group of
    /// its bucket found by the letters that the table fixes, and holds no
    /// letter of the table that the word does not use.
    proof fn lemma_line_found(self, syms: Seq<char>, k: int, j: int)
        requires
            self.wf(),
            0 <= k < self.words@.len(),
            syms.no_duplicates(),
            syms.len() == syms_upto(self.words_view(), k).len(),
            0 <= j < self.lines@.len(),
            labels(syms, self.lines_view()[j]) == self.rels()[k],
        ensures
            exists|d: int, key: Seq<char>|
                0 <= d < self.dict@[k]@.len() && self.dict@[k]@[d].0@ == self.query(syms, k)
                    && #[trigger] self.dict@[k]@[d].1.entries().contains((key, j as usize)),
            forall|i: int|
                0 <= i < syms.len() && #[trigger] self.lines_view()[j].contains(syms[i])
                    ==> self.words@[k].rel@.contains(i as usize),
    {
        let ws = self.words_view();
        let c = self.lines_view()[j];
        let rel = self.words@[k].rel@;
        let bd = self.words@[k].back_dep@;
        let r = syms_after(syms, c);
        assert(self.rels()[k] == ints(rel));
        assert(self.rels()[k] == labels(syms_upto(ws, k), ws[k]));
        lemma_labels(syms, c);
        lemma_syms_after(syms, c);
        assert(sig_of(c, bd) =~= self.query(syms, k)) by {
            assert forall|t: int| 0 <= t < bd.len() implies c[bd[t] as int] == syms[rel[bd[t] as int] as int] by {
                let i = bd[t];
                assert(i < rel.len() && rel[i as int] < syms_upto(ws, k).len());
                assert(labels(syms, c)[i as int] == rel[i as int]);
            }
        }
        lemma_syms_upto(ws, k);
        lemma_labels_shape(syms, c);
        lemma_labels_shape(syms_upto(ws, k), ws[k]);
        assert(same_shape(c, ws[k]));
        lemma_pattern_equivalence(c, ws[k]);
        assert(self.bucket_ok(k));
        assert(self.lines_view()[j] == c);
        assert(pattern(self.lines_view()[j]) == pattern(ws[k]));
        assert forall|i: int| 0 <= i < syms.len() && #[trigger] c.contains(syms[i]) implies rel.contains(i as usize) by {
            let m = choose|m: int| 0 <= m < c.len() && c[m] == syms[i];
            assert(r[i] == syms[i]);
            assert(r[labels(syms, c)[m]] == c[m]);
            assert(labels(syms, c)[m] == i);
            assert(rel[m] == i as usize);
        }
    }

    /// `f` is the frame of word `k` under the table `s`: its candidates
    /// hold a line for every completion, and its trees hold exactly the
    /// completions through its first `upto` candidates.
    closed spec fn frame_ok(self, f: Frame, k: int, s: Seq<char>, upto: int) -> bool {
        &&& 0 <= k < self.words@.len()
        &&& s.no_duplicates()
        &&& s.len() == syms_upto(self.words_view(), k).len()
        &&& f.len == s.len()
        &&& 0 <= upto <= f.next <= f.opts@.len()
        &&& f.opts@.len() <= usize::MAX
        &&& forall|t: int| 0 <= t < f.opts@.len() ==> #[trigger] f.opts@[t] < self.lines@.len()
        &&& forall|p: Seq<Seq<char>>|
            #[trigger] self.completes(s, k, p) ==> exists|t: int|
                0 <= t < f.opts@.len() && self.from_line(s, k, f.opts@[t], p)
        &&& forall|p: Seq<Seq<char>>|
            #[trigger] forest_has(f.res@, p) <==> exists|t: int|
                0 <= t < upto && #[trigger] self.from_line(s, k, f.opts@[t], p)
        &&& self.frame_distinct(f.res@, f.opts@, upto)
    }

    /// The candidates of `f` are distinct, each of its trees starts with the
    /// line of one of its first `upto` candidates, and with distinct lines no
    /// phrase occurs twice among its trees.
    #[verifier::opaque]
    closed spec fn frame_distinct(self, res: Seq<WordTree>, opts: Seq<usize>, upto: int) -> bool {
        &&& opts.no_duplicates()
        &&& (forall|m: int| 0 <= m < res.len() ==> self.from_opts(#[trigger] res[m], opts, upto))
        &&& (self.lines_view().no_duplicates() ==> forest_phrases(res).no_duplicates())
    }

    /// `t` starts with the line of one of the first `upto` candidates.
    closed spec fn from_opts(self, t: WordTree, opts: Seq<usize>, upto: int) -> bool {
        exists|i: int| 0 <= i < upto && t.word@ == self.lines@[opts[i] as int]@
    }

    proof fn lemma_distinct_more(self, res: Seq<WordTree>, opts: Seq<usize>, u1: int, u2: int)
        requires
            self.frame_distinct(res, opts, u1),
            u1 <= u2,
        ensures
            self.frame_distinct(res, opts, u2),
    {
        reveal(FcmData::frame_distinct);
        assert forall|m: int| 0 <= m < res.len() implies self.from_opts(#[trigger] res[m], opts, u2) by {
            assert(self.from_opts(res[m], opts, u1));
        }
    }

    /// An exhausted frame lists each phrase once when the lines are distinct.
    proof fn lemma_frame_result(self, f: Frame, k: int, s: Seq<char>, upto: int)
        requires
            self.frame_ok(f, k, s, upto),
        ensures
            self.lines_view().no_duplicates() ==> forest_phrases(f.res@).no_duplicates(),
    {
        reveal(FcmData::frame_distinct);
    }

    /// The frames of words `0..` below the top wait on their last candidate,
    /// whose letters extend the table to the next frame's; the top frame has
    /// tried its candidates up to `next` and the table is its own.
    closed spec fn stack_ok(self, st: Seq<Frame>, syms: Seq<char>) -> bool {
        let top = st.len() - 1;
        &&& 1 <= st.len() <= self.words@.len()
        &&& forall|d: int| 0 <= d < st.len() ==> #[trigger] st[d].len <= syms.len()
        &&& forall|d1: int, d2: int| 0 <= d1 <= d2 < st.len() ==> #[trigger] st[d1].len <= #[trigger] st[d2].len
        &&& syms.len() == st[top].len
        &&& self.frame_ok(st[top], top, syms, st[top].next as int)
        &&& forall|d: int|
            0 <= d < top ==> {
                let f = #[trigger] st[d];
                let sd = syms.take(f.len as int);
                let c = self.lines@[f.opts@[f.next - 1] as int]@;
                &&& f.next >= 1
                &&& self.frame_ok(f, d, sd, f.next - 1)
                &&& labels(sd, c) == self.rels()[d]
                &&& syms.take(st[d + 1].len as int) == syms_after(sd, c)
            }
    }

    /// The candidates left to each frame, the lower frames weighing more.
    closed spec fn measure(self, st: Seq<Frame>) -> nat
        decreases st.len(),
    {
        if st.len() == 0 {
            0
        } else {
            let f = st.last();
            self.measure(st.drop_last()) + ((f.opts@.len() - f.next) as nat) * weight(
                (self.words@.len() - st.len()) as nat,
            )
        }
    }

    /// The frame of word `k` under the table `syms`: the group of the bucket
    /// that the table's letters select, and its candidates that avoid the
    /// letters the word cannot use. None when no line can follow.
    fn open_frame(&self, k: usize, syms: &Vec<char>) -> (r: Option<Frame>)
        requires
            self.wf(),
            k < self.words@.len(),
            syms@.no_duplicates(),
            syms@.len() == syms_upto(self.words_view(), k as int).len(),
        ensures
            r is None ==> forall|p: Seq<Seq<char>>| !self.completes(syms@, k as int, p),
            r matches Some(f) ==> self.frame_ok(f, k as int, syms@, 0) && f.next == 0,
    {
        let ghost ss = syms@;
        let w = &self.words[k];
        proof {
            assert(self.bucket_ok(k as int));
            assert forall|t: int| 0 <= t < w.back_dep@.len() implies #[trigger] w.back_dep@[t] < w.rel@.len()
                && w.rel@[w.back_dep@[t] as int] < syms@.len() by {
                assert(self.words@[k as int].back_dep@[t] < self.words@[k as int].rel@.len());
            }
        }
        let q = fixed_hash_map(&w.back_dep, &w.rel, syms);
        proof {
            assert(q@ =~= self.query(ss, k as int));
        }
        let b = &self.dict[k];
        let d = match find_sig(b, &q) {
            Some(d) => d,
            None => {
                proof {
                    assert forall|p: Seq<Seq<char>>| !self.completes(ss, k as int, p) by {
                        if self.completes(ss, k as int, p) {
                            self.lemma_completes_step(ss, k as int, p);
                            let j = choose|j: int| 0 <= j < self.lines_view().len() && self.lines_view()[j] == p[0];
                            self.lemma_line_found(ss, k as int, j);
                        }
                    }
                }
                return None;
            },
        };
        let excl = excluded(syms, &w.rel);
        let opts = b[d].1.no_values(&excl);
        let ol = opts.len();
        let f = Frame { res: Vec::new(), len: syms.len(), opts, next: 0 };
        proof {
            assert forall|p: Seq<Seq<char>>| #[trigger] self.completes(ss, k as int, p) implies exists|t: int|
                0 <= t < opts@.len() && self.from_line(ss, k as int, opts@[t], p) by {
                self.lemma_completes_step(ss, k as int, p);
                let j = choose|j: int| 0 <= j < self.lines_view().len() && self.lines_view()[j] == p[0];
                self.lemma_line_found(ss, k as int, j);
                let (dd, key) = choose|dd: int, key: Seq<char>|
                    0 <= dd < self.dict@[k as int]@.len() && self.dict@[k as int]@[dd].0@ == self.query(ss, k as int)
                        && #[trigger] self.dict@[k as int]@[dd].1.entries().contains((key, j as usize));
                assert(dd == d);
                assert(same_letters(key, self.lines_view()[j]));
                assert(disjoint(key, excl@)) by {
                    assert forall|x: char| key.contains(x) implies !excl@.contains(x) by {
                        if excl@.contains(x) {
                            let i = choose|i: int| 0 <= i < ss.len() && ss[i] == x && !w.rel@.contains(i as usize);
                            assert(self.lines_view()[j].contains(ss[i]));
                        }
                    }
                }
                lemma_allowed_contains(b@[d as int].1.entries(), excl@, j as usize);
                let t = choose|t: int| 0 <= t < opts@.len() && opts@[t] == j as usize;
                assert(self.from_line(ss, k as int, opts@[t], p));
            }
            assert forall|t: int| 0 <= t < opts@.len() implies #[trigger] opts@[t] < self.lines@.len() by {
                assert(allowed(b@[d as int].1.entries(), excl@).contains(opts@[t]));
                lemma_allowed_contains(b@[d as int].1.entries(), excl@, opts@[t]);
                let key = choose|key: Seq<char>| #[trigger] b@[d as int].1.entries().contains((key, opts@[t])) && disjoint(key, excl@);
                assert(b@[d as int].1.entries().contains((key, opts@[t])));
            }
            assert forall|p: Seq<Seq<char>>| #[trigger] forest_has(f.res@, p) <==> exists|t: int|
                0 <= t < 0 && #[trigger] self.from_line(ss, k as int, f.opts@[t], p) by {}
            reveal(FcmData::frame_distinct);
            assert(values_distinct(b@[d as int].1.entries()));
            lemma_allowed_distinct(b@[d as int].1.entries(), excl@);
            assert(forest_phrases(f.res@) =~= Seq::<Seq<Seq<char>>>::empty());
            assert(self.frame_distinct(f.res@, f.opts@, 0));
        }
        Some(f)
    }

    proof fn lemma_solutions(self, e: Seq<char>)
        requires
            self.wf(),
            e == Seq::<char>::empty(),
        ensures
            forall|p: Seq<Seq<char>>|
                self.completes(e, 0, p) <==> is_solution(self.words_view(), self.lines_view(), p),
    {
        let ws = self.words_view();
        assert forall|k: int| 0 <= k < ws.len() implies #[trigger] self.rels()[k] == labels(syms_upto(ws, k), ws[k]) by {}
        assert(self.rels().len() == ws.len());
        lemma_words_match(ws, self.rels(), 0);
        assert(ws.skip(0) =~= ws);
        assert(self.rels().skip(0) =~= self.rels());
        assert forall|p: Seq<Seq<char>>| self.completes(e, 0, p) <==> is_solution(ws, self.lines_view(), p) by {
            lemma_matches_shape(ws, self.rels(), p);
        }
    }

    proof fn lemma_frame_push(self, fo: Frame, f: Frame, k: int, s: Seq<char>, upto: int, node: WordTree)
        requires
            self.frame_ok(fo, k, s, upto),
            upto < fo.opts@.len(),
            f.opts == fo.opts,
            f.len == fo.len,
            upto + 1 <= f.next <= f.opts@.len(),
            f.res@ == fo.res@.push(node),
            forall|p: Seq<Seq<char>>| tree_has(node, p) <==> self.from_line(s, k, fo.opts@[upto], p),
            node.word@ == self.lines@[fo.opts@[upto] as int]@,
            self.lines_view().no_duplicates() ==> tree_phrases(node).no_duplicates(),
        ensures
            self.frame_ok(f, k, s, upto + 1),
    {
        reveal(FcmData::frame_distinct);
        assert forall|m: int| 0 <= m < f.res@.len() implies self.from_opts(#[trigger] f.res@[m], f.opts@, upto + 1) by {
            if m < fo.res@.len() {
                assert(f.res@[m] == fo.res@[m]);
                assert(self.from_opts(fo.res@[m], fo.opts@, upto));
            } else {
                assert(f.res@[m] == node);
                assert(node.word@ == self.lines@[f.opts@[upto] as int]@);
            }
        }
        if self.lines_view().no_duplicates() {
            lemma_forest_push(fo.res@, node);
            lemma_forest_phrases_start(fo.res@);
            lemma_tree_phrases_start(node);
            let a = forest_phrases(fo.res@);
            let b = tree_phrases(node);
            assert forall|x: int, y: int| 0 <= x < a.len() && 0 <= y < b.len() implies a[x] != b[y] by {
                let m = choose|m: int| 0 <= m < fo.res@.len() && (#[trigger] a[x]).len() >= 1 && a[x][0] == fo.res@[m].word@;
                assert(self.from_opts(fo.res@[m], fo.opts@, upto));
                let t = choose|t: int| 0 <= t < upto && fo.res@[m].word@ == self.lines@[fo.opts@[t] as int]@;
                assert(fo.opts@[t] != fo.opts@[upto]);
                assert(self.lines_view()[fo.opts@[t] as int] != self.lines_view()[fo.opts@[upto] as int]);
                assert(b[y][0] == node.word@);
            }
            lemma_no_dup_concat(a, b);
        }
        assert(self.frame_distinct(f.res@, f.opts@, upto + 1));
        assert forall|p: Seq<Seq<char>>| #[trigger] forest_has(f.res@, p) <==> exists|t: int|
            0 <= t < upto + 1 && #[trigger] self.from_line(s, k, f.opts@[t], p) by {
            if forest_has(f.res@, p) {
                let m = choose|m: int| 0 <= m < f.res@.len() && #[trigger] tree_has(f.res@[m], p);
                if m < fo.res@.len() {
                    assert(f.res@[m] == fo.res@[m]);
                    assert(forest_has(fo.res@, p));
                } else {
                    assert(f.res@[m] == node);
                }
            }
            if exists|t: int| 0 <= t < upto + 1 && #[trigger] self.from_line(s, k, f.opts@[t], p) {
                let t = choose|t: int| 0 <= t < upto + 1 && #[trigger] self.from_line(s, k, f.opts@[t], p);
                if t < upto {
                    assert(forest_has(fo.res@, p));
                    let m = choose|m: int| 0 <= m < fo.res@.len() && #[trigger] tree_has(fo.res@[m], p);
                    assert(f.res@[m] == fo.res@[m]);
                } else {
                    assert(f.res@[f.res@.len() - 1] == node);
                    assert(tree_has(f.res@[f.res@.len() - 1], p));
                }
            }
        }
    }

    proof fn lemma_frame_skip(self, fo: Frame, f: Frame, k: int, s: Seq<char>, upto: int)
        requires
            self.frame_ok(fo, k, s, upto),
            upto < fo.opts@.len(),
            f.opts == fo.opts,
            f.len == fo.len,
            f.res == fo.res,
            upto + 1 <= f.next <= f.opts@.len(),
            forall|p: Seq<Seq<char>>| !self.from_line(s, k, fo.opts@[upto], p),
        ensures
            self.frame_ok(f, k, s, upto + 1),
    {
        assert(f.res@ == fo.res@);
        self.lemma_distinct_more(fo.res@, fo.opts@, upto, upto + 1);
        assert forall|p: Seq<Seq<char>>| #[trigger] forest_has(f.res@, p) <==> exists|t: int|
            0 <= t < upto + 1 && #[trigger] self.from_line(s, k, f.opts@[t], p) by {
            if exists|t: int| 0 <= t < upto + 1 && #[trigger] self.from_line(s, k, f.opts@[t], p) {
                let t = choose|t: int| 0 <= t < upto + 1 && #[trigger] self.from_line(s, k, f.opts@[t], p);
                assert(t < upto);
            }
        }
    }

    proof fn lemma_frame_hold(self, fo: Frame, f: Frame, k: int, s: Seq<char>, upto: int)
        requires
            self.frame_ok(fo, k, s, upto),
            f.opts == fo.opts,
            f.len == fo.len,
            f.res == fo.res,
            upto <= f.next <= f.opts@.len(),
        ensures
            self.frame_ok(f, k, s, upto),
    {
        assert(f.res@ == fo.res@);
    }

    proof fn lemma_stack_descend(self, st0: Seq<Frame>, s_top: Seq<char>, fx: Frame, cf: Frame, syms: Seq<char>)
        requires
            self.wf(),
            self.stack_ok(st0, s_top),
            st0[0].len == 0,
            st0.len() < self.words@.len(),
            fx.len == st0.last().len,
            fx.opts == st0.last().opts,
            fx.next > st0.last().next,
            fx.next >= 1,
            self.frame_ok(fx, st0.len() - 1, s_top, fx.next - 1),
            labels(s_top, self.lines@[fx.opts@[fx.next - 1] as int]@) == self.rels()[st0.len() - 1],
            syms == syms_after(s_top, self.lines@[fx.opts@[fx.next - 1] as int]@),
            self.frame_ok(cf, st0.len() as int, syms, 0),
            cf.next == 0,
        ensures
            self.stack_ok(st0.drop_last().push(fx).push(cf), syms),
            st0.drop_last().push(fx).push(cf)[0].len == 0,
            self.measure(st0.drop_last().push(fx).push(cf)) < self.measure(st0),
    {
        let d = st0.len() - 1;
        let n = self.words@.len();
        let st1 = st0.drop_last().push(fx).push(cf);
        let cl = self.lines@[fx.opts@[fx.next - 1] as int]@;
        let f0 = st0[d];
        lemma_syms_after(s_top, cl);
        assert(syms.take(s_top.len() as int) =~= s_top);
        assert forall|l: int| 0 <= l <= s_top.len() implies #[trigger] syms.take(l) == s_top.take(l) by {
            assert(syms.take(l) =~= s_top.take(l));
        }
        assert(syms.take(syms.len() as int) =~= syms);
        assert forall|x: int| 0 <= x < st1.len() implies #[trigger] st1[x].len <= syms.len() by {
            if x < d {
                assert(st1[x] == st0[x]);
                assert(st0[x].len <= st0[d].len);
            }
        }
        assert forall|d1: int, d2: int| 0 <= d1 <= d2 < st1.len() implies #[trigger] st1[d1].len <= #[trigger] st1[d2].len by {
            if d2 <= d {
                if d1 < d {
                    assert(st1[d1] == st0[d1]);
                }
                if d2 < d {
                    assert(st1[d2] == st0[d2]);
                }
                assert(st0[d1].len <= st0[d2].len);
                assert(st0[d1].len <= st0[d].len);
            } else if d1 < d {
                assert(st1[d1] == st0[d1]);
                assert(st0[d1].len <= st0[d].len);
            }
        }
        assert forall|x: int| 0 <= x < st1.len() - 1 implies {
            let f = #[trigger] st1[x];
            let sd = syms.take(f.len as int);
            let c = self.lines@[f.opts@[f.next - 1] as int]@;
            &&& f.next >= 1
            &&& self.frame_ok(f, x, sd, f.next - 1)
            &&& labels(sd, c) == self.rels()[x]
            &&& syms.take(st1[x + 1].len as int) == syms_after(sd, c)
        } by {
            if x < d {
                assert(st1[x] == st0[x]);
                assert(st0[x].len <= st0[d].len);
                if x + 1 < d {
                    assert(st1[x + 1] == st0[x + 1]);
                    assert(st0[x + 1].len <= st0[d].len);
                } else {
                    assert(st1[x + 1] == fx);
                }
                assert(syms.take(st0[x].len as int) == s_top.take(st0[x].len as int));
                assert(syms.take(st1[x + 1].len as int) == s_top.take(st0[x + 1].len as int));
            } else {
                assert(st1[x] == fx);
                assert(st1[x + 1] == cf);
            }
        }
        assert(st1[st1.len() - 1] == cf);
        // the measure
        let b = usize::MAX as nat + 1;
        let e0 = (n - st1.len()) as nat;
        lemma_weight(e0);
        assert(st1.drop_last() =~= st0.drop_last().push(fx));
        assert(st1.drop_last().drop_last() =~= st0.drop_last());
        let w1 = weight((n - st0.len()) as nat);
        let w0 = weight(e0);
        assert((n - st0.len()) as nat == e0 + 1);
        let rf = (f0.opts@.len() - f0.next) as nat;
        let rx = (fx.opts@.len() - fx.next) as nat;
        let rc = (cf.opts@.len() - cf.next) as nat;
        assert(self.measure(st1) == self.measure(st1.drop_last()) + rc * w0);
        assert(self.measure(st1.drop_last()) == self.measure(st0.drop_last()) + rx * w1);
        assert(self.measure(st0) == self.measure(st0.drop_last()) + rf * w1);
        assert(rx * w1 + rc * w0 < rf * w1) by (nonlinear_arith)
            requires
                w1 == b * w0,
                w0 >= 1,
                rc <= b - 1,
                rx + 1 <= rf,
        ;
    }

    proof fn lemma_stack_return(self, st0: Seq<Frame>, s_top: Seq<char>, syms: Seq<char>)
        requires
            self.wf(),
            self.stack_ok(st0, s_top),
            st0.len() >= 2,
            syms == s_top.take(st0[st0.len() - 2].len as int),
        ensures
            ({
                let d = st0.len() - 1;
                let pf = st0[d - 1];
                let cl = self.lines@[pf.opts@[pf.next - 1] as int]@;
                &&& pf.next >= 1
                &&& self.frame_ok(pf, d - 1, syms, pf.next - 1)
                &&& pf.next - 1 < pf.opts@.len()
                &&& labels(syms, cl) == self.rels()[d - 1]
                &&& s_top == syms_after(syms, cl)
            }),
    {
        let d = st0.len() - 1;
        assert(st0[d].len == s_top.len());
        assert(s_top.take(s_top.len() as int) =~= s_top);
    }

    #[verifier::rlimit(100)]
    proof fn lemma_stack_resume(self, st0: Seq<Frame>, s_top: Seq<char>, syms: Seq<char>, parent: Frame)
        requires
            self.wf(),
            self.stack_ok(st0, s_top),
            st0[0].len == 0,
            st0.len() >= 2,
            syms == s_top.take(st0[st0.len() - 2].len as int),
            parent.len == st0[st0.len() - 2].len,
            parent.next == st0[st0.len() - 2].next,
            parent.opts == st0[st0.len() - 2].opts,
            self.frame_ok(parent, st0.len() - 2, syms, parent.next as int),
        ensures
            self.stack_ok(st0.drop_last().drop_last().push(parent), syms),
            st0.drop_last().drop_last().push(parent)[0].len == 0,
            self.measure(st0.drop_last().drop_last().push(parent)) <= self.measure(st0),
    {
        let d = st0.len() - 1;
        let st1 = st0.drop_last().drop_last().push(parent);
        let pl = st0[d - 1].len;
        assert(pl <= st0[d].len);
        assert(syms.len() == pl);
        assert forall|l: int| 0 <= l <= pl implies #[trigger] syms.take(l) == s_top.take(l) by {
            assert(syms.take(l) =~= s_top.take(l));
        }
        assert forall|x: int| 0 <= x < st1.len() implies #[trigger] st1[x].len <= syms.len() by {
            if x < d - 1 {
                assert(st1[x] == st0[x]);
                assert(st0[x].len <= st0[d - 1].len);
            }
        }
        assert forall|d1: int, d2: int| 0 <= d1 <= d2 < st1.len() implies #[trigger] st1[d1].len <= #[trigger] st1[d2].len by {
            if d1 < d - 1 {
                assert(st1[d1] == st0[d1]);
            }
            if d2 < d - 1 {
                assert(st1[d2] == st0[d2]);
            }
            assert(st0[d1].len <= st0[d2].len);
        }
        assert forall|x: int| 0 <= x < st1.len() - 1 implies {
            let f = #[trigger] st1[x];
            let sd = syms.take(f.len as int);
            let c = self.lines@[f.opts@[f.next - 1] as int]@;
            &&& f.next >= 1
            &&& self.frame_ok(f, x, sd, f.next - 1)
            &&& labels(sd, c) == self.rels()[x]
            &&& syms.take(st1[x + 1].len as int) == syms_after(sd, c)
        } by {
            assert(st1[x] == st0[x]);
            assert(st0[x].len <= st0[d - 1].len);
            assert(st0[x + 1].len <= st0[d - 1].len);
            if x + 1 < d - 1 {
                assert(st1[x + 1] == st0[x + 1]);
            } else {
                assert(st1[x + 1] == parent);
            }
            assert(syms.take(st0[x].len as int) == s_top.take(st0[x].len as int));
            assert(syms.take(st1[x + 1].len as int) == s_top.take(st0[x + 1].len as int));
        }
        assert(st1[st1.len() - 1] == parent);
        assert(st1.drop_last() =~= st0.drop_last().drop_last());
        assert(st0.drop_last().last() == st0[d - 1]);
        assert(st0.drop_last().drop_last().len() == st1.len() - 1);
        assert(self.measure(st1) == self.measure(st0.drop_last().drop_last()) + ((parent.opts@.len() - parent.next) as nat)
            * weight((self.words@.len() - st1.len()) as nat));
        assert(self.measure(st0.drop_last()) == self.measure(st0.drop_last().drop_last()) + ((parent.opts@.len()
            - parent.next) as nat) * weight((self.words@.len() - st1.len()) as nat));
    }

    /// Tries the candidates of frame `f`, for word `d`, from its next one
    /// on: each that fits as the last word becomes a tree; the first that
    /// fits and opens a frame for the next word stops the walk and is
    /// returned.
    fn advance(&self, d: usize, f: &mut Frame, syms: &mut Vec<char>) -> (child: Option<Frame>)
        requires
            self.wf(),
            d < self.words@.len(),
            self.frame_ok(*old(f), d as int, old(syms)@, old(f).next as int),
            old(syms)@.len() == old(f).len,
        ensures
            final(f).len == old(f).len,
            final(f).opts == old(f).opts,
            final(f).next >= old(f).next,
            child is Some ==> final(f).next > old(f).next,
            child is None ==> final(syms)@ == old(syms)@ && self.frame_ok(*final(f), d as int, old(syms)@, final(f).next as int)
                && final(f).next == final(f).opts@.len(),
            child matches Some(c) ==> {
                let cl = self.lines@[final(f).opts@[final(f).next - 1] as int]@;
                &&& final(f).next >= 1
                &&& self.frame_ok(*final(f), d as int, old(syms)@, final(f).next - 1)
                &&& labels(old(syms)@, cl) == self.rels()[d as int]
                &&& final(syms)@ == syms_after(old(syms)@, cl)
                &&& self.frame_ok(c, d + 1, final(syms)@, 0)
                &&& c.next == 0
            },
    {
        let n = self.words.len();
        let ghost s_top = syms@;
        let ghost f0 = *f;
        let mut child: Option<Frame> = None;
        while f.next < f.opts.len() && child.is_none()
            invariant
                self.wf(),
                n == self.words@.len(),
                d < n,
                s_top.len() == f0.len,
                f.len == f0.len,
                f.opts == f0.opts,
                f.next >= f0.next,
                child is Some ==> f.next > f0.next,
                child is None ==> syms@ == s_top && self.frame_ok(*f, d as int, s_top, f.next as int),
                child matches Some(c) ==> {
                    let cl = self.lines@[f.opts@[f.next - 1] as int]@;
                    &&& f.next >= 1
                    &&& self.frame_ok(*f, d as int, s_top, f.next - 1)
                    &&& labels(s_top, cl) == self.rels()[d as int]
                    &&& syms@ == syms_after(s_top, cl)
                    &&& self.frame_ok(c, d + 1, syms@, 0)
                    &&& c.next == 0
                },
            decreases f.opts@.len() - f.next,
        {
            let o = f.opts[f.next];
            let ghost upto = f.next as int;
            let ghost fo = *f;
            f.next = f.next + 1;
            let cand = &self.line_chars[o];
            let rel = relative_representation(cand, syms);
            let ghost c = cand@;
            proof {
                assert(c == self.lines@[o as int]@);
                lemma_syms_after(s_top, c);
            }
            let ghost res0 = f.res@;
            if same_labels(&rel, &self.words[d].rel) {
                proof {
                    assert(self.rels()[d as int] == ints(self.words@[d as int].rel@));
                    assert(labels(s_top, c) == self.rels()[d as int]);
                }
                if d + 1 == n {
                    let node = WordTree { word: self.lines[o].clone(), next: Vec::new() };
                    proof {
                        self.lemma_node(s_top, d as int, o, node);
                    }
                    f.res.push(node);
                    syms.truncate(f.len);
                    proof {
                        assert(syms@ =~= s_top);
                        self.lemma_frame_push(fo, *f, d as int, s_top, upto, node);
                    }
                } else {
                    proof {
                        let ws = self.words_view();
                        lemma_syms_upto(ws, d as int);
                        assert(self.rels()[d as int] == labels(syms_upto(ws, d as int), ws[d as int]));
                        lemma_labels_len(s_top, c, syms_upto(ws, d as int), ws[d as int]);
                    }
                    match self.open_frame(d + 1, syms) {
                        Some(cf) => {
                            child = Some(cf);
                            proof {
                                self.lemma_frame_hold(fo, *f, d as int, s_top, upto);
                            }
                        },
                        None => {
                            syms.truncate(f.len);
                            proof {
                                assert(syms@ =~= s_top);
                                assert forall|p: Seq<Seq<char>>| !self.from_line(s_top, d as int, o, p) by {
                                    self.lemma_completes_step(s_top, d as int, p);
                                }
                                self.lemma_frame_skip(fo, *f, d as int, s_top, upto);
                            }
                        },
                    }
                }
            } else {
                syms.truncate(f.len);
                proof {
                    assert(syms@ =~= s_top);
                    self.lemma_no_match(s_top, d as int, o, rel@);
                    self.lemma_frame_skip(fo, *f, d as int, s_top, upto);
                }
            }
        }
        child
    }

    proof fn lemma_no_match(self, s: Seq<char>, k: int, o: usize, rel: Seq<usize>)
        requires
            self.wf(),
            0 <= k < self.words@.len(),
            o < self.lines@.len(),
            ints(rel) == labels(s, self.lines@[o as int]@),
            rel != self.words@[k].rel@,
        ensures
            forall|p: Seq<Seq<char>>| !#[trigger] self.from_line(s, k, o, p),
    {
        let wr = self.words@[k].rel@;
        assert(ints(rel) != ints(wr)) by {
            if ints(rel) == ints(wr) {
                assert(rel.len() == ints(rel).len());
                assert(wr.len() == ints(wr).len());
                assert forall|m: int| 0 <= m < rel.len() implies rel[m] == wr[m] by {
                    assert(ints(rel)[m] == ints(wr)[m]);
                }
                assert(rel =~= wr);
            }
        }
        assert(self.rels()[k] == ints(wr));
        assert forall|p: Seq<Seq<char>>| !#[trigger] self.from_line(s, k, o, p) by {
            self.lemma_completes_step(s, k, p);
        }
    }

    /// The node that a candidate line and its continuations make holds the
    /// completions through that line.
    proof fn lemma_node(self, s: Seq<char>, k: int, o: usize, node: WordTree)
        requires
            self.wf(),
            0 <= k < self.words@.len(),
            o < self.lines@.len(),
            node.word@ == self.lines@[o as int]@,
            labels(s, self.lines@[o as int]@) == self.rels()[k],
            node.next@.len() == 0 ==> k + 1 == self.words@.len(),
            node.next@.len() > 0 ==> forall|p: Seq<Seq<char>>|
                forest_has(node.next@, p) <==> self.completes(syms_after(s, node.word@), k + 1, p),
            self.lines_view().no_duplicates() && node.next@.len() > 0 ==> forest_phrases(node.next@).no_duplicates(),
        ensures
            forall|p: Seq<Seq<char>>| tree_has(node, p) <==> self.from_line(s, k, o, p),
            self.lines_view().no_duplicates() ==> tree_phrases(node).no_duplicates(),
    {
        if self.lines_view().no_duplicates() && node.next@.len() > 0 {
            lemma_prepend_no_dup(node.word@, forest_phrases(node.next@));
        }
        assert forall|p: Seq<Seq<char>>| tree_has(node, p) <==> self.from_line(s, k, o, p) by {
            self.lemma_completes_step(s, k, p);
            lemma_tree_has(node, p);
            if p.len() >= 1 {
                assert(self.lines_view()[o as int] == self.lines@[o as int]@);
                assert(self.lines_view().contains(self.lines@[o as int]@));
                if node.next@.len() == 0 {
                    assert(self.rels().skip(k + 1) =~= Seq::<Seq<int>>::empty());
                }
            }
        }
    }

    /// Every phrase that one one-to-one substitution makes out of the input
    /// words, in solving order, with every word a dictionary line: a tree
    /// per accepted first word.
    #[verifier::rlimit(100)]
    pub fn find_char_map(&self) -> (r: Vec<WordTree>)
        requires
            self.wf(),
        ensures
            self.words_view().len() == 0 ==> r@.len() == 0,
            self.words_view().len() > 0 ==> forall|p: Seq<Seq<char>>|
                forest_has(r@, p) <==> is_solution(self.words_view(), self.lines_view(), p),
            self.words_view().len() > 0 ==> forall|p: Seq<Seq<char>>|
                #[trigger] forest_phrases(r@).contains(p) <==> is_solution(self.words_view(), self.lines_view(), p),
            self.lines_view().no_duplicates() ==> forest_phrases(r@).no_duplicates(),
    {
        if self.words.len() == 0 {
            return Vec::new();
        }
        let n = self.words.len();
        let mut syms: Vec<char> = Vec::new();
        let ghost e = syms@;
        proof {
            assert(e =~= Seq::<char>::empty());
            assert(e.no_duplicates());
        }
        let first = match self.open_frame(0, &syms) {
            Some(f) => f,
            None => {
                let r: Vec<WordTree> = Vec::new();
                proof {
                    assert(forest_phrases(r@) =~= Seq::<Seq<Seq<char>>>::empty());
                    assert forall|p: Seq<Seq<char>>| #[trigger] forest_phrases(r@).contains(p) <==> forest_has(r@, p) by {
                        lemma_forest_phrases_has(r@, p);
                    }
                    self.lemma_solutions(e);
                    assert forall|p: Seq<Seq<char>>|
                        forest_has(r@, p) <==> is_solution(self.words_view(), self.lines_view(), p) by {
                        assert(!self.completes(e, 0, p));
                    }
                }
                return r;
            },
        };
        let mut stack: Vec<Frame> = Vec::new();
        stack.push(first);
        let mut result: Option<Vec<WordTree>> = None;
        proof {
            assert(syms@.take(0) =~= syms@);
        }
        loop
            invariant_except_break
                self.wf(),
                n == self.words@.len(),
                self.stack_ok(stack@, syms@),
                stack@[0].len == 0,
                e == Seq::<char>::empty(),
            ensures
                result is None ==> forall|p: Seq<Seq<char>>| !self.completes(e, 0, p),
                result matches Some(f) ==> forall|p: Seq<Seq<char>>|
                    forest_has(f@, p) <==> self.completes(e, 0, p),
                result matches Some(f) ==> (self.lines_view().no_duplicates() ==> forest_phrases(f@).no_duplicates()),
            decreases self.measure(stack@), stack@.len(),
        {
            let ghost st0 = stack@;
            let ghost s_top = syms@;
            let ghost m0 = self.measure(stack@);
            let mut f = match stack.pop() {
                Some(f) => f,
                None => {
                    proof {
                        assert(false);
                    }
                    break;
                },
            };
            let d = stack.len();
            let ghost below = stack@;
            let ghost f0 = f;
            proof {
                assert(below =~= st0.drop_last());
                assert(f == st0[d as int]);
                assert(self.frame_ok(f, d as int, s_top, f.next as int));
            }
            let child = self.advance(d, &mut f, &mut syms);
            match child {
                Some(cf) => {
                    let ghost fx = f;
                    stack.push(f);
                    stack.push(cf);
                    proof {
                        self.lemma_stack_descend(st0, s_top, fx, cf, syms@);
                        assert(stack@ =~= st0.drop_last().push(fx).push(cf));
                    }
                },
                None => {
                    let ghost fres = f.res@;
                    proof {
                        self.lemma_frame_result(f, d as int, s_top, f.next as int);
                    }
                    let r = if f.res.len() == 0 {
                        None
                    } else {
                        Some(f.res)
                    };
                    proof {
                        assert forall|p: Seq<Seq<char>>| #[trigger] self.completes(s_top, d as int, p) <==> forest_has(fres, p) by {
                            if self.completes(s_top, d as int, p) {
                                let t = choose|t: int| 0 <= t < f.opts@.len() && self.from_line(s_top, d as int, f.opts@[t], p);
                            }
                        }
                    }
                    match stack.pop() {
                        None => {
                            proof {
                                assert(d == 0);
                                assert(st0.len() == 1);
                                assert(st0[0].len == 0);
                                assert(s_top.len() == 0);
                                assert(s_top =~= e);
                            }
                            result = r;
                            break;
                        },
                        Some(parent) => {
                            let mut parent = parent;
                            let ghost pf = parent;
                            syms.truncate(parent.len);
                            proof {
                                assert(parent == st0[d - 1]);
                                assert(syms@ =~= s_top.take(parent.len as int));
                                self.lemma_stack_return(st0, s_top, syms@);
                            }
                            match r {
                                Some(next) => {
                                    let o = parent.opts[parent.next - 1];
                                    let node = WordTree { word: self.lines[o].clone(), next };
                                    proof {
                                        self.lemma_node(syms@, d - 1, o, node);
                                    }
                                    parent.res.push(node);
                                    proof {
                                        self.lemma_frame_push(pf, parent, d - 1, syms@, pf.next - 1, node);
                                    }
                                },
                                None => {
                                    proof {
                                        assert forall|p: Seq<Seq<char>>| !#[trigger] self.from_line(syms@, d - 1, parent.opts@[parent.next - 1], p) by {
                                            self.lemma_completes_step(syms@, d - 1, p);
                                        }
                                        self.lemma_frame_skip(pf, parent, d - 1, syms@, pf.next - 1);
                                    }
                                },
                            }
                            stack.push(parent);
                            proof {
                                self.lemma_stack_resume(st0, s_top, syms@, parent);
                                assert(stack@ =~= st0.drop_last().drop_last().push(parent));
                            }
                        },
                    }
                },
            }
        }
        let r = match result {
            Some(f) => f,
            None => Vec::new(),
        };
        proof {
            assert forall|p: Seq<Seq<char>>| #[trigger] forest_phrases(r@).contains(p) <==> forest_has(r@, p) by {
                lemma_forest_phrases_has(r@, p);
            }
            self.lemma_solutions(e);
            assert forall|p: Seq<Seq<char>>|
                forest_has(r@, p) <==> is_solution(self.words_view(), self.lines_view(), p) by {
                if result is None {
                    assert(!self.completes(e, 0, p));
                }
            }
        }
        r
    }
}

/// The characters with the Unicode White_Space property.
pub open spec fn white_space(c: char) -> bool {
    ||| ('\u{9}' <= c && c <= '\u{d}')
    ||| c == '\u{20}'
    ||| c == '\u{85}'
    ||| c == '\u{a0}'
    ||| c == '\u{1680}'
    ||| ('\u{2000}' <= c && c <= '\u{200a}')
    ||| c == '\u{2028}'
    ||| c == '\u{2029}'
    ||| c == '\u{202f}'
    ||| c == '\u{205f}'
    ||| c == '\u{3000}'
}

/// `s` without its leading white space.
pub open spec fn trim_start(s: Seq<char>) -> Seq<char>
    decreases s.len(),
{
    if s.len() > 0 && white_space(s[0]) {
        trim_start(s.drop_first())
    } else {
        s
    }
}

/// `s` without its trailing white space.
pub open spec fn trim_end(s: Seq<char>) -> Seq<char>
    decreases s.len(),
{
    if s.len() > 0 && white_space(s.last()) {
        trim_end(s.drop_last())
    } else {
        s
    }
}

/// `s` without its leading and trailing white space.
pub open spec fn trimmed(s: Seq<char>) -> Seq<char> {
    trim_end(trim_start(s))
}

/// The contents of a list of strings.
pub open spec fn views(v: Seq<String>) -> Seq<Seq<char>> {
    v.map_values(|w: String| w@)
}

/// The distinct elements of `s`, each where it first occurs.
pub open spec fn distinct_in_order<A>(s: Seq<A>) -> Seq<A> {
    syms_after(Seq::empty(), s)
}

/// Relies on `str::trim`: the line without its leading and trailing
/// characters of the Unicode White_Space property.
#[verifier::external_body]
fn trim_line(s: &String) -> (r: String)
    ensures
        r@ == trimmed(s@),
{
    s.trim().to_string()
}

/// Relies on `Itertools::unique`: keeps the first of equal words, in the
/// order given.
#[verifier::external_body]
fn unique_words(words: &Vec<String>) -> (r: Vec<String>)
    ensures
        views(r@) == distinct_in_order(views(words@)),
{
    words.iter().unique().cloned().collect()
}

/// Relies on `Itertools::unique`: keeps the first of equal letters, in the
/// order given.
#[verifier::external_body]
fn unique_chars(s: &Vec<char>) -> (r: Vec<char>)
    ensures
        r@ == distinct_in_order(s@),
{
    s.iter().copied().unique().collect()
}

/// Relies on `slice::sort_unstable`: the same letters, ascending.
#[verifier::external_body]
fn sort_chars(v: &mut Vec<char>)
    ensures
        final(v)@.to_multiset() == old(v)@.to_multiset(),
        forall|i: int, j: int|
            0 <= i < j < final(v)@.len() ==> final(v)@[i] <= final(v)@[j],
{
    v.sort_unstable();
}

/// The distinct letters of `w`, ascending, each once.
fn letter_key(w: &Vec<char>) -> (r: Vec<char>)
    ensures
        same_letters(r@, w@),
        forall|i: int, j: int| 0 <= i < j < r@.len() ==> r@[i] < r@[j],
{
    let mut r = unique_chars(w);
    proof {
        lemma_syms_after(Seq::<char>::empty(), w@);
    }
    let ghost u = r@;
    sort_chars(&mut r);
    proof {
        broadcast use vstd::seq_lib::group_to_multiset_ensures;
        assert forall|c: char| r@.contains(c) <==> w@.contains(c) by {
            assert(r@.contains(c) <==> r@.to_multiset().count(c) > 0);
            assert(u.contains(c) <==> u.to_multiset().count(c) > 0);
            assert(!Seq::<char>::empty().contains(c));
        }
        assert forall|i: int, j: int| 0 <= i < j < r@.len() implies r@[i] < r@[j] by {
            if r@[i] == r@[j] {
                lemma_count_distinct(u, r@[i]);
                lemma_count_two(r@, i, j);
            }
        }
    }
    r
}

proof fn lemma_count_distinct<A>(s: Seq<A>, x: A)
    requires
        s.no_duplicates(),
    ensures
        s.to_multiset().count(x) <= 1,
    decreases s.len(),
{
    broadcast use vstd::seq_lib::group_to_multiset_ensures;
    if s.len() > 0 {
        let s0 = s.drop_last();
        lemma_count_distinct(s0, x);
        assert(s0.push(s.last()) =~= s);
        if x == s.last() {
            assert(!s0.contains(x)) by {
                if s0.contains(x) {
                    let i = choose|i: int| 0 <= i < s0.len() && s0[i] == x;
                    assert(s[i] == s[s.len() - 1]);
                }
            }
        }
    }
}

proof fn lemma_count_two<A>(s: Seq<A>, i: int, j: int)
    requires
        0 <= i < j < s.len(),
        s[i] == s[j],
    ensures
        s.to_multiset().count(s[i]) >= 2,
{
    broadcast use vstd::seq_lib::group_to_multiset_ensures;
    let x = s[i];
    let s1 = s.remove(j);
    assert(s1 =~= s.subrange(0, j) + s.subrange(j + 1, s.len() as int));
    assert(s1.len() == s.len() - 1);
    assert(s1[i] == x);
    assert(s1.contains(x));
    assert(s1.to_multiset().count(x) > 0);
    assert(s1.to_multiset() =~= s.to_multiset().remove(s[j]));
}

/// Indexes the lines `lines` that have pattern `word_pat` by their letters
/// at the positions `back_dep`.
fn build_bucket(
    word_pat: &Vec<usize>,
    back_dep: &Vec<usize>,
    line_chars: &Vec<Vec<char>>,
    line_pats: &Vec<Vec<usize>>,
) -> (b: Bucket)
    requires
        line_pats@.len() == line_chars@.len(),
        line_chars@.len() < usize::MAX,
        forall|j: int| 0 <= j < line_chars@.len() ==> ints(#[trigger] line_pats@[j]@) == pattern(line_chars@[j]@),
        forall|t: int| 0 <= t < back_dep@.len() ==> #[trigger] back_dep@[t] < word_pat@.len(),
    ensures
        bucket_valid(
            b@,
            line_chars@.map_values(|l: Vec<char>| l@),
            back_dep@,
            ints(word_pat@),
            line_chars@.len() as int,
        ),
{
    let ghost ls = line_chars@.map_values(|l: Vec<char>| l@);
    let ghost tp = ints(word_pat@);
    let mut b: Bucket = Vec::new();
    let mut j: usize = 0;
    while j < line_chars.len()
        invariant
            j <= line_chars@.len(),
            line_pats@.len() == line_chars@.len(),
            line_chars@.len() < usize::MAX,
            ls == line_chars@.map_values(|l: Vec<char>| l@),
            tp == ints(word_pat@),
            forall|j: int| 0 <= j < line_chars@.len() ==> ints(#[trigger] line_pats@[j]@) == pattern(line_chars@[j]@),
            forall|t: int| 0 <= t < back_dep@.len() ==> #[trigger] back_dep@[t] < word_pat@.len(),
            bucket_valid(b@, ls, back_dep@, tp, j as int),
        decreases line_chars@.len() - j,
    {
        let ghost b0 = b@;
        let lc = &line_chars[j];
        proof {
            assert(ls[j as int] == lc@);
            assert(ints(line_pats@[j as int]@) == pattern(lc@));
        }
        if same_labels(&line_pats[j], word_pat) {
            proof {
                lemma_labels(Seq::<char>::empty(), lc@);
                assert(pattern(lc@).len() == lc@.len());
                assert(ints(word_pat@).len() == word_pat@.len());
            }
            let sig = fixed_hash(back_dep, lc);
            let key = letter_key(lc);
            let ghost d_g: int;
            let ghost old_es: Seq<(Seq<char>, usize)>;
            match find_sig(&b, &sig) {
                Some(d) => {
                    let (sig0, mut tr) = b.remove(d);
                    proof {
                        old_es = tr.entries();
                    }
                    tr.add(&key, j);
                    b.insert(d, (sig0, tr));
                    proof {
                        d_g = d as int;
                    }
                },
                None => {
                    let mut tr = Notree::new();
                    proof {
                        old_es = tr.entries();
                    }
                    tr.add(&key, j);
                    proof {
                        d_g = b@.len() as int;
                    }
                    b.push((sig, tr));
                },
            }
            proof {
                assert(d_g < b0.len() ==> old_es == b0[d_g].1.entries());
                assert(d_g == b0.len() ==> old_es == Seq::<(Seq<char>, usize)>::empty());
                let pos = choose|pos: int|
                    0 <= pos <= old_es.len() && b@[d_g].1.entries() == #[trigger] old_es.insert(pos, (key@, j));
                assert(values_distinct(old_es));
                assert forall|i: int| 0 <= i < old_es.len() implies #[trigger] old_es[i].1 != j by {
                    if d_g < b0.len() {
                        assert(b0[d_g].1.entries().contains(old_es[i]));
                        let (kk, vv) = old_es[i];
                        assert(b0[d_g].1.entries().contains((kk, vv)));
                    }
                }
                lemma_insert_distinct(old_es, pos, (key@, j));
                assert forall|e: int| 0 <= e < b@.len() implies values_distinct(#[trigger] b@[e].1.entries()) by {
                    if e != d_g {
                        assert(b@[e] == b0[e]);
                    }
                }
                assert forall|e: int| 0 <= e < b@.len() implies (#[trigger] b@[e]).1.sorted() by {
                    if e != d_g {
                        assert(b@[e] == b0[e]);
                    }
                }
            }
            proof {
                assert(b@[d_g].0@ == sig@);
                assert(b@[d_g].1.entries().contains((key@, j)));
                assert(b@.len() == b0.len() || (b@.len() == b0.len() + 1 && d_g == b0.len()));
                assert(forall|e: int| 0 <= e < b0.len() && e != d_g ==> b@[e] == b0[e]);
                assert(d_g < b0.len() ==> b@[d_g].0 == b0[d_g].0 && forall|k: Seq<char>, v: usize|
                    #[trigger] b@[d_g].1.entries().contains((k, v)) <==> (b0[d_g].1.entries().contains((k, v))
                        || (k == key@ && v == j)));
                assert(d_g == b0.len() ==> forall|k: Seq<char>, v: usize|
                    #[trigger] b@[d_g].1.entries().contains((k, v)) <==> (k == key@ && v == j));
                assert(d_g == b0.len() ==> forall|e: int| 0 <= e < b0.len() ==> b0[e].0@ != sig@);
                assert forall|d: int, k: Seq<char>, v: usize|
                    0 <= d < b@.len() && #[trigger] b@[d].1.entries().contains((k, v)) implies {
                        &&& v < j + 1
                        &&& v < ls.len()
                        &&& same_letters(k, ls[v as int])
                        &&& forall|x: int, y: int| 0 <= x < y < k.len() ==> k[x] < k[y]
                        &&& b@[d].0@ == sig_of(ls[v as int], back_dep@)
                        &&& pattern(ls[v as int]) == tp
                    } by {
                    if d != d_g {
                        assert(b0[d].1.entries().contains((k, v)));
                    } else if !(k == key@ && v == j) {
                        assert(b0[d].1.entries().contains((k, v)));
                    }
                }
                assert forall|jj: int|
                    0 <= jj < j + 1 && jj < ls.len() && #[trigger] pattern(ls[jj]) == tp implies exists|d: int, k: Seq<char>|
                        0 <= d < b@.len() && b@[d].0@ == sig_of(ls[jj], back_dep@) && #[trigger] b@[d].1.entries().contains(
                            (k, jj as usize),
                        ) by {
                    if jj < j {
                        let (d, k) = choose|d: int, k: Seq<char>|
                            0 <= d < b0.len() && b0[d].0@ == sig_of(ls[jj], back_dep@) && #[trigger] b0[d].1.entries().contains(
                                (k, jj as usize),
                            );
                        assert(b@[d].1.entries().contains((k, jj as usize)));
                    } else {
                        assert(b@[d_g].1.entries().contains((key@, jj as usize)));
                    }
                }
            }
        } else {
            proof {
                assert(ints(line_pats@[j as int]@) != tp) by {
                    if ints(line_pats@[j as int]@) == tp {
                        assert forall|m: int| 0 <= m < word_pat@.len() implies line_pats@[j as int]@[m] == word_pat@[m] by {
                            assert(ints(line_pats@[j as int]@)[m] == tp[m]);
                        }
                        assert(line_pats@[j as int]@ =~= word_pat@);
                    }
                }
                assert forall|d: int, k: Seq<char>, v: usize|
                    0 <= d < b@.len() && #[trigger] b@[d].1.entries().contains((k, v)) implies v < j + 1 by {}
            }
        }
        j = j + 1;
    }
    b
}

/// Position `i` of `w` holds the first occurrence of its letter.
pub open spec fn first_at(w: Seq<char>, i: int) -> bool {
    forall|m: int| 0 <= m < i ==> w[m] != w[i]
}

/// Position `i` of word `a` holds the first occurrence of a letter that
/// another word holds too.
pub open spec fn shared_at(ws: Seq<Seq<char>>, a: int, i: int) -> bool {
    &&& first_at(ws[a], i)
    &&& exists|b: int| 0 <= b < ws.len() && b != a && #[trigger] ws[b].contains(ws[a][i])
}

/// How many of `0..n` satisfy `f`.
pub open spec fn count_where(n: int, f: spec_fn(int) -> bool) -> nat
    decreases n,
{
    if n <= 0 {
        0
    } else {
        count_where(n - 1, f) + if f(n - 1) {
            1nat
        } else {
            0nat
        }
    }
}

/// `a` comes before `b`, or equals it, comparing the first components first.
pub open spec fn lex_le(a: (usize, usize), b: (usize, usize)) -> bool {
    a.0 < b.0 || (a.0 == b.0 && a.1 <= b.1)
}

/// `a` comes before `b`, or equals it, comparing the first components first.
pub open spec fn key_le(a: (int, int), b: (int, int)) -> bool {
    a.0 < b.0 || (a.0 == b.0 && a.1 <= b.1)
}

/// How many distinct letters of word `a` another word holds too.
pub open spec fn shared_count(ws: Seq<Seq<char>>, a: int) -> nat {
    count_where(ws[a].len() as int, |i: int| shared_at(ws, a, i))
}

/// How many distinct letters word `a` holds that no other word holds.
pub open spec fn freedom(ws: Seq<Seq<char>>, a: int) -> int {
    let d = distinct_in_order(ws[a]).len();
    if d >= shared_count(ws, a) {
        d - shared_count(ws, a)
    } else {
        0
    }
}

/// How many lines of `ls` have the pattern of `w`.
pub open spec fn bucket_count(ls: Seq<Seq<char>>, w: Seq<char>) -> nat {
    count_where(ls.len() as int, |j: int| pattern(ls[j]) == pattern(w))
}

/// The key by which the first word is chosen: its shared letters, then its
/// length.
pub open spec fn first_key(ws: Seq<Seq<char>>, a: int) -> (int, int) {
    (shared_count(ws, a) as int, ws[a].len() as int)
}

/// The key by which the other words are ordered: their free letters, then
/// the size of their bucket.
pub open spec fn rest_key(ws: Seq<Seq<char>>, ls: Seq<Seq<char>>, a: int) -> (int, int) {
    (freedom(ws, a), bucket_count(ls, ws[a]) as int)
}

proof fn lemma_count_where_ext(n: int, f: spec_fn(int) -> bool, g: spec_fn(int) -> bool)
    requires
        forall|i: int| 0 <= i < n ==> #[trigger] f(i) == g(i),
    ensures
        count_where(n, f) == count_where(n, g),
    decreases n,
{
    if n > 0 {
        lemma_count_where_ext(n - 1, f, g);
    }
}

proof fn lemma_ints_injective(x: Seq<usize>, y: Seq<usize>)
    ensures
        ints(x) == ints(y) <==> x == y,
{
    if ints(x) == ints(y) {
        assert(x.len() == ints(x).len());
        assert(y.len() == ints(y).len());
        assert forall|m: int| 0 <= m < x.len() implies x[m] == y[m] by {
            assert(ints(x)[m] == ints(y)[m]);
        }
        assert(x =~= y);
    }
}

/// Whether a letter is shared with another word does not depend on the
/// order of the words.
proof fn lemma_shared_perm(tv: Seq<Seq<char>>, wv: Seq<Seq<char>>, order: Seq<usize>, k: int)
    requires
        wv.len() == tv.len() == order.len(),
        order.no_duplicates(),
        forall|i: int| 0 <= i < order.len() ==> #[trigger] order[i] < order.len(),
        forall|x: usize| x < order.len() ==> #[trigger] order.contains(x),
        forall|i: int| 0 <= i < wv.len() ==> #[trigger] wv[i] == tv[order[i] as int],
        order.len() <= usize::MAX,
        0 <= k < wv.len(),
    ensures
        shared_count(wv, k) == shared_count(tv, order[k] as int),
        freedom(wv, k) == freedom(tv, order[k] as int),
{
    let a = order[k] as int;
    assert(wv[k] == tv[a]);
    assert forall|i: int| 0 <= i < wv[k].len() implies shared_at(wv, k, i) == shared_at(tv, a, i) by {
        let c = wv[k][i];
        if exists|b: int| 0 <= b < tv.len() && b != a && #[trigger] tv[b].contains(c) {
            let b = choose|b: int| 0 <= b < tv.len() && b != a && #[trigger] tv[b].contains(c);
            assert(order.contains(b as usize));
            let b2 = choose|b2: int| 0 <= b2 < order.len() && order[b2] == b as usize;
            assert(wv[b2] == tv[b]);
            assert(b2 != k);
            assert(wv[b2].contains(c));
        }
        if exists|b: int| 0 <= b < wv.len() && b != k && #[trigger] wv[b].contains(c) {
            let b = choose|b: int| 0 <= b < wv.len() && b != k && #[trigger] wv[b].contains(c);
            assert(wv[b] == tv[order[b] as int]);
            assert(order[b] != order[k]);
            assert(tv[order[b] as int].contains(c));
        }
    }
    lemma_count_where_ext(wv[k].len() as int, |i: int| shared_at(wv, k, i), |i: int| shared_at(tv, a, i));
}

fn lex_lt(a: (usize, usize), b: (usize, usize)) -> (r: bool)
    ensures
        r == !lex_le(b, a),
{
    a.0 < b.0 || (a.0 == b.0 && a.1 < b.1)
}

/// For each position of word `a`: it holds the first occurrence of a letter
/// that another word holds too.
fn dependency_mask(ws: &Vec<Vec<char>>, a: usize) -> (r: Vec<bool>)
    requires
        a < ws@.len(),
    ensures
        r@.len() == ws@[a as int]@.len(),
        forall|i: int|
            0 <= i < r@.len() ==> #[trigger] r@[i] == shared_at(ws@.map_values(|w: Vec<char>| w@), a as int, i),
{
    let ghost vs = ws@.map_values(|w: Vec<char>| w@);
    let w = &ws[a];
    let mut r: Vec<bool> = Vec::new();
    let mut i: usize = 0;
    while i < w.len()
        invariant
            a < ws@.len(),
            w == ws@[a as int],
            vs == ws@.map_values(|w: Vec<char>| w@),
            i <= w@.len(),
            r@.len() == i,
            forall|m: int| 0 <= m < i ==> #[trigger] r@[m] == shared_at(vs, a as int, m),
        decreases w@.len() - i,
    {
        let c = w[i];
        let mut first = true;
        let mut m: usize = 0;
        while m < i
            invariant
                i < w@.len(),
                m <= i,
                c == w@[i as int],
                first == forall|q: int| 0 <= q < m ==> w@[q] != c,
            decreases i - m,
        {
            if w[m] == c {
                first = false;
            }
            m = m + 1;
        }
        let mut shared = false;
        if first {
            let mut b: usize = 0;
            while b < ws.len()
                invariant
                    a < ws@.len(),
                    vs == ws@.map_values(|w: Vec<char>| w@),
                    b <= ws@.len(),
                    c == vs[a as int][i as int],
                    shared == exists|q: int| 0 <= q < b && q != a && #[trigger] vs[q].contains(c),
                decreases ws@.len() - b,
            {
                if b != a {
                    let found = contains_letter(&ws[b], c);
                    if found {
                        proof {
                            assert(vs[b as int].contains(c));
                        }
                    }
                    shared = shared || found;
                }
                b = b + 1;
            }
        }
        proof {
            assert(vs[a as int] == w@);
        }
        r.push(first && shared);
        i = i + 1;
    }
    r
}

fn count_true(m: &Vec<bool>) -> (r: usize)
    ensures
        r == count_where(m@.len() as int, |i: int| m@[i]),
{
    let mut r: usize = 0;
    let mut i: usize = 0;
    while i < m.len()
        invariant
            i <= m@.len(),
            r == count_where(i as int, |i: int| m@[i]),
            r <= i,
        decreases m@.len() - i,
    {
        if m[i] {
            r = r + 1;
        }
        i = i + 1;
    }
    r
}

/// The order in which the words are solved: first the word with the most
/// letters shared with other words (the longer on a tie, the last of equal
/// ones), then the rest from the fewest free letters up (the smaller bucket
/// on a tie).
fn sort_words(first_key: &Vec<(usize, usize)>, rest_key: &Vec<(usize, usize)>) -> (order: Vec<usize>)
    requires
        first_key@.len() == rest_key@.len(),
    ensures
        order@.len() == first_key@.len(),
        order@.no_duplicates(),
        forall|i: int| 0 <= i < order@.len() ==> #[trigger] order@[i] < order@.len(),
        forall|x: usize| x < order@.len() ==> #[trigger] order@.contains(x),
        order@.len() > 0 ==> forall|x: int|
            0 <= x < order@.len() ==> lex_le(#[trigger] first_key@[x], first_key@[order@[0] as int]),
        order@.len() > 0 ==> forall|x: int|
            order@[0] < x < order@.len() ==> !lex_le(first_key@[order@[0] as int], #[trigger] first_key@[x]),
        forall|i: int, j: int|
            #![trigger order@[i], order@[j]]
            1 <= i < j < order@.len() ==> lex_le(rest_key@[order@[i] as int], rest_key@[order@[j] as int]),
{
    let n = first_key.len();
    let mut order: Vec<usize> = Vec::new();
    let mut i: usize = 0;
    while i < n
        invariant
            i <= n,
            order@.len() == i,
            forall|p: int| 0 <= p < i ==> #[trigger] order@[p] == p,
        decreases n - i,
    {
        order.push(i);
        i = i + 1;
    }
    if n == 0 {
        return order;
    }
    let mut m: usize = 0;
    let mut j: usize = 1;
    while j < n
        invariant
            n == first_key@.len(),
            m < n,
            1 <= j <= n,
            forall|x: int| 0 <= x < j ==> lex_le(first_key@[x], first_key@[m as int]),
            forall|x: int| m < x < j ==> !lex_le(first_key@[m as int], #[trigger] first_key@[x]),
        decreases n - j,
    {
        if !lex_lt(first_key[j], first_key[m]) {
            m = j;
        }
        j = j + 1;
    }
    order.set(m, 0);
    order.set(0, m);
    proof {
        assert forall|x: usize| x < n implies #[trigger] order@.contains(x) by {
            if x == m {
                assert(order@[0] == x);
            } else if x == 0 {
                assert(order@[m as int] == x);
            } else {
                assert(order@[x as int] == x);
            }
        }
    }
    let mut i: usize = 1;
    while i < n
        invariant
            n == first_key@.len() == rest_key@.len(),
            1 <= i <= n,
            order@.len() == n,
            order@[0] == m,
            forall|x: int| 0 <= x < n ==> lex_le(#[trigger] first_key@[x], first_key@[m as int]),
            order@.no_duplicates(),
            forall|p: int| 0 <= p < n ==> #[trigger] order@[p] < n,
            forall|x: usize| x < n ==> #[trigger] order@.contains(x),
            forall|p: int, q: int|
                #![trigger order@[p], order@[q]]
                1 <= p < q < i ==> lex_le(rest_key@[order@[p] as int], rest_key@[order@[q] as int]),
            forall|p: int, q: int|
                #![trigger order@[p], order@[q]]
                1 <= p < i <= q < n ==> lex_le(rest_key@[order@[p] as int], rest_key@[order@[q] as int]),
        decreases n - i,
    {
        let mut best: usize = i;
        let mut j: usize = i + 1;
        while j < n
            invariant
                n == rest_key@.len(),
                order@.len() == n,
                forall|p: int| 0 <= p < n ==> #[trigger] order@[p] < n,
                i <= best < n,
                i + 1 <= j <= n,
                forall|q: int| i <= q < j ==> lex_le(rest_key@[order@[best as int] as int], #[trigger] rest_key@[order@[q] as int]),
            decreases n - j,
        {
            if lex_lt(rest_key[order[j]], rest_key[order[best]]) {
                best = j;
            }
            j = j + 1;
        }
        let ghost o0 = order@;
        let x = order[i];
        let y = order[best];
        order.set(i, y);
        order.set(best, x);
        proof {
            assert(order@ == o0.update(i as int, y).update(best as int, x));
            assert forall|v: usize| v < n implies #[trigger] order@.contains(v) by {
                assert(o0.contains(v));
                let p = choose|p: int| 0 <= p < n && o0[p] == v;
                if p == i {
                    assert(order@[best as int] == v);
                } else if p == best {
                    assert(order@[i as int] == v);
                } else {
                    assert(order@[p] == v);
                }
            }
            assert forall|p: int, q: int|
                #![trigger order@[p], order@[q]]
                1 <= p < q < i + 1 implies lex_le(rest_key@[order@[p] as int], rest_key@[order@[q] as int]) by {
                if q == i {
                    assert(lex_le(rest_key@[o0[p] as int], rest_key@[o0[best as int] as int]));
                }
            }
            assert forall|p: int, q: int|
                #![trigger order@[p], order@[q]]
                1 <= p < i + 1 <= q < n implies lex_le(rest_key@[order@[p] as int], rest_key@[order@[q] as int]) by {
                if p == i {
                    if q == best {
                        assert(lex_le(rest_key@[o0[best as int] as int], rest_key@[o0[i as int] as int]));
                    } else {
                        assert(lex_le(rest_key@[o0[best as int] as int], rest_key@[o0[q] as int]));
                    }
                } else if q == best {
                    assert(lex_le(rest_key@[o0[p] as int], rest_key@[o0[i as int] as int]));
                } else {
                    assert(lex_le(rest_key@[o0[p] as int], rest_key@[o0[q] as int]));
                }
            }
        }
        i = i + 1;
    }
    order
}

fn contains_letter(v: &Vec<char>, c: char) -> (r: bool)
    ensures
        r == v@.contains(c),
{
    let mut j: usize = 0;
    while j < v.len()
        invariant
            j <= v@.len(),
            forall|k: int| 0 <= k < j ==> v@[k] != c,
        decreases v@.len() - j,
    {
        if v[j] == c {
            return true;
        }
        j = j + 1;
    }
    false
}

proof fn lemma_syms_upto_prefix(ws1: Seq<Seq<char>>, ws2: Seq<Seq<char>>, k: int)
    requires
        0 <= k <= ws1.len(),
        k <= ws2.len(),
        forall|i: int| 0 <= i < k ==> ws1[i] == ws2[i],
    ensures
        syms_upto(ws1, k) == syms_upto(ws2, k),
    decreases k,
{
    if k > 0 {
        lemma_syms_upto_prefix(ws1, ws2, k - 1);
    }
}

/// The trimmed lines, their letters and their patterns.
fn load_dict(di: &Vec<String>) -> (r: (Vec<String>, Vec<Vec<char>>, Vec<Vec<usize>>))
    ensures
        r.0@.len() == di@.len(),
        r.1@.len() == di@.len(),
        r.2@.len() == di@.len(),
        forall|j: int| 0 <= j < di@.len() ==> #[trigger] r.0@[j]@ == trimmed(di@[j]@),
        forall|j: int| 0 <= j < di@.len() ==> #[trigger] r.1@[j]@ == r.0@[j]@,
        forall|j: int| 0 <= j < di@.len() ==> ints(#[trigger] r.2@[j]@) == pattern(r.1@[j]@),
{
    let mut lines: Vec<String> = Vec::new();
    let mut chars: Vec<Vec<char>> = Vec::new();
    let mut pats: Vec<Vec<usize>> = Vec::new();
    let mut j: usize = 0;
    while j < di.len()
        invariant
            j <= di@.len(),
            lines@.len() == j,
            chars@.len() == j,
            pats@.len() == j,
            forall|i: int| 0 <= i < j ==> #[trigger] lines@[i]@ == trimmed(di@[i]@),
            forall|i: int| 0 <= i < j ==> #[trigger] chars@[i]@ == lines@[i]@,
            forall|i: int| 0 <= i < j ==> ints(#[trigger] pats@[i]@) == pattern(chars@[i]@),
        decreases di@.len() - j,
    {
        let t = trim_line(&di[j]);
        let c = chars_of(t.as_str());
        let mut fresh: Vec<char> = Vec::new();
        proof {
            assert(fresh@ =~= Seq::<char>::empty());
            assert(fresh@.no_duplicates());
        }
        let pat = relative_representation(&c, &mut fresh);
        lines.push(t);
        chars.push(c);
        pats.push(pat);
        j = j + 1;
    }
    (lines, chars, pats)
}

/// The positions whose label an earlier word gave, the first `known`.
fn back_positions(rel: &Vec<usize>, known: usize) -> (r: Vec<usize>)
    ensures
        forall|t: int| 0 <= t < r@.len() ==> #[trigger] r@[t] < rel@.len() && rel@[r@[t] as int] < known,
        forall|i: int| 0 <= i < rel@.len() && rel@[i] < known ==> #[trigger] r@.contains(i as usize),
        forall|s: int, t: int| 0 <= s < t < r@.len() ==> #[trigger] r@[s] < #[trigger] r@[t],
{
    let mut r: Vec<usize> = Vec::new();
    let mut i: usize = 0;
    while i < rel.len()
        invariant
            i <= rel@.len(),
            forall|t: int| 0 <= t < r@.len() ==> #[trigger] r@[t] < i && rel@[r@[t] as int] < known,
            forall|m: int| 0 <= m < i && rel@[m] < known ==> #[trigger] r@.contains(m as usize),
            forall|s: int, t: int| 0 <= s < t < r@.len() ==> #[trigger] r@[s] < #[trigger] r@[t],
        decreases rel@.len() - i,
    {
        let ghost r0 = r@;
        if rel[i] < known {
            r.push(i);
            proof {
                assert(r@[r@.len() - 1] == i);
            }
        }
        proof {
            assert forall|m: int| 0 <= m < i && rel@[m] < known implies #[trigger] r@.contains(m as usize) by {
                assert(r0.contains(m as usize));
                let q = choose|q: int| 0 <= q < r0.len() && r0[q] == m as usize;
                assert(r@[q] == m as usize);
            }
        }
        i = i + 1;
    }
    r
}

fn bucket_size(own: &Vec<usize>, line_pats: &Vec<Vec<usize>>) -> (r: usize)
    ensures
        r == count_where(line_pats@.len() as int, |j: int| line_pats@[j]@ == own@),
{
    let mut r: usize = 0;
    let mut j: usize = 0;
    while j < line_pats.len()
        invariant
            j <= line_pats@.len(),
            r == count_where(j as int, |j: int| line_pats@[j]@ == own@),
            r <= j,
        decreases line_pats@.len() - j,
    {
        if same_labels(&line_pats[j], own) {
            r = r + 1;
        }
        j = j + 1;
    }
    r
}

/// The ordering keys of each word: shared letters and length, then free
/// letters and bucket size.
fn word_keys(
    tchars: &Vec<Vec<char>>,
    line_chars: &Vec<Vec<char>>,
    line_pats: &Vec<Vec<usize>>,
) -> (r: (Vec<(usize, usize)>, Vec<(usize, usize)>))
    requires
        line_chars@.len() == line_pats@.len(),
        forall|j: int| 0 <= j < line_chars@.len() ==> ints(#[trigger] line_pats@[j]@) == pattern(line_chars@[j]@),
    ensures
        r.0@.len() == tchars@.len(),
        r.1@.len() == tchars@.len(),
        forall|b: int| 0 <= b < tchars@.len() ==> (#[trigger] r.0@[b]).0 as int == first_key(tchars@.map_values(|w: Vec<char>| w@), b).0
            && r.0@[b].1 as int == first_key(tchars@.map_values(|w: Vec<char>| w@), b).1,
        forall|b: int| 0 <= b < tchars@.len() ==> (#[trigger] r.1@[b]).0 as int == rest_key(
            tchars@.map_values(|w: Vec<char>| w@),
            line_chars@.map_values(|l: Vec<char>| l@),
            b,
        ).0 && r.1@[b].1 as int == rest_key(
            tchars@.map_values(|w: Vec<char>| w@),
            line_chars@.map_values(|l: Vec<char>| l@),
            b,
        ).1,
{
    let ghost tv = tchars@.map_values(|w: Vec<char>| w@);
    let n = tchars.len();
    let mut fk: Vec<(usize, usize)> = Vec::new();
    let mut rk: Vec<(usize, usize)> = Vec::new();
    let mut a: usize = 0;
    while a < n
        invariant
            n == tchars@.len(),
            tv == tchars@.map_values(|w: Vec<char>| w@),
            line_chars@.len() == line_pats@.len(),
            forall|j: int| 0 <= j < line_chars@.len() ==> ints(#[trigger] line_pats@[j]@) == pattern(line_chars@[j]@),
            a <= n,
            fk@.len() == a,
            rk@.len() == a,
            forall|b: int| 0 <= b < a ==> (#[trigger] fk@[b]).0 as int == first_key(tv, b).0 && fk@[b].1 as int == first_key(tv, b).1,
            forall|b: int| 0 <= b < a ==> (#[trigger] rk@[b]).0 as int == rest_key(tv, line_chars@.map_values(|l: Vec<char>| l@), b).0
                && rk@[b].1 as int == rest_key(tv, line_chars@.map_values(|l: Vec<char>| l@), b).1,
        decreases n - a,
    {
        let ghost ls = line_chars@.map_values(|l: Vec<char>| l@);
        let mask = dependency_mask(&tchars, a);
        let shared = count_true(&mask);
        let mut fresh: Vec<char> = Vec::new();
        proof {
            assert(fresh@ =~= Seq::<char>::empty());
            lemma_count_where_ext(mask@.len() as int, |i: int| mask@[i], |i: int| shared_at(tv, a as int, i));
        }
        let own = relative_representation(&tchars[a], &mut fresh);
        let distinct = fresh.len();
        let freedom = if distinct >= shared {
            distinct - shared
        } else {
            0
        };
        let size = bucket_size(&own, &line_pats);
        proof {
            assert forall|j: int| 0 <= j < ls.len() implies (line_pats@[j]@ == own@) == (pattern(ls[j]) == pattern(tv[a as int])) by {
                lemma_ints_injective(line_pats@[j]@, own@);
            }
            lemma_count_where_ext(ls.len() as int, |j: int| line_pats@[j]@ == own@, |j: int| pattern(ls[j]) == pattern(tv[a as int]));
        }
        fk.push((shared, tchars[a].len()));
        rk.push((freedom, size));
        a = a + 1;
    }
    (fk, rk)
}

/// The distinct words, each where it first occurs, and their letters.
fn set_words(words: &Vec<String>) -> (r: (Vec<String>, Vec<Vec<char>>))
    ensures
        views(r.0@) == distinct_in_order(views(words@)),
        views(r.0@).no_duplicates(),
        forall|x: Seq<char>| views(r.0@).contains(x) <==> views(words@).contains(x),
        r.1@.len() == r.0@.len(),
        forall|b: int| 0 <= b < r.1@.len() ==> #[trigger] r.1@[b]@ == r.0@[b]@,
{
    let texts = unique_words(words);
    proof {
        lemma_syms_after(Seq::<Seq<char>>::empty(), views(words@));
    }
    let n = texts.len();
    let mut tchars: Vec<Vec<char>> = Vec::new();
    let mut a: usize = 0;
    while a < n
        invariant
            n == texts@.len(),
            a <= n,
            tchars@.len() == a,
            forall|b: int| 0 <= b < a ==> #[trigger] tchars@[b]@ == texts@[b]@,
        decreases n - a,
    {
        tchars.push(chars_of(texts[a].as_str()));
        a = a + 1;
    }
    proof {
        assert forall|x: Seq<char>| views(texts@).contains(x) <==> views(words@).contains(x) by {
            assert(!Seq::<Seq<char>>::empty().contains(x));
        }
    }
    (texts, tchars)
}

/// For each input word, the index of the first of `built` that holds it.
fn create_word_map(built: &Vec<Word>, words: &Vec<String>) -> (r: Vec<usize>)
    requires
        forall|p: int| 0 <= p < words@.len() ==> word_texts(built@).contains(#[trigger] words@[p]@),
    ensures
        r@.len() == words@.len(),
        forall|p: int| 0 <= p < r@.len() ==> #[trigger] r@[p] < built@.len() && word_texts(built@)[r@[p] as int] == words@[p]@,
{
    let ghost wv = word_texts(built@);
    let n = built.len();
    let mut word_map: Vec<usize> = Vec::new();
    let mut p: usize = 0;
    while p < words.len()
        invariant
            n == built@.len(),
            wv == word_texts(built@),
            forall|p: int| 0 <= p < words@.len() ==> wv.contains(#[trigger] words@[p]@),
            p <= words@.len(),
            word_map@.len() == p,
            forall|q: int| 0 <= q < p ==> #[trigger] word_map@[q] < n && wv[word_map@[q] as int] == words@[q]@,
        decreases words@.len() - p,
    {
        let mut k: usize = 0;
        proof {
            assert(wv.contains(words@[p as int]@));
        }
        while k < n && !(built[k].s == words[p])
            invariant
                n == built@.len(),
                wv == word_texts(built@),
                k <= n,
                p < words@.len(),
                exists|y: int| k <= y < n && wv[y] == words@[p as int]@,
            decreases n - k,
        {
            proof {
                assert(wv[k as int] == built@[k as int].s@);
            }
            k = k + 1;
        }
        proof {
            assert(wv[k as int] == built@[k as int].s@);
        }
        word_map.push(k);
        p = p + 1;
    }
    word_map
}

impl FcmData {
    /// Builds the word model for `words` and indexes the dictionary `di`
    /// for it. The words are deduplicated and put in solving order; each
    /// dictionary line is trimmed.
    pub fn new(words: Vec<String>, di: Vec<String>) -> (r: Self)
        requires
            di@.len() < usize::MAX,
        ensures
            r.wf(),
            r.orig_view() == views(words@),
            r.lines_view() == di@.map_values(|l: String| trimmed(l@)),
            r.words_view().no_duplicates(),
            forall|w: Seq<char>| #[trigger] r.words_view().contains(w) <==> views(words@).contains(w),
            r.words_view().len() > 0 ==> forall|x: int|
                0 <= x < r.words_view().len() ==> key_le(first_key(r.words_view(), x), #[trigger] first_key(r.words_view(), 0)),
            forall|i: int, j: int|
                #![trigger rest_key(r.words_view(), r.lines_view(), i), rest_key(r.words_view(), r.lines_view(), j)]
                1 <= i < j < r.words_view().len() ==> key_le(rest_key(r.words_view(), r.lines_view(), i), rest_key(r.words_view(), r.lines_view(), j)),
            r.word_map_view().len() == words@.len(),
            forall|p: int|
                0 <= p < words@.len() ==> #[trigger] r.word_map_view()[p] < r.words_view().len()
                    && r.words_view()[r.word_map_view()[p] as int] == words@[p]@,
    {
        let (texts, tchars) = set_words(&words);
        let ghost tv = views(texts@);
        let n = texts.len();
        let (lines, line_chars, line_pats) = load_dict(&di);
        let (fk, rk) = word_keys(&tchars, &line_chars, &line_pats);
        proof {
            assert(tchars@.map_values(|w: Vec<char>| w@) =~= tv);
        }
        let order = sort_words(&fk, &rk);
        let mut built: Vec<Word> = Vec::new();
        let mut dict: Vec<Bucket> = Vec::new();
        let mut map: Vec<char> = Vec::new();
        let ghost ls = line_chars@.map_values(|l: Vec<char>| l@);
        proof {
            assert(map@ =~= syms_upto(word_texts(built@), 0));
        }
        let mut k: usize = 0;
        while k < n
            invariant
                n == texts@.len() == tchars@.len() == order@.len(),
                tv == views(texts@),
                forall|i: int| 0 <= i < n ==> #[trigger] order@[i] < n,
                line_chars@.len() == line_pats@.len() == di@.len(),
                di@.len() < usize::MAX,
                ls == line_chars@.map_values(|l: Vec<char>| l@),
                forall|j: int| 0 <= j < di@.len() ==> ints(#[trigger] line_pats@[j]@) == pattern(line_chars@[j]@),
                k <= n,
                built@.len() == k,
                dict@.len() == k,
                map@ == syms_upto(word_texts(built@), k as int),
                forall|i: int| 0 <= i < k ==> #[trigger] word_texts(built@)[i] == tv[order@[i] as int],
                forall|i: int| 0 <= i < k ==> #[trigger] built@[i].chars@ == built@[i].s@,
                forall|i: int|
                    0 <= i < k ==> ints(#[trigger] built@[i].rel@) == labels(
                        syms_upto(word_texts(built@), i),
                        word_texts(built@)[i],
                    ),
                forall|i: int, t: int|
                    0 <= i < k && 0 <= t < built@[i].back_dep@.len() ==> {
                        let q = #[trigger] built@[i].back_dep@[t];
                        &&& q < built@[i].rel@.len()
                        &&& built@[i].rel@[q as int] < syms_upto(word_texts(built@), i).len()
                    },
                forall|i: int, s: int, t: int|
                    0 <= i < k && 0 <= s < t < built@[i].back_dep@.len() ==> #[trigger] built@[i].back_dep@[s]
                        < #[trigger] built@[i].back_dep@[t],
                forall|i: int|
                    0 <= i < k ==> #[trigger] bucket_valid(
                        dict@[i]@,
                        ls,
                        built@[i].back_dep@,
                        pattern(word_texts(built@)[i]),
                        ls.len() as int,
                    ),
            decreases n - k,
        {
            let ghost b0 = built@;
            let ghost d0 = dict@;
            let a = order[k];
            let s = texts[a].clone();
            let chars = chars_of(s.as_str());
            let known = map.len();
            proof {
                lemma_syms_upto(word_texts(b0), k as int);
            }
            let rel = relative_representation(&chars, &mut map);
            let urel = relative_pattern(&rel);
            let back_dep = back_positions(&rel, known);
            let dependencies = dependency_mask(&tchars, a);
            proof {
                lemma_labels(syms_upto(word_texts(b0), k as int), chars@);
                assert forall|t: int| 0 <= t < back_dep@.len() implies #[trigger] back_dep@[t] < urel@.len() by {
                    assert(back_dep@[t] < rel@.len());
                    assert(ints(urel@).len() == urel@.len());
                    lemma_labels(Seq::<usize>::empty(), rel@);
                    assert(ints(rel@).len() == rel@.len());
                }
            }
            let bucket = build_bucket(&urel, &back_dep, &line_chars, &line_pats);
            let ghost wd = Word { s, chars, rel, urel, dependencies, back_dep };
            built.push(Word { s, chars, rel, urel, dependencies, back_dep });
            dict.push(bucket);
            proof {
                let w1 = word_texts(built@);
                let w0 = word_texts(b0);
                assert(built@ == b0.push(wd));
                assert(wd.chars@ == wd.s@);
                assert forall|i: int| 0 <= i < k + 1 implies #[trigger] built@[i].chars@ == built@[i].s@ by {
                    if i < k {
                        assert(built@[i] == b0[i]);
                        assert(b0[i].chars@ == b0[i].s@);
                    } else {
                        assert(built@[i] == wd);
                    }
                }
                assert forall|i: int| 0 <= i < k implies w1[i] == w0[i] by {
                    assert(built@[i] == b0[i]);
                }
                assert forall|i: int| 0 <= i <= k implies #[trigger] syms_upto(w1, i) == syms_upto(w0, i) by {
                    lemma_syms_upto_prefix(w1, w0, i);
                }
                assert(w1[k as int] == chars@);
                assert(syms_upto(w1, k + 1) == syms_after(syms_upto(w1, k as int), w1[k as int]));
                // the new word's pattern is its bucket key
                lemma_labels_shape(syms_upto(w0, k as int), chars@);
                assert(same_shape(rel@, chars@)) by {
                    assert forall|x: int, y: int| 0 <= x < rel@.len() && 0 <= y < rel@.len() implies (rel@[x] == rel@[y]
                        <==> chars@[x] == chars@[y]) by {
                        assert(ints(rel@)[x] == rel@[x] as int);
                        assert(ints(rel@)[y] == rel@[y] as int);
                    }
                }
                lemma_pattern_equivalence(rel@, chars@);
                assert(ints(urel@) == pattern(w1[k as int]));
                assert forall|i: int| 0 <= i < k + 1 implies #[trigger] bucket_valid(
                    dict@[i]@,
                    ls,
                    built@[i].back_dep@,
                    pattern(word_texts(built@)[i]),
                    ls.len() as int,
                ) by {
                    if i < k {
                        assert(dict@[i] == d0[i]);
                        assert(built@[i] == b0[i]);
                        assert(word_texts(built@)[i] == word_texts(b0)[i]);
                    }
                }
            }
            k = k + 1;
        }
        let ghost wv = word_texts(built@);
        proof {
            assert forall|p: int| 0 <= p < words@.len() implies wv.contains(#[trigger] words@[p]@) by {
                assert(views(words@)[p] == words@[p]@);
                assert(views(words@).contains(words@[p]@));
                assert(tv.contains(words@[p]@));
                let xi = choose|xi: int| 0 <= xi < tv.len() && tv[xi] == words@[p]@;
                let x = xi as usize;
                assert(order@.contains(x));
                let y = choose|y: int| 0 <= y < n && order@[y] == x;
                assert(wv[y] == tv[xi]);
            }
        }
        let word_map = create_word_map(&built, &words);
        let r = FcmData { orig_words: words, word_map, lines, line_chars, dict, words: built };
        proof {
            assert(r.words_view() == wv);
            assert(r.lines_view() =~= di@.map_values(|l: String| trimmed(l@)));
            assert(ls =~= r.lines_view());
            assert(r.orig_view() =~= views(r.orig_words@));
            assert forall|k: int| 0 <= k < n implies #[trigger] r.rels()[k] == labels(syms_upto(wv, k), wv[k]) by {}
            assert forall|k: int| 0 <= k < n implies #[trigger] r.bucket_ok(k) by {}
            assert(wv.no_duplicates()) by {
                assert forall|i: int, j: int| 0 <= i < n && 0 <= j < n && i != j implies wv[i] != wv[j] by {
                    assert(order@[i] != order@[j]);
                }
            }
            if n > 0 {
                assert forall|x: int| 0 <= x < wv.len() implies key_le(first_key(wv, x), #[trigger] first_key(wv, 0)) by {
                    lemma_shared_perm(tv, wv, order@, x);
                    lemma_shared_perm(tv, wv, order@, 0);
                    assert(first_key(wv, x) == first_key(tv, order@[x] as int));
                    assert(first_key(wv, 0) == first_key(tv, order@[0] as int));
                    assert(lex_le(fk@[order@[x] as int], fk@[order@[0] as int]));
                }
            }
            assert forall|i: int, j: int|
                #![trigger rest_key(wv, ls, i), rest_key(wv, ls, j)]
                1 <= i < j < wv.len() implies key_le(rest_key(wv, ls, i), rest_key(wv, ls, j)) by {
                lemma_shared_perm(tv, wv, order@, i);
                lemma_shared_perm(tv, wv, order@, j);
                assert(rest_key(wv, ls, i) == rest_key(tv, ls, order@[i] as int));
                assert(rest_key(wv, ls, j) == rest_key(tv, ls, order@[j] as int));
                assert(lex_le(rk@[order@[i] as int], rk@[order@[j] as int]));
            }
            assert forall|w: Seq<char>| #[trigger] wv.contains(w) <==> views(r.orig_words@).contains(w) by {
                if wv.contains(w) {
                    let i = choose|i: int| 0 <= i < n && wv[i] == w;
                    assert(tv.contains(w));
                }
                if tv.contains(w) {
                    let x = choose|x: int| 0 <= x < tv.len() && tv[x] == w;
                    assert(order@.contains(x as usize));
                    let y = choose|y: int| 0 <= y < n && order@[y] == x as usize;
                    assert(wv[y] == w);
                }
            }
        }
        r
    }

    /// For each input position, the index of its word in solving order.
    pub fn word_map(&self) -> (r: &Vec<usize>)
        ensures
            r@ == self.word_map_view(),
    {
        &self.word_map
    }
}

fn copy_phrase(v: &Vec<String>) -> (r: Vec<String>)
    ensures
        r@ == v@,
{
    let mut r: Vec<String> = Vec::new();
    let mut i: usize = 0;
    while i < v.len()
        invariant
            i <= v@.len(),
            r@ == v@.take(i as int),
        decreases v@.len() - i,
    {
        r.push(v[i].clone());
        i = i + 1;
        proof {
            assert(r@ =~= v@.take(i as int));
        }
    }
    proof {
        assert(v@.take(i as int) =~= v@);
    }
    r
}

/// `w` put in front of each phrase of `ps`.
pub open spec fn prepend_word(w: Seq<char>, ps: Seq<Seq<Seq<char>>>) -> Seq<Seq<Seq<char>>> {
    ps.map_values(|p: Seq<Seq<char>>| seq![w] + p)
}

/// `pre` put in front of each phrase of `ps`.
pub open spec fn prepend_all(pre: Seq<Seq<char>>, ps: Seq<Seq<Seq<char>>>) -> Seq<Seq<Seq<char>>> {
    ps.map_values(|p: Seq<Seq<char>>| pre + p)
}

/// The phrases of `t`, one per node without continuations, depth first with
/// the continuations in order.
pub open spec fn tree_phrases(t: WordTree) -> Seq<Seq<Seq<char>>>
    decreases t,
{
    if t.next@.len() == 0 {
        seq![seq![t.word@]]
    } else {
        prepend_word(t.word@, forest_phrases(t.next@))
    }
}

/// The phrases of the trees of `f`, tree after tree.
pub open spec fn forest_phrases(f: Seq<WordTree>) -> Seq<Seq<Seq<char>>>
    decreases f,
{
    if f.len() == 0 {
        Seq::empty()
    } else {
        forest_phrases(f.drop_last()) + tree_phrases(f.last())
    }
}

proof fn lemma_tree_phrases_start(t: WordTree)
    ensures
        forall|i: int|
            0 <= i < tree_phrases(t).len() ==> (#[trigger] tree_phrases(t)[i]).len() >= 1 && tree_phrases(t)[i][0]
                == t.word@,
{
    if t.next@.len() > 0 {
        let fp = forest_phrases(t.next@);
        assert forall|i: int| 0 <= i < tree_phrases(t).len() implies (#[trigger] tree_phrases(t)[i]).len() >= 1
            && tree_phrases(t)[i][0] == t.word@ by {
            assert(tree_phrases(t)[i] == seq![t.word@] + fp[i]);
        }
    }
}

proof fn lemma_forest_phrases_start(f: Seq<WordTree>)
    ensures
        forall|i: int|
            0 <= i < forest_phrases(f).len() ==> exists|m: int|
                0 <= m < f.len() && (#[trigger] forest_phrases(f)[i]).len() >= 1 && forest_phrases(f)[i][0]
                    == f[m].word@,
    decreases f.len(),
{
    if f.len() > 0 {
        lemma_forest_phrases_start(f.drop_last());
        lemma_tree_phrases_start(f.last());
        let a = forest_phrases(f.drop_last());
        assert forall|i: int| 0 <= i < forest_phrases(f).len() implies exists|m: int|
            0 <= m < f.len() && (#[trigger] forest_phrases(f)[i]).len() >= 1 && forest_phrases(f)[i][0]
                == f[m].word@ by {
            if i < a.len() {
                assert(forest_phrases(f)[i] == a[i]);
                let m = choose|m: int| 0 <= m < f.len() - 1 && (#[trigger] a[i]).len() >= 1 && a[i][0] == f.drop_last()[m].word@;
                assert(f[m] == f.drop_last()[m]);
            } else {
                assert(forest_phrases(f)[i] == tree_phrases(f.last())[i - a.len()]);
                assert(f[f.len() - 1] == f.last());
            }
        }
    }
}

proof fn lemma_forest_push(f: Seq<WordTree>, t: WordTree)
    ensures
        forest_phrases(f.push(t)) == forest_phrases(f) + tree_phrases(t),
{
    assert(f.push(t).drop_last() =~= f);
}

proof fn lemma_no_dup_concat<A>(a: Seq<A>, b: Seq<A>)
    requires
        a.no_duplicates(),
        b.no_duplicates(),
        forall|x: int, y: int| 0 <= x < a.len() && 0 <= y < b.len() ==> a[x] != b[y],
    ensures
        (a + b).no_duplicates(),
{
    let c = a + b;
    assert forall|x: int, y: int| 0 <= x < c.len() && 0 <= y < c.len() && x != y implies c[x] != c[y] by {
        if x < a.len() && y >= a.len() {
            assert(c[y] == b[y - a.len()]);
        } else if x >= a.len() && y < a.len() {
            assert(c[x] == b[x - a.len()]);
        } else if x >= a.len() {
            assert(c[x] == b[x - a.len()] && c[y] == b[y - a.len()]);
        }
    }
}

proof fn lemma_prepend_no_dup(w: Seq<char>, ps: Seq<Seq<Seq<char>>>)
    requires
        ps.no_duplicates(),
    ensures
        prepend_word(w, ps).no_duplicates(),
{
    let q = prepend_word(w, ps);
    assert forall|x: int, y: int| 0 <= x < q.len() && 0 <= y < q.len() && x != y implies q[x] != q[y] by {
        if q[x] == q[y] {
            assert(q[x].drop_first() =~= ps[x]);
            assert(q[y].drop_first() =~= ps[y]);
        }
    }
}

/// A phrase is listed by `tree_phrases` exactly when it is a path of the tree.
pub proof fn lemma_tree_phrases_has(t: WordTree, p: Seq<Seq<char>>)
    ensures
        tree_phrases(t).contains(p) <==> tree_has(t, p),
    decreases t,
{
    lemma_tree_has(t, p);
    if t.next@.len() == 0 {
        if p.len() == 1 && p[0] == t.word@ {
            assert(p =~= seq![t.word@]);
            assert(tree_phrases(t)[0] == p);
        }
    } else {
        let fp = forest_phrases(t.next@);
        if tree_phrases(t).contains(p) {
            let i = choose|i: int| 0 <= i < tree_phrases(t).len() && tree_phrases(t)[i] == p;
            assert(p == seq![t.word@] + fp[i]);
            assert(p.drop_first() =~= fp[i]);
            lemma_forest_phrases_has(t.next@, p.drop_first());
        }
        if p.len() >= 1 && p[0] == t.word@ {
            lemma_forest_phrases_has(t.next@, p.drop_first());
            if fp.contains(p.drop_first()) {
                let i = choose|i: int| 0 <= i < fp.len() && fp[i] == p.drop_first();
                assert(seq![t.word@] + fp[i] =~= p);
                assert(tree_phrases(t)[i] == p);
            }
        }
    }
}

/// A phrase is listed by `forest_phrases` exactly when it is a path of one
/// of the trees.
pub proof fn lemma_forest_phrases_has(f: Seq<WordTree>, p: Seq<Seq<char>>)
    ensures
        forest_phrases(f).contains(p) <==> forest_has(f, p),
    decreases f,
{
    if f.len() > 0 {
        let d = f.drop_last();
        lemma_forest_phrases_has(d, p);
        lemma_tree_phrases_has(f.last(), p);
        let a = forest_phrases(d);
        let b = tree_phrases(f.last());
        if forest_phrases(f).contains(p) {
            let i = choose|i: int| 0 <= i < (a + b).len() && (a + b)[i] == p;
            if i < a.len() {
                assert(a[i] == p);
                let m = choose|m: int| 0 <= m < d.len() && #[trigger] tree_has(d[m], p);
                assert(f[m] == d[m]);
            } else {
                assert(b[i - a.len()] == p);
                assert(tree_has(f[f.len() - 1], p));
            }
        }
        if forest_has(f, p) {
            let m = choose|m: int| 0 <= m < f.len() && #[trigger] tree_has(f[m], p);
            if m < f.len() - 1 {
                assert(d[m] == f[m]);
                assert(forest_has(d, p));
                let i = choose|i: int| 0 <= i < a.len() && a[i] == p;
                assert((a + b)[i] == p);
            } else {
                assert(f[m] == f.last());
                let i = choose|i: int| 0 <= i < b.len() && b[i] == p;
                assert((a + b)[i + a.len()] == p);
            }
        }
    } else {
        assert(forest_phrases(f) =~= Seq::<Seq<Seq<char>>>::empty());
    }
}

/// The contents of a list of phrases.
pub open spec fn phrase_views(out: Seq<Vec<String>>) -> Seq<Seq<Seq<char>>> {
    out.map_values(|v: Vec<String>| views(v@))
}

impl WordTree {
    /// Every phrase of the tree, one per node without continuations, depth
    /// first with the continuations in order.
    pub fn walk(&self) -> (r: Vec<Vec<String>>)
        ensures
            phrase_views(r@) == tree_phrases(*self),
    {
        let mut sentence: Vec<String> = Vec::new();
        let mut out: Vec<Vec<String>> = Vec::new();
        self.walk_inner(&mut sentence, &mut out);
        proof {
            assert(phrase_views(Seq::<Vec<String>>::empty()) =~= Seq::<Seq<Seq<char>>>::empty());
            assert(views(Seq::<String>::empty()) =~= Seq::<Seq<char>>::empty());
            assert forall|i: int| 0 <= i < tree_phrases(*self).len() implies Seq::<Seq<char>>::empty() + tree_phrases(
                *self,
            )[i] == tree_phrases(*self)[i] by {
                assert(Seq::<Seq<char>>::empty() + tree_phrases(*self)[i] =~= tree_phrases(*self)[i]);
            }
            assert(prepend_all(Seq::<Seq<char>>::empty(), tree_phrases(*self)) =~= tree_phrases(*self));
            assert(phrase_views(out@) =~= tree_phrases(*self));
        }
        out
    }

    fn walk_inner(&self, sentence: &mut Vec<String>, out: &mut Vec<Vec<String>>)
        ensures
            final(sentence)@ == old(sentence)@,
            phrase_views(final(out)@) == phrase_views(old(out)@) + prepend_all(
                views(old(sentence)@),
                tree_phrases(*self),
            ),
        decreases self,
    {
        let ghost s0 = sentence@;
        let ghost out0 = out@;
        sentence.push(self.word.clone());
        let ghost s1 = sentence@;
        proof {
            assert(views(s1) =~= views(s0).push(self.word@));
        }
        if self.next.len() == 0 {
            let ph = copy_phrase(sentence);
            out.push(ph);
            sentence.pop();
            proof {
                assert(sentence@ =~= s0);
                assert(views(s0) + seq![self.word@] =~= views(s1));
                assert(phrase_views(out@) =~= phrase_views(out0) + prepend_all(views(s0), tree_phrases(*self)));
            }
            return;
        }
        let mut j: usize = 0;
        proof {
            assert(self.next@.take(0) =~= Seq::<WordTree>::empty());
            assert(prepend_all(views(s1), forest_phrases(self.next@.take(0))) =~= Seq::<Seq<Seq<char>>>::empty());
            assert(phrase_views(out@) =~= phrase_views(out0) + prepend_all(views(s1), forest_phrases(self.next@.take(0))));
        }
        while j < self.next.len()
            invariant
                sentence@ == s1,
                views(s1) == views(s0).push(self.word@),
                j <= self.next@.len(),
                phrase_views(out@) == phrase_views(out0) + prepend_all(views(s1), forest_phrases(self.next@.take(j as int))),
            decreases self.next@.len() - j,
        {
            self.next[j].walk_inner(sentence, out);
            proof {
                let tk = self.next@.take(j + 1);
                assert(tk.drop_last() =~= self.next@.take(j as int));
                assert(tk.last() == self.next@[j as int]);
                assert(forest_phrases(tk) == forest_phrases(self.next@.take(j as int)) + tree_phrases(self.next@[j as int]));
                assert(prepend_all(views(s1), forest_phrases(tk)) =~= prepend_all(views(s1), forest_phrases(self.next@.take(j as int)))
                    + prepend_all(views(s1), tree_phrases(self.next@[j as int])));
            }
            j = j + 1;
        }
        sentence.pop();
        proof {
            assert(sentence@ =~= s0);
            assert(self.next@.take(j as int) =~= self.next@);
            let fp = forest_phrases(self.next@);
            assert forall|i: int| 0 <= i < fp.len() implies views(s1) + fp[i] == views(s0) + (seq![self.word@] + fp[i]) by {
                assert(views(s1) + fp[i] =~= views(s0) + (seq![self.word@] + fp[i]));
            }
            assert(prepend_all(views(s1), fp) =~= prepend_all(views(s0), tree_phrases(*self)));
        }
    }
}

/// Where word `k` starts in the concatenation of `ws`.
pub open spec fn offset<A>(ws: Seq<Seq<A>>, k: int) -> int
    decreases k,
{
    if k <= 0 || ws.len() == 0 {
        0
    } else {
        ws[0].len() + offset(ws.drop_first(), k - 1)
    }
}

proof fn lemma_concat_index<A>(ws: Seq<Seq<A>>, k: int, i: int)
    requires
        0 <= k < ws.len(),
        0 <= i < ws[k].len(),
    ensures
        0 <= offset(ws, k) + i < concat(ws).len(),
        concat(ws)[offset(ws, k) + i] == ws[k][i],
    decreases k,
{
    lemma_concat_len(ws.drop_first());
    if k > 0 {
        lemma_concat_index(ws.drop_first(), k - 1, i);
    }
}

proof fn lemma_concat_len<A>(ws: Seq<Seq<A>>)
    ensures
        concat(ws).len() >= 0,
        forall|k: int| 0 <= k <= ws.len() ==> 0 <= #[trigger] offset(ws, k) <= concat(ws).len(),
    decreases ws.len(),
{
    if ws.len() > 0 {
        lemma_concat_len(ws.drop_first());
        assert forall|k: int| 0 <= k <= ws.len() implies 0 <= #[trigger] offset(ws, k) <= concat(ws).len() by {
            if k > 0 {
                assert(0 <= offset(ws.drop_first(), k - 1) <= concat(ws.drop_first()).len());
            }
        }
    }
}

proof fn lemma_offset_same<A, B>(ws: Seq<Seq<A>>, cs: Seq<Seq<B>>, k: int)
    requires
        ws.len() == cs.len(),
        0 <= k <= ws.len(),
        forall|m: int| 0 <= m < ws.len() ==> #[trigger] ws[m].len() == cs[m].len(),
    ensures
        offset(ws, k) == offset(cs, k),
    decreases k,
{
    if k > 0 {
        assert(ws[0].len() == cs[0].len());
        assert forall|m: int| 0 <= m < ws.len() - 1 implies #[trigger] ws.drop_first()[m].len()
            == cs.drop_first()[m].len() by {
            assert(ws[m + 1].len() == cs[m + 1].len());
        }
        lemma_offset_same(ws.drop_first(), cs.drop_first(), k - 1);
    }
}

/// In a solution, two letters of the input words are equal exactly when
/// the letters at the same places of the solution are: the substitution is
/// one-to-one over the whole phrase, so a letter that occurs in several
/// words is replaced by the same letter in each, and no two letters share
/// a replacement.
pub proof fn lemma_solution_letters(
    ws: Seq<Seq<char>>,
    dict: Seq<Seq<char>>,
    cs: Seq<Seq<char>>,
    k1: int,
    i1: int,
    k2: int,
    i2: int,
)
    requires
        is_solution(ws, dict, cs),
        0 <= k1 < ws.len(),
        0 <= i1 < ws[k1].len(),
        0 <= k2 < ws.len(),
        0 <= i2 < ws[k2].len(),
    ensures
        ws[k1][i1] == ws[k2][i2] <==> cs[k1][i1] == cs[k2][i2],
{
    assert(cs[k1].len() == ws[k1].len());
    assert(cs[k2].len() == ws[k2].len());
    lemma_concat_index(ws, k1, i1);
    lemma_concat_index(ws, k2, i2);
    lemma_concat_index(cs, k1, i1);
    lemma_concat_index(cs, k2, i2);
    lemma_offset_same(ws, cs, k1);
    lemma_offset_same(ws, cs, k2);
}

/// A solution put back in input order through the word map (each input
/// position takes the word of its entry) is read from dictionary words of
/// the input words' lengths, and its letters repeat exactly where the input
/// letters do, whatever the order and the repetitions of the input words.
pub proof fn lemma_input_order(
    ws: Seq<Seq<char>>,
    orig: Seq<Seq<char>>,
    map: Seq<usize>,
    dict: Seq<Seq<char>>,
    cs: Seq<Seq<char>>,
    r: Seq<Seq<char>>,
)
    requires
        is_solution(ws, dict, cs),
        map.len() == orig.len(),
        forall|p: int| 0 <= p < map.len() ==> #[trigger] map[p] < ws.len() && ws[map[p] as int] == orig[p],
        r.len() == orig.len(),
        forall|p: int| 0 <= p < r.len() ==> #[trigger] r[p] == cs[map[p] as int],
    ensures
        forall|p: int| 0 <= p < r.len() ==> #[trigger] dict.contains(r[p]) && r[p].len() == orig[p].len(),
        forall|p1: int, i1: int, p2: int, i2: int|
            0 <= p1 < orig.len() && 0 <= i1 < orig[p1].len() && 0 <= p2 < orig.len() && 0 <= i2 < orig[p2].len()
                ==> (#[trigger] orig[p1][i1] == #[trigger] orig[p2][i2] <==> r[p1][i1] == r[p2][i2]),
{
    assert forall|p: int| 0 <= p < r.len() implies #[trigger] dict.contains(r[p]) && r[p].len() == orig[p].len() by {
        assert(map[p] < ws.len());
        assert(dict.contains(cs[map[p] as int]));
        assert(cs[map[p] as int].len() == ws[map[p] as int].len());
    }
    assert forall|p1: int, i1: int, p2: int, i2: int|
        0 <= p1 < orig.len() && 0 <= i1 < orig[p1].len() && 0 <= p2 < orig.len() && 0 <= i2 < orig[p2].len()
            implies (#[trigger] orig[p1][i1] == #[trigger] orig[p2][i2] <==> r[p1][i1] == r[p2][i2]) by {
        assert(map[p1] < ws.len() && ws[map[p1] as int] == orig[p1]);
        assert(map[p2] < ws.len() && ws[map[p2] as int] == orig[p2]);
        assert(r[p1] == cs[map[p1] as int]);
        assert(r[p2] == cs[map[p2] as int]);
        lemma_solution_letters(ws, dict, cs, map[p1] as int, i1, map[p2] as int, i2);
    }
}

/// The words of a phrase in solving order, put back in input order.
pub fn phrase_in_input_order(phrase: &Vec<String>, map: &Vec<usize>) -> (r: Vec<String>)
    requires
        forall|p: int| 0 <= p < map@.len() ==> #[trigger] map@[p] < phrase@.len(),
    ensures
        r@.len() == map@.len(),
        forall|p: int| 0 <= p < map@.len() ==> #[trigger] r@[p]@ == phrase@[map@[p] as int]@,
{
    let mut r: Vec<String> = Vec::new();
    let mut p: usize = 0;
    while p < map.len()
        invariant
            p <= map@.len(),
            forall|p: int| 0 <= p < map@.len() ==> #[trigger] map@[p] < phrase@.len(),
            r@.len() == p,
            forall|q: int| 0 <= q < p ==> #[trigger] r@[q]@ == phrase@[map@[q] as int]@,
        decreases map@.len() - p,
    {
        r.push(phrase[map[p]].clone());
        p = p + 1;
    }
    r
}

fn same_labels(a: &Vec<usize>, b: &Vec<usize>) -> (r: bool)
    ensures
        r == (a@ == b@),
{
    if a.len() != b.len() {
        return false;
    }
    let mut i: usize = 0;
    while i < a.len()
        invariant
            i <= a@.len(),
            a@.len() == b@.len(),
            forall|j: int| 0 <= j < i ==> a@[j] == b@[j],
        decreases a@.len() - i,
    {
        if a[i] != b[i] {
            return false;
        }
        i = i + 1;
    }
    proof {
        assert(a@ =~= b@);
    }
    true
}

fn same_chars(a: &Vec<char>, b: &Vec<char>) -> (r: bool)
    ensures
        r == (a@ == b@),
{
    if a.len() != b.len() {
        return false;
    }
    let mut i: usize = 0;
    while i < a.len()
        invariant
            i <= a@.len(),
            a@.len() == b@.len(),
            forall|j: int| 0 <= j < i ==> a@[j] == b@[j],
        decreases a@.len() - i,
    {
        if a[i] != b[i] {
            return false;
        }
        i = i + 1;
    }
    proof {
        assert(a@ =~= b@);
    }
    true
}

fn contains_label(v: &Vec<usize>, x: usize) -> (r: bool)
    ensures
        r == v@.contains(x),
{
    let mut j: usize = 0;
    while j < v.len()
        invariant
            j <= v@.len(),
            forall|k: int| 0 <= k < j ==> v@[k] != x,
        decreases v@.len() - j,
    {
        if v[j] == x {
            return true;
        }
        j = j + 1;
    }
    false
}

/// The letters of `w` at the positions `dep`.
fn fixed_hash(dep: &Vec<usize>, w: &Vec<char>) -> (r: Vec<char>)
    requires
        forall|t: int| 0 <= t < dep@.len() ==> #[trigger] dep@[t] < w@.len(),
    ensures
        r@ == sig_of(w@, dep@),
{
    let mut r: Vec<char> = Vec::new();
    let mut t: usize = 0;
    while t < dep.len()
        invariant
            t <= dep@.len(),
            forall|t: int| 0 <= t < dep@.len() ==> #[trigger] dep@[t] < w@.len(),
            r@ == sig_of(w@, dep@.take(t as int)),
        decreases dep@.len() - t,
    {
        r.push(w[dep[t]]);
        t = t + 1;
        proof {
            assert(r@ =~= sig_of(w@, dep@.take(t as int)));
        }
    }
    proof {
        assert(dep@.take(t as int) =~= dep@);
    }
    r
}

/// The letters already given to the labels at the positions `dep` of a word
/// with labels `rel`.
fn fixed_hash_map(dep: &Vec<usize>, rel: &Vec<usize>, map: &Vec<char>) -> (r: Vec<char>)
    requires
        forall|t: int|
            0 <= t < dep@.len() ==> #[trigger] dep@[t] < rel@.len() && rel@[dep@[t] as int] < map@.len(),
    ensures
        r@ == dep@.map_values(|i: usize| map@[rel@[i as int] as int]),
{
    let mut r: Vec<char> = Vec::new();
    let mut t: usize = 0;
    while t < dep.len()
        invariant
            t <= dep@.len(),
            forall|t: int|
                0 <= t < dep@.len() ==> #[trigger] dep@[t] < rel@.len() && rel@[dep@[t] as int] < map@.len(),
            r@ == dep@.take(t as int).map_values(|i: usize| map@[rel@[i as int] as int]),
        decreases dep@.len() - t,
    {
        r.push(map[rel[dep[t]]]);
        t = t + 1;
        proof {
            assert(r@ =~= dep@.take(t as int).map_values(|i: usize| map@[rel@[i as int] as int]));
        }
    }
    proof {
        assert(dep@.take(t as int) =~= dep@);
    }
    r
}

/// The letters of the table whose labels a word with labels `rel` does not
/// use, ascending: no candidate for that word may hold one.
fn excluded(map: &Vec<char>, rel: &Vec<usize>) -> (r: Vec<char>)
    ensures
        forall|x: char|
            #[trigger] r@.contains(x) <==> exists|j: int|
                0 <= j < map@.len() && map@[j] == x && !rel@.contains(j as usize),
        forall|a: int, b: int| 0 <= a < b < r@.len() ==> r@[a] <= r@[b],
{
    let mut r = unsorted_excluded(map, rel);
    let ghost u = r@;
    sort_chars(&mut r);
    proof {
        broadcast use vstd::seq_lib::group_to_multiset_ensures;
        assert forall|x: char|
            #[trigger] r@.contains(x) <==> exists|j: int|
                0 <= j < map@.len() && map@[j] == x && !rel@.contains(j as usize) by {
            assert(r@.contains(x) <==> r@.to_multiset().count(x) > 0);
            assert(u.contains(x) <==> u.to_multiset().count(x) > 0);
        }
    }
    r
}

fn unsorted_excluded(map: &Vec<char>, rel: &Vec<usize>) -> (r: Vec<char>)
    ensures
        forall|x: char|
            #[trigger] r@.contains(x) <==> exists|j: int|
                0 <= j < map@.len() && map@[j] == x && !rel@.contains(j as usize),
{
    let mut r: Vec<char> = Vec::new();
    let mut j: usize = 0;
    while j < map.len()
        invariant
            j <= map@.len(),
            forall|x: char|
                #[trigger] r@.contains(x) <==> exists|i: int|
                    0 <= i < j && map@[i] == x && !rel@.contains(i as usize),
        decreases map@.len() - j,
    {
        let ghost r0 = r@;
        if !contains_label(rel, j) {
            r.push(map[j]);
        }
        proof {
            assert forall|x: char|
                #[trigger] r@.contains(x) <==> exists|i: int|
                    0 <= i < j + 1 && map@[i] == x && !rel@.contains(i as usize) by {
                if r@.contains(x) && !r0.contains(x) {
                    let i = choose|i: int| 0 <= i < r@.len() && r@[i] == x;
                    if i < r0.len() {
                        assert(r0[i] == x);
                    }
                }
                if r0.contains(x) {
                    let i = choose|i: int| 0 <= i < r0.len() && r0[i] == x;
                    assert(r@[i] == x);
                }
                if exists|i: int| 0 <= i < j + 1 && map@[i] == x && !rel@.contains(i as usize) {
                    let i = choose|i: int| 0 <= i < j + 1 && map@[i] == x && !rel@.contains(i as usize);
                    if i == j {
                        assert(r@[r@.len() - 1] == x);
                    }
                }
            }
        }
        j = j + 1;
    }
    r
}

fn find_sig(b: &Bucket, q: &Vec<char>) -> (r: Option<usize>)
    ensures
        r matches Some(d) ==> d < b@.len() && b@[d as int].0@ == q@,
        r is None ==> forall|d: int| 0 <= d < b@.len() ==> b@[d].0@ != q@,
{
    let mut d: usize = 0;
    while d < b.len()
        invariant
            d <= b@.len(),
            forall|e: int| 0 <= e < d ==> b@[e].0@ != q@,
        decreases b@.len() - d,
    {
        if same_chars(&b[d].0, q) {
            return Some(d);
        }
        d = d + 1;
    }
    None
}

} // verus!
