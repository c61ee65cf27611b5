//! Structural patterns: each distinct symbol is labelled by the order of its
//! first occurrence.

use vstd::prelude::*;

verus! {

/// The symbol table after reading `c`: a symbol not seen yet is appended.
pub open spec fn step<A>(syms: Seq<A>, c: A) -> Seq<A> {
    if syms.contains(c) {
        syms
    } else {
        syms.push(c)
    }
}

/// The symbol table after reading all of `s`, starting from `syms`.
pub open spec fn syms_after<A>(syms: Seq<A>, s: Seq<A>) -> Seq<A>
    decreases s.len(),
{
    if s.len() == 0 {
        syms
    } else {
        step(syms_after(syms, s.drop_last()), s.last())
    }
}

/// The label of each symbol of `s`: its index in the symbol table, which
/// starts as `syms` and grows while `s` is read.
pub open spec fn labels<A>(syms: Seq<A>, s: Seq<A>) -> Seq<int>
    decreases s.len(),
{
    if s.len() == 0 {
        Seq::empty()
    } else {
        labels(syms, s.drop_last()).push(syms_after(syms, s).index_of(s.last()))
    }
}

/// The canonical pattern of `s`, read with a fresh symbol table.
pub open spec fn pattern<A>(s: Seq<A>) -> Seq<int> {
    labels(Seq::empty(), s)
}

/// Two sequences repeat their symbols at the same positions.
pub open spec fn same_shape<A, B>(s: Seq<A>, t: Seq<B>) -> bool {
    &&& s.len() == t.len()
    &&& forall|i: int, j: int|
        0 <= i < s.len() && 0 <= j < s.len() ==> (s[i] == s[j] <==> t[i] == t[j])
}

/// The integer values of a sequence of labels.
pub open spec fn ints(v: Seq<usize>) -> Seq<int> {
    v.map_values(|x: usize| x as int)
}

proof fn lemma_contains_drop_last<A>(s: Seq<A>, x: A)
    requires
        s.len() > 0,
    ensures
        s.contains(x) <==> (s.drop_last().contains(x) || x == s.last()),
{
    if s.contains(x) {
        let i = choose|i: int| 0 <= i < s.len() && s[i] == x;
        if i < s.len() - 1 {
            assert(s.drop_last()[i] == x);
        }
    }
    if s.drop_last().contains(x) {
        let i = choose|i: int| 0 <= i < s.len() - 1 && s.drop_last()[i] == x;
        assert(s[i] == x);
    }
}

/// The symbol table only grows, keeps its symbols distinct, and holds
/// exactly the symbols it started with and those read.
pub proof fn lemma_syms_after<A>(syms: Seq<A>, s: Seq<A>)
    requires
        syms.no_duplicates(),
    ensures
        syms_after(syms, s).no_duplicates(),
        syms.len() <= syms_after(syms, s).len() <= syms.len() + s.len(),
        forall|k: int| 0 <= k < syms.len() ==> #[trigger] syms_after(syms, s)[k] == syms[k],
        forall|x: A| #[trigger] syms_after(syms, s).contains(x) <==> (syms.contains(x) || s.contains(x)),
    decreases s.len(),
{
    if s.len() > 0 {
        lemma_syms_after(syms, s.drop_last());
        let r0 = syms_after(syms, s.drop_last());
        assert forall|x: A| #[trigger] syms_after(syms, s).contains(x) <==> (syms.contains(x) || s.contains(x)) by {
            lemma_contains_drop_last(s, x);
            if !r0.contains(s.last()) {
                lemma_contains_drop_last(r0.push(s.last()), x);
                assert(r0.push(s.last()).drop_last() =~= r0);
            }
        }
    }
}

/// Each label is the index, in the final symbol table, of the symbol it labels.
pub proof fn lemma_labels<A>(syms: Seq<A>, s: Seq<A>)
    requires
        syms.no_duplicates(),
    ensures
        labels(syms, s).len() == s.len(),
        forall|i: int|
            0 <= i < s.len() ==> 0 <= #[trigger] labels(syms, s)[i] < syms_after(syms, s).len()
                && syms_after(syms, s)[labels(syms, s)[i]] == s[i],
    decreases s.len(),
{
    lemma_syms_after(syms, s);
    if s.len() > 0 {
        lemma_labels(syms, s.drop_last());
        lemma_syms_after(syms, s.drop_last());
        let r = syms_after(syms, s);
        assert(r.contains(s.last()));
        let k = r.index_of(s.last());
        assert(0 <= k < r.len() && r[k] == s.last());
    }
}

/// Equal symbols get equal labels, and distinct symbols distinct labels.
pub proof fn lemma_labels_shape<A>(syms: Seq<A>, s: Seq<A>)
    requires
        syms.no_duplicates(),
    ensures
        same_shape(s, labels(syms, s)),
{
    lemma_labels(syms, s);
    lemma_syms_after(syms, s);
}

/// Equal labels from tables of equal length leave tables of equal length.
pub proof fn lemma_labels_len<A, B>(sa: Seq<A>, a: Seq<A>, sb: Seq<B>, b: Seq<B>)
    requires
        sa.no_duplicates(),
        sb.no_duplicates(),
        sa.len() == sb.len(),
        labels(sa, a) == labels(sb, b),
    ensures
        syms_after(sa, a).len() == syms_after(sb, b).len(),
    decreases a.len(),
{
    lemma_labels(sa, a);
    lemma_labels(sb, b);
    if a.len() > 0 {
        assert(labels(sa, a.drop_last()) == labels(sa, a).drop_last());
        assert(labels(sb, b.drop_last()) == labels(sb, b).drop_last());
        lemma_labels_len(sa, a.drop_last(), sb, b.drop_last());
        lemma_syms_after(sa, a.drop_last());
        lemma_syms_after(sb, b.drop_last());
        let ra = syms_after(sa, a.drop_last());
        let rb = syms_after(sb, b.drop_last());
        let la = syms_after(sa, a).index_of(a.last());
        let lb = syms_after(sb, b).index_of(b.last());
        assert(la == labels(sa, a)[a.len() - 1]);
        assert(lb == labels(sb, b)[b.len() - 1]);
        if ra.contains(a.last()) {
            let i = choose|i: int| 0 <= i < ra.len() && ra[i] == a.last();
            assert(syms_after(sa, a)[i] == a.last());
        } else {
            assert(syms_after(sa, a)[ra.len() as int] == a.last());
        }
        if rb.contains(b.last()) {
            let i = choose|i: int| 0 <= i < rb.len() && rb[i] == b.last();
            assert(syms_after(sb, b)[i] == b.last());
        } else {
            assert(syms_after(sb, b)[rb.len() as int] == b.last());
        }
    }
}

/// Reading `a` then `b` is reading their concatenation.
pub proof fn lemma_labels_concat<A>(syms: Seq<A>, a: Seq<A>, b: Seq<A>)
    ensures
        syms_after(syms, a + b) == syms_after(syms_after(syms, a), b),
        labels(syms, a + b) == labels(syms, a) + labels(syms_after(syms, a), b),
    decreases b.len(),
{
    if b.len() == 0 {
        assert(a + b =~= a);
        assert(labels(syms, a) + labels(syms_after(syms, a), b) =~= labels(syms, a));
    } else {
        lemma_labels_concat(syms, a, b.drop_last());
        assert((a + b).drop_last() =~= a + b.drop_last());
        assert((a + b).last() == b.last());
        assert(labels(syms, a + b) =~= labels(syms, a) + labels(syms_after(syms, a), b));
    }
}

/// Sequences of the same shape read from empty tables give tables of equal
/// length and equal labels.
proof fn lemma_shape_labels<A, B>(s: Seq<A>, t: Seq<B>)
    requires
        same_shape(s, t),
    ensures
        labels(Seq::<A>::empty(), s) == labels(Seq::<B>::empty(), t),
        syms_after(Seq::<A>::empty(), s).len() == syms_after(Seq::<B>::empty(), t).len(),
    decreases s.len(),
{
    let es = Seq::<A>::empty();
    let et = Seq::<B>::empty();
    if s.len() > 0 {
        let s0 = s.drop_last();
        let t0 = t.drop_last();
        assert(same_shape(s0, t0));
        lemma_shape_labels(s0, t0);
        lemma_labels(es, s0);
        lemma_labels(et, t0);
        lemma_syms_after(es, s0);
        lemma_syms_after(et, t0);
        lemma_syms_after(es, s);
        lemma_syms_after(et, t);
        let rs0 = syms_after(es, s0);
        let rt0 = syms_after(et, t0);
        let rs = syms_after(es, s);
        let rt = syms_after(et, t);
        let n = s.len() - 1;
        if s0.contains(s.last()) {
            let p = choose|p: int| 0 <= p < s0.len() && s0[p] == s.last();
            assert(s[p] == s[n]);
            assert(t[p] == t[n]);
            assert(t0.contains(t.last())) by {
                assert(t0[p] == t.last());
            }
            assert(rs0.contains(s.last()));
            assert(rt0.contains(t.last()));
            assert(rs == rs0);
            assert(rt == rt0);
            let ls = labels(es, s0)[p];
            assert(rs[ls] == s.last());
            assert(rs.index_of(s.last()) == ls);
            assert(rt.index_of(t.last()) == ls);
        } else {
            assert(!t0.contains(t.last())) by {
                if t0.contains(t.last()) {
                    let p = choose|p: int| 0 <= p < t0.len() && t0[p] == t.last();
                    assert(t[p] == t[n]);
                    assert(s0[p] == s.last());
                }
            }
            assert(!rs0.contains(s.last()));
            assert(!rt0.contains(t.last()));
            assert(rs == rs0.push(s.last()));
            assert(rt == rt0.push(t.last()));
            assert(rs[rs0.len() as int] == s.last());
            assert(rs.index_of(s.last()) == rs0.len());
            assert(rt[rt0.len() as int] == t.last());
            assert(rt.index_of(t.last()) == rt0.len());
        }
        assert(labels(es, s) =~= labels(et, t));
    }
}

/// Two sequences have equal canonical patterns exactly when they repeat
/// their symbols at the same positions, that is when a one-to-one
/// renaming of symbols turns one into the other.
pub proof fn lemma_pattern_equivalence<A, B>(s: Seq<A>, t: Seq<B>)
    ensures
        pattern(s) == pattern(t) <==> same_shape(s, t),
{
    let es = Seq::<A>::empty();
    let et = Seq::<B>::empty();
    if same_shape(s, t) {
        lemma_shape_labels(s, t);
    }
    if pattern(s) == pattern(t) {
        lemma_labels_shape(es, s);
        lemma_labels_shape(et, t);
    }
}

/// `f` renames the symbols of `s` one-to-one into those of `t`, position
/// by position.
pub open spec fn renames<A, B>(f: spec_fn(A) -> B, s: Seq<A>, t: Seq<B>) -> bool {
    &&& s.len() == t.len()
    &&& forall|i: int| 0 <= i < s.len() ==> #[trigger] f(s[i]) == t[i]
    &&& forall|i: int, j: int| 0 <= i < s.len() && 0 <= j < s.len() && f(s[i]) == f(s[j]) ==> s[i] == s[j]
}

/// Two sequences have equal canonical patterns exactly when some renaming
/// of symbols, one-to-one on the symbols of the first, turns the first into
/// the second.
pub proof fn lemma_pattern_bijection<A, B>(s: Seq<A>, t: Seq<B>)
    ensures
        pattern(s) == pattern(t) <==> exists|f: spec_fn(A) -> B| #[trigger] renames(f, s, t),
{
    lemma_pattern_equivalence(s, t);
    if same_shape(s, t) {
        let f = |x: A|
            if exists|i: int| 0 <= i < s.len() && s[i] == x {
                t[choose|i: int| 0 <= i < s.len() && s[i] == x]
            } else {
                arbitrary()
            };
        assert forall|i: int| 0 <= i < s.len() implies #[trigger] f(s[i]) == t[i] by {
            let k = choose|k: int| 0 <= k < s.len() && s[k] == s[i];
            assert(t[k] == t[i]);
        }
        assert(renames(f, s, t));
    }
    if exists|f: spec_fn(A) -> B| #[trigger] renames(f, s, t) {
        let f = choose|f: spec_fn(A) -> B| #[trigger] renames(f, s, t);
        assert forall|i: int, j: int| 0 <= i < s.len() && 0 <= j < s.len() implies (s[i] == s[j] <==> t[i] == t[j]) by {
            assert(f(s[i]) == t[i]);
            assert(f(s[j]) == t[j]);
        }
    }
}

/// Canonicalising an already canonical pattern with a fresh table leaves it
/// unchanged.
pub proof fn lemma_pattern_idempotent<A>(s: Seq<A>)
    ensures
        pattern(pattern(s)) == pattern(s),
{
    lemma_labels_shape(Seq::<A>::empty(), s);
    lemma_pattern_equivalence(pattern(s), s);
}


/// The characters of `s`, in order.
pub fn chars_of(s: &str) -> (r: Vec<char>)
    ensures
        r@ == s@,
{
    let mut r: Vec<char> = Vec::new();
    for c in it: s.chars()
        invariant
            r@ == it.seq().take(it.index() as int),
            it.seq() == s@,
    {
        r.push(c);
    }
    proof {
        assert(r@ =~= s@);
    }
    r
}

fn find_char(map: &Vec<char>, c: char) -> (r: Option<usize>)
    ensures
        r matches Some(j) ==> j < map@.len() && map@[j as int] == c,
        r is None ==> !map@.contains(c),
{
    let mut j: usize = 0;
    while j < map.len()
        invariant
            j <= map@.len(),
            forall|k: int| 0 <= k < j ==> map@[k] != c,
        decreases map@.len() - j,
    {
        if map[j] == c {
            return Some(j);
        }
        j = j + 1;
    }
    None
}

fn find_label(map: &Vec<usize>, c: usize) -> (r: Option<usize>)
    ensures
        r matches Some(j) ==> j < map@.len() && map@[j as int] == c,
        r is None ==> !map@.contains(c),
{
    let mut j: usize = 0;
    while j < map.len()
        invariant
            j <= map@.len(),
            forall|k: int| 0 <= k < j ==> map@[k] != c,
        decreases map@.len() - j,
    {
        if map[j] == c {
            return Some(j);
        }
        j = j + 1;
    }
    None
}

/// Labels the characters of `s` against the symbol table `map`, appending
/// to the table each character not seen yet. The table doubles as the
/// inverse map: the symbol of label `k` is `map[k]`, so cutting it back to
/// an earlier length undoes the labels given since.
pub fn relative_representation(s: &Vec<char>, map: &mut Vec<char>) -> (res: Vec<usize>)
    requires
        old(map)@.no_duplicates(),
    ensures
        final(map)@ == syms_after(old(map)@, s@),
        final(map)@.no_duplicates(),
        ints(res@) == labels(old(map)@, s@),
{
    let ghost syms0 = map@;
    let mut res: Vec<usize> = Vec::new();
    let mut i: usize = 0;
    while i < s.len()
        invariant
            i <= s@.len(),
            syms0.no_duplicates(),
            map@ == syms_after(syms0, s@.take(i as int)),
            ints(res@) == labels(syms0, s@.take(i as int)),
        decreases s@.len() - i,
    {
        let c = s[i];
        proof {
            lemma_syms_after(syms0, s@.take(i as int));
            assert(s@.take(i + 1).drop_last() =~= s@.take(i as int));
            assert(s@.take(i + 1).last() == c);
        }
        let l = match find_char(map, c) {
            Some(j) => j,
            None => {
                let n = map.len();
                map.push(c);
                n
            },
        };
        proof {
            let r = syms_after(syms0, s@.take(i + 1));
            assert(map@ == r);
            lemma_syms_after(syms0, s@.take(i + 1));
            assert(r[l as int] == c);
            assert(r.index_of(c) == l);
        }
        res.push(l);
        i = i + 1;
        proof {
            assert(ints(res@) =~= labels(syms0, s@.take(i as int)));
        }
    }
    proof {
        assert(s@.take(s@.len() as int) =~= s@);
        lemma_syms_after(syms0, s@);
    }
    res
}

/// The canonical pattern of a sequence of labels, read with a fresh table.
pub fn relative_pattern(p: &Vec<usize>) -> (res: Vec<usize>)
    ensures
        ints(res@) == pattern(p@),
{
    let ghost e = Seq::<usize>::empty();
    let mut map: Vec<usize> = Vec::new();
    let mut res: Vec<usize> = Vec::new();
    let mut i: usize = 0;
    proof {
        assert(map@ =~= e);
        assert(e.no_duplicates());
    }
    while i < p.len()
        invariant
            i <= p@.len(),
            e.no_duplicates(),
            map@ == syms_after(e, p@.take(i as int)),
            ints(res@) == labels(e, p@.take(i as int)),
        decreases p@.len() - i,
    {
        let c = p[i];
        proof {
            lemma_syms_after(e, p@.take(i as int));
            assert(p@.take(i + 1).drop_last() =~= p@.take(i as int));
            assert(p@.take(i + 1).last() == c);
        }
        let l = match find_label(&map, c) {
            Some(j) => j,
            None => {
                let n = map.len();
                map.push(c);
                n
            },
        };
        proof {
            let r = syms_after(e, p@.take(i + 1));
            assert(map@ == r);
            lemma_syms_after(e, p@.take(i + 1));
            assert(r[l as int] == c);
            assert(r.index_of(c) == l);
        }
        res.push(l);
        i = i + 1;
        proof {
            assert(ints(res@) =~= labels(e, p@.take(i as int)));
        }
    }
    proof {
        assert(p@.take(p@.len() as int) =~= p@);
    }
    res
}

} // verus!
