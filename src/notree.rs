//! A trie over letter sets that answers "every value whose letters avoid
//! these letters".

use vstd::prelude::*;

verus! {

/// No letter of `a` is in `b`.
pub open spec fn disjoint(a: Seq<char>, b: Seq<char>) -> bool {
    forall|c: char| a.contains(c) ==> !b.contains(c)
}

/// Entries stored under one more leading letter.
pub open spec fn prefixed<V>(c: char, es: Seq<(Seq<char>, V)>) -> Seq<(Seq<char>, V)> {
    es.map_values(|e: (Seq<char>, V)| (seq![c] + e.0, e.1))
}

/// Values stored at a node itself, with the empty key.
pub open spec fn leaf_entries<V>(vs: Seq<V>) -> Seq<(Seq<char>, V)> {
    vs.map_values(|v: V| (Seq::<char>::empty(), v))
}

/// The values of the entries whose key avoids every letter of `excl`, in
/// the order of the entries.
pub open spec fn allowed<V>(es: Seq<(Seq<char>, V)>, excl: Seq<char>) -> Seq<V>
    decreases es.len(),
{
    if es.len() == 0 {
        Seq::empty()
    } else {
        allowed(es.drop_last(), excl) + if disjoint(es.last().0, excl) {
            seq![es.last().1]
        } else {
            Seq::empty()
        }
    }
}

/// A node of the trie: values whose key ends here, and children, each under
/// the next letter of the key.
pub struct Notree<V> {
    nodes: Vec<(char, Notree<V>)>,
    leafs: Vec<V>,
}

/// The entries below a list of children, child after child.
pub closed spec fn nodes_entries<V>(ns: Seq<(char, Notree<V>)>) -> Seq<(Seq<char>, V)>
    decreases ns,
{
    if ns.len() == 0 {
        Seq::empty()
    } else {
        nodes_entries(ns.drop_last()) + prefixed(ns.last().0, ns.last().1.entries())
    }
}

impl<V> Notree<V> {
    /// At every node the children's letters increase strictly.
    pub closed spec fn sorted(self) -> bool
        decreases self,
    {
        &&& forall|i: int, j: int| 0 <= i < j < self.nodes@.len() ==> self.nodes@[i].0 < self.nodes@[j].0
        &&& forall|i: int| 0 <= i < self.nodes@.len() ==> (#[trigger] self.nodes@[i]).1.sorted()
    }

    /// Every (key, value) pair stored: the values of this node first, then
    /// those of each child.
    pub closed spec fn entries(self) -> Seq<(Seq<char>, V)>
        decreases self,
    {
        leaf_entries(self.leafs@) + nodes_entries(self.nodes@)
    }
}

proof fn lemma_allowed_concat<V>(a: Seq<(Seq<char>, V)>, b: Seq<(Seq<char>, V)>, excl: Seq<char>)
    ensures
        allowed(a + b, excl) == allowed(a, excl) + allowed(b, excl),
    decreases b.len(),
{
    if b.len() == 0 {
        assert(a + b =~= a);
        assert(allowed(a, excl) + allowed(b, excl) =~= allowed(a, excl));
    } else {
        lemma_allowed_concat(a, b.drop_last(), excl);
        assert((a + b).drop_last() =~= a + b.drop_last());
        assert((a + b).last() == b.last());
        assert(allowed(a + b, excl) =~= allowed(a, excl) + allowed(b, excl));
    }
}

proof fn lemma_allowed_prefixed<V>(c: char, es: Seq<(Seq<char>, V)>, excl: Seq<char>)
    ensures
        allowed(prefixed(c, es), excl) == if excl.contains(c) {
            Seq::<V>::empty()
        } else {
            allowed(es, excl)
        },
    decreases es.len(),
{
    if es.len() > 0 {
        lemma_allowed_prefixed(c, es.drop_last(), excl);
        assert(prefixed(c, es).drop_last() =~= prefixed(c, es.drop_last()));
        let k = es.last().0;
        let pk = seq![c] + k;
        assert(pk[0] == c);
        assert forall|x: char| pk.contains(x) <==> (x == c || k.contains(x)) by {
            if k.contains(x) {
                let i = choose|i: int| 0 <= i < k.len() && k[i] == x;
                assert(pk[i + 1] == x);
            }
            if pk.contains(x) && x != c {
                let i = choose|i: int| 0 <= i < pk.len() && pk[i] == x;
                assert(k[i - 1] == x);
            }
        }
        assert(disjoint(pk, excl) <==> (!excl.contains(c) && disjoint(k, excl)));
    } else {
        assert(prefixed(c, es) =~= Seq::<(Seq<char>, V)>::empty());
    }
}

proof fn lemma_allowed_leaves<V>(vs: Seq<V>, excl: Seq<char>)
    ensures
        allowed(leaf_entries(vs), excl) == vs,
    decreases vs.len(),
{
    if vs.len() > 0 {
        lemma_allowed_leaves(vs.drop_last(), excl);
        assert(leaf_entries(vs).drop_last() =~= leaf_entries(vs.drop_last()));
        assert(vs.drop_last().push(vs.last()) =~= vs);
    } else {
        assert(leaf_entries(vs) =~= Seq::<(Seq<char>, V)>::empty());
    }
}

proof fn lemma_concat_contains<A>(a: Seq<A>, b: Seq<A>, e: A)
    ensures
        (a + b).contains(e) <==> (a.contains(e) || b.contains(e)),
{
    if (a + b).contains(e) {
        let i = choose|i: int| 0 <= i < (a + b).len() && (a + b)[i] == e;
        if i >= a.len() {
            assert(b[i - a.len()] == e);
        }
    }
    if b.contains(e) {
        let i = choose|i: int| 0 <= i < b.len() && b[i] == e;
        assert((a + b)[i + a.len()] == e);
    }
    if a.contains(e) {
        let i = choose|i: int| 0 <= i < a.len() && a[i] == e;
        assert((a + b)[i] == e);
    }
}

/// A value is allowed exactly when some entry holds it under a key that
/// avoids `excl`.
pub proof fn lemma_allowed_contains<V>(es: Seq<(Seq<char>, V)>, excl: Seq<char>, v: V)
    ensures
        allowed(es, excl).contains(v) <==> exists|k: Seq<char>|
            #[trigger] es.contains((k, v)) && disjoint(k, excl),
    decreases es.len(),
{
    if es.len() > 0 {
        let e = es.last();
        let tail: Seq<V> = if disjoint(e.0, excl) {
            seq![e.1]
        } else {
            Seq::empty()
        };
        lemma_allowed_contains(es.drop_last(), excl, v);
        lemma_concat_contains(allowed(es.drop_last(), excl), tail, v);
        assert(es.drop_last().push(e) =~= es);
        if exists|k: Seq<char>| #[trigger] es.contains((k, v)) && disjoint(k, excl) {
            let k = choose|k: Seq<char>| #[trigger] es.contains((k, v)) && disjoint(k, excl);
            lemma_contains_last(es, (k, v));
            if (k, v) == e {
                assert(tail[0] == v);
            }
        }
        if exists|k: Seq<char>| #[trigger] es.drop_last().contains((k, v)) && disjoint(k, excl) {
            let k = choose|k: Seq<char>| #[trigger] es.drop_last().contains((k, v)) && disjoint(k, excl);
            lemma_contains_last(es, (k, v));
        }
        if tail.contains(v) {
            assert(es.contains((e.0, v))) by {
                assert(es[es.len() - 1] == e);
            }
        }
    }
}

proof fn lemma_contains_last<A>(s: Seq<A>, x: A)
    requires
        s.len() > 0,
    ensures
        s.contains(x) <==> (s.drop_last().contains(x) || x == s.last()),
{
    if s.contains(x) {
        let i = choose|i: int| 0 <= i < s.len() && s[i] == x;
        if i < s.len() - 1 {
            assert(s.drop_last()[i] == x);
        }
    }
    if s.drop_last().contains(x) {
        let i = choose|i: int| 0 <= i < s.len() - 1 && s.drop_last()[i] == x;
        assert(s[i] == x);
    }
    if x == s.last() {
        assert(s[s.len() - 1] == x);
    }
}

proof fn lemma_nodes_concat<V>(a: Seq<(char, Notree<V>)>, b: Seq<(char, Notree<V>)>)
    ensures
        nodes_entries(a + b) == nodes_entries(a) + nodes_entries(b),
    decreases b.len(),
{
    if b.len() == 0 {
        assert(a + b =~= a);
        assert(nodes_entries(b) =~= Seq::<(Seq<char>, V)>::empty());
        assert(nodes_entries(a) + nodes_entries(b) =~= nodes_entries(a));
    } else {
        lemma_nodes_concat(a, b.drop_last());
        assert((a + b).drop_last() =~= a + b.drop_last());
        assert((a + b).last() == b.last());
        assert(nodes_entries(a + b) =~= nodes_entries(a) + nodes_entries(b));
    }
}

proof fn lemma_nodes_single<V>(x: (char, Notree<V>))
    ensures
        nodes_entries(seq![x]) == prefixed(x.0, x.1.entries()),
{
    assert(seq![x].drop_last() =~= Seq::<(char, Notree<V>)>::empty());
    assert(nodes_entries(Seq::<(char, Notree<V>)>::empty()) =~= Seq::<(Seq<char>, V)>::empty());
    assert(Seq::<(Seq<char>, V)>::empty() + prefixed(x.0, x.1.entries()) =~= prefixed(x.0, x.1.entries()));
}

/// The entries below `ns` split around child `i`.
proof fn lemma_nodes_split<V>(ns: Seq<(char, Notree<V>)>, i: int)
    requires
        0 <= i < ns.len(),
    ensures
        nodes_entries(ns) == nodes_entries(ns.take(i)) + prefixed(ns[i].0, ns[i].1.entries())
            + nodes_entries(ns.skip(i + 1)),
{
    assert(ns =~= ns.take(i) + seq![ns[i]] + ns.skip(i + 1));
    lemma_nodes_concat(ns.take(i) + seq![ns[i]], ns.skip(i + 1));
    lemma_nodes_concat(ns.take(i), seq![ns[i]]);
    lemma_nodes_single(ns[i]);
}

/// No two entries hold the same value.
pub open spec fn values_distinct<V>(es: Seq<(Seq<char>, V)>) -> bool {
    forall|x: int, y: int| 0 <= x < y < es.len() ==> #[trigger] es[x].1 != #[trigger] es[y].1
}

/// Inserting an entry whose value no entry holds keeps the values distinct.
pub proof fn lemma_insert_distinct<V>(es: Seq<(Seq<char>, V)>, pos: int, e: (Seq<char>, V))
    requires
        values_distinct(es),
        0 <= pos <= es.len(),
        forall|i: int| 0 <= i < es.len() ==> #[trigger] es[i].1 != e.1,
    ensures
        values_distinct(es.insert(pos, e)),
{
    let n = es.insert(pos, e);
    assert forall|x: int, y: int| 0 <= x < y < n.len() implies #[trigger] n[x].1 != #[trigger] n[y].1 by {
        if x < pos {
            if y < pos {
                assert(n[x] == es[x] && n[y] == es[y]);
            } else if y == pos {
                assert(n[x] == es[x]);
            } else {
                assert(n[x] == es[x] && n[y] == es[y - 1]);
            }
        } else if x == pos {
            assert(n[y] == es[y - 1]);
        } else {
            assert(n[x] == es[x - 1] && n[y] == es[y - 1]);
        }
    }
}

/// The values allowed from entries of distinct values are distinct.
pub proof fn lemma_allowed_distinct<V>(es: Seq<(Seq<char>, V)>, excl: Seq<char>)
    requires
        values_distinct(es),
    ensures
        allowed(es, excl).no_duplicates(),
    decreases es.len(),
{
    if es.len() > 0 {
        let e = es.last();
        let d = es.drop_last();
        assert(values_distinct(d)) by {
            assert forall|x: int, y: int| 0 <= x < y < d.len() implies #[trigger] d[x].1 != #[trigger] d[y].1 by {
                assert(d[x] == es[x] && d[y] == es[y]);
            }
        }
        lemma_allowed_distinct(d, excl);
        let a0 = allowed(d, excl);
        if disjoint(e.0, excl) {
            lemma_allowed_contains(d, excl, e.1);
            assert(!a0.contains(e.1)) by {
                if a0.contains(e.1) {
                    let k = choose|k: Seq<char>| #[trigger] d.contains((k, e.1)) && disjoint(k, excl);
                    let i = choose|i: int| 0 <= i < d.len() && d[i] == (k, e.1);
                    assert(es[i].1 == es[es.len() - 1].1);
                }
            }
            let a = allowed(es, excl);
            assert(a =~= a0.push(e.1));
            assert forall|x: int, y: int| 0 <= x < a.len() && 0 <= y < a.len() && x != y implies a[x] != a[y] by {
                if x == a.len() - 1 {
                    assert(a0.contains(a[y]));
                } else if y == a.len() - 1 {
                    assert(a0.contains(a[x]));
                }
            }
        } else {
            assert(allowed(es, excl) =~= a0);
        }
    }
}

/// `a` comes before `b`, or equals it: a prefix comes first, and otherwise
/// the first letter that differs decides.
pub open spec fn key_before(a: Seq<char>, b: Seq<char>) -> bool
    decreases a.len(),
{
    if a.len() == 0 {
        true
    } else if b.len() == 0 {
        false
    } else if a[0] != b[0] {
        a[0] < b[0]
    } else {
        key_before(a.drop_first(), b.drop_first())
    }
}

/// Position `pos` of `es` comes after every key up to `key` and before
/// every key past it.
pub open spec fn inserted_at<V>(es: Seq<(Seq<char>, V)>, pos: int, key: Seq<char>) -> bool {
    &&& forall|x: int| 0 <= x < pos ==> key_before(#[trigger] es[x].0, key)
    &&& forall|x: int| pos <= x < es.len() ==> !key_before(#[trigger] es[x].0, key)
}

proof fn lemma_key_before_cons(c: char, x: Seq<char>, y: Seq<char>)
    ensures
        key_before(seq![c] + x, seq![c] + y) == key_before(x, y),
{
    assert((seq![c] + x).drop_first() =~= x);
    assert((seq![c] + y).drop_first() =~= y);
}

proof fn lemma_insert_contains<A>(es: Seq<A>, pos: int, x: A, e: A)
    requires
        0 <= pos <= es.len(),
    ensures
        es.insert(pos, x).contains(e) <==> (es.contains(e) || e == x),
{
    let n = es.insert(pos, x);
    if n.contains(e) {
        let i = choose|i: int| 0 <= i < n.len() && n[i] == e;
        if i < pos {
            assert(es[i] == e);
        } else if i > pos {
            assert(es[i - 1] == e);
        }
    }
    if es.contains(e) {
        let i = choose|i: int| 0 <= i < es.len() && es[i] == e;
        if i < pos {
            assert(n[i] == e);
        } else {
            assert(n[i + 1] == e);
        }
    }
    if e == x {
        assert(n[pos] == e);
    }
}

/// Every key below a list of children starts with one of their letters.
proof fn lemma_nodes_keys<V>(ns: Seq<(char, Notree<V>)>)
    ensures
        forall|x: int|
            0 <= x < nodes_entries(ns).len() ==> (#[trigger] nodes_entries(ns)[x]).0.len() > 0 && exists|k: int|
                0 <= k < ns.len() && nodes_entries(ns)[x].0[0] == ns[k].0,
    decreases ns.len(),
{
    if ns.len() > 0 {
        lemma_nodes_keys(ns.drop_last());
        let a = nodes_entries(ns.drop_last());
        let pc = prefixed(ns.last().0, ns.last().1.entries());
        assert forall|x: int| 0 <= x < nodes_entries(ns).len() implies (#[trigger] nodes_entries(ns)[x]).0.len() > 0
            && exists|k: int| 0 <= k < ns.len() && nodes_entries(ns)[x].0[0] == ns[k].0 by {
            if x < a.len() {
                assert(nodes_entries(ns)[x] == a[x]);
                let k = choose|k: int| 0 <= k < ns.len() - 1 && a[x].0[0] == ns.drop_last()[k].0;
                assert(ns[k] == ns.drop_last()[k]);
            } else {
                assert(nodes_entries(ns)[x] == pc[x - a.len()]);
                assert(pc[x - a.len()].0 == seq![ns.last().0] + ns.last().1.entries()[x - a.len()].0);
                assert(ns[ns.len() - 1] == ns.last());
            }
        }
    }
}

/// Adding under the child of letter `c` inserts the entry after every key
/// up to it and before every key past it.
proof fn lemma_add_child<V>(
    ot: Notree<V>,
    t: Notree<V>,
    idx: int,
    c: char,
    oc: Notree<V>,
    nc: Notree<V>,
    ks1: Seq<char>,
    value: V,
    was_there: bool,
)
    requires
        ot.sorted(),
        t.leafs@ == ot.leafs@,
        0 <= idx <= ot.nodes@.len(),
        forall|k: int| 0 <= k < idx ==> ot.nodes@[k].0 < c,
        idx < ot.nodes@.len() ==> ot.nodes@[idx].0 >= c,
        was_there ==> idx < ot.nodes@.len() && ot.nodes@[idx].0 == c && ot.nodes@[idx].1 == oc
            && t.nodes@ == ot.nodes@.update(idx, (c, nc)),
        !was_there ==> (idx < ot.nodes@.len() ==> ot.nodes@[idx].0 != c) && oc.entries() == Seq::<(Seq<char>, V)>::empty()
            && t.nodes@ == ot.nodes@.insert(idx, (c, nc)),
        exists|p: int|
            0 <= p <= oc.entries().len() && nc.entries() == #[trigger] oc.entries().insert(p, (ks1, value))
                && inserted_at(oc.entries(), p, ks1),
    ensures
        exists|pos: int|
            0 <= pos <= ot.entries().len() && t.entries() == #[trigger] ot.entries().insert(pos, (seq![c] + ks1, value))
                && inserted_at(ot.entries(), pos, seq![c] + ks1),
{
    let p = choose|p: int|
        0 <= p <= oc.entries().len() && nc.entries() == #[trigger] oc.entries().insert(p, (ks1, value))
            && inserted_at(oc.entries(), p, ks1);
    lemma_child_eq(ot, t, idx, c, oc, nc, ks1, value, was_there, p);
    lemma_child_order(ot, idx, c, oc, ks1, was_there, p);
    let pos = leaf_entries(ot.leafs@).len() + nodes_entries(ot.nodes@.take(idx)).len() + p;
    assert(t.entries() == ot.entries().insert(pos, (seq![c] + ks1, value)));
}

proof fn lemma_child_eq<V>(
    ot: Notree<V>,
    t: Notree<V>,
    idx: int,
    c: char,
    oc: Notree<V>,
    nc: Notree<V>,
    ks1: Seq<char>,
    value: V,
    was_there: bool,
    p: int,
)
    requires
        t.leafs@ == ot.leafs@,
        0 <= idx <= ot.nodes@.len(),
        was_there ==> idx < ot.nodes@.len() && ot.nodes@[idx].0 == c && ot.nodes@[idx].1 == oc
            && t.nodes@ == ot.nodes@.update(idx, (c, nc)),
        !was_there ==> oc.entries() == Seq::<(Seq<char>, V)>::empty() && t.nodes@ == ot.nodes@.insert(idx, (c, nc)),
        0 <= p <= oc.entries().len(),
        nc.entries() == oc.entries().insert(p, (ks1, value)),
    ensures
        t.entries() == ot.entries().insert(
            leaf_entries(ot.leafs@).len() + nodes_entries(ot.nodes@.take(idx)).len() + p,
            (seq![c] + ks1, value),
        ),
        ot.entries() == leaf_entries(ot.leafs@) + (nodes_entries(ot.nodes@.take(idx)) + prefixed(c, oc.entries())
            + nodes_entries(ot.nodes@.skip(if was_there { idx + 1 } else { idx }))),
{
    let ns = ot.nodes@;
    let nn = t.nodes@;
    let xk = (seq![c] + ks1, value);
    assert(prefixed(c, nc.entries()) =~= prefixed(c, oc.entries()).insert(p, xk));
    let le = leaf_entries(ot.leafs@);
    let a = nodes_entries(ns.take(idx));
    let pc = prefixed(c, oc.entries());
    let s0 = if was_there { idx + 1 } else { idx };
    let bb = nodes_entries(ns.skip(s0));
    if was_there {
        lemma_nodes_split(ns, idx);
        lemma_nodes_split(nn, idx);
        assert(nn.take(idx) =~= ns.take(idx));
        assert(nn.skip(idx + 1) =~= ns.skip(idx + 1));
    } else {
        assert(nn =~= ns.take(idx) + seq![(c, nc)] + ns.skip(idx));
        assert(ns =~= ns.take(idx) + ns.skip(idx));
        lemma_nodes_concat(ns.take(idx) + seq![(c, nc)], ns.skip(idx));
        lemma_nodes_concat(ns.take(idx), seq![(c, nc)]);
        lemma_nodes_concat(ns.take(idx), ns.skip(idx));
        lemma_nodes_single((c, nc));
        assert(pc =~= Seq::<(Seq<char>, V)>::empty());
        assert(a + pc + bb =~= a + bb);
    }
    assert(t.entries() == le + (a + pc.insert(p, xk) + bb));
    assert(le + (a + pc.insert(p, xk) + bb) =~= (le + (a + pc + bb)).insert(le.len() + a.len() + p, xk));
}

proof fn lemma_child_order<V>(ot: Notree<V>, idx: int, c: char, oc: Notree<V>, ks1: Seq<char>, was_there: bool, p: int)
    requires
        ot.sorted(),
        0 <= idx <= ot.nodes@.len(),
        forall|k: int| 0 <= k < idx ==> ot.nodes@[k].0 < c,
        idx < ot.nodes@.len() ==> ot.nodes@[idx].0 >= c,
        was_there ==> idx < ot.nodes@.len() && ot.nodes@[idx].0 == c,
        !was_there ==> (idx < ot.nodes@.len() ==> ot.nodes@[idx].0 != c) && oc.entries() == Seq::<(Seq<char>, V)>::empty(),
        0 <= p <= oc.entries().len(),
        inserted_at(oc.entries(), p, ks1),
        ot.entries() == leaf_entries(ot.leafs@) + (nodes_entries(ot.nodes@.take(idx)) + prefixed(c, oc.entries())
            + nodes_entries(ot.nodes@.skip(if was_there { idx + 1 } else { idx }))),
    ensures
        inserted_at(
            ot.entries(),
            leaf_entries(ot.leafs@).len() + nodes_entries(ot.nodes@.take(idx)).len() + p,
            seq![c] + ks1,
        ),
{
    let ns = ot.nodes@;
    let ks = seq![c] + ks1;
    let le = leaf_entries(ot.leafs@);
    let a = nodes_entries(ns.take(idx));
    let pc = prefixed(c, oc.entries());
    let s0 = if was_there { idx + 1 } else { idx };
    let bb = nodes_entries(ns.skip(s0));
    let pos = le.len() + a.len() + p;
    let oe = ot.entries();
    assert(ks[0] == c);
    lemma_nodes_keys(ns.take(idx));
    lemma_nodes_keys(ns.skip(s0));
    assert forall|x: int| 0 <= x < pos implies key_before(#[trigger] oe[x].0, ks) by {
        if x < le.len() {
            assert(oe[x] == le[x]);
        } else if x < le.len() + a.len() {
            assert(oe[x] == a[x - le.len()]);
            let k = choose|k: int| 0 <= k < ns.take(idx).len() && a[x - le.len()].0[0] == ns.take(idx)[k].0;
            assert(ns.take(idx)[k] == ns[k]);
        } else {
            let y = x - le.len() - a.len();
            assert(oe[x] == pc[y]);
            assert(key_before(oc.entries()[y].0, ks1));
            lemma_key_before_cons(c, oc.entries()[y].0, ks1);
        }
    }
    assert forall|x: int| pos <= x < oe.len() implies !key_before(#[trigger] oe[x].0, ks) by {
        if x < le.len() + a.len() + pc.len() {
            let y = x - le.len() - a.len();
            assert(oe[x] == pc[y]);
            assert(!key_before(oc.entries()[y].0, ks1));
            lemma_key_before_cons(c, oc.entries()[y].0, ks1);
        } else {
            let z = x - le.len() - a.len() - pc.len();
            assert(oe[x] == bb[z]);
            let k = choose|k: int| 0 <= k < ns.skip(s0).len() && bb[z].0[0] == ns.skip(s0)[k].0;
            assert(ns.skip(s0)[k] == ns[s0 + k]);
            assert(ns[s0 + k].0 > c) by {
                if s0 + k > idx {
                    assert(ns[idx].0 < ns[s0 + k].0);
                }
            }
        }
    }
}

impl<V: Copy> Notree<V> {
    /// An empty trie.
    pub fn new() -> (r: Self)
        ensures
            r.entries() == Seq::<(Seq<char>, V)>::empty(),
            r.sorted(),
    {
        let r = Notree { nodes: Vec::new(), leafs: Vec::new() };
        proof {
            assert(r.entries() =~= Seq::<(Seq<char>, V)>::empty());
        }
        r
    }

    /// Stores `value` under the letters `key`.
    pub fn add(&mut self, key: &Vec<char>, value: V)
        requires
            old(self).sorted(),
        ensures
            final(self).sorted(),
            forall|k: Seq<char>, v: V|
                #[trigger] final(self).entries().contains((k, v)) <==> (old(self).entries().contains((k, v))
                    || (k == key@ && v == value)),
            exists|pos: int|
                0 <= pos <= old(self).entries().len() && final(self).entries() == #[trigger] old(
                    self,
                ).entries().insert(pos, (key@, value)) && inserted_at(old(self).entries(), pos, key@),
    {
        let ghost o = self.entries();
        self.add_at(key, 0, value);
        proof {
            assert(key@.skip(0) =~= key@);
            let pos = choose|pos: int|
                0 <= pos <= o.len() && self.entries() == #[trigger] o.insert(pos, (key@, value)) && inserted_at(
                    o,
                    pos,
                    key@,
                );
            assert forall|k: Seq<char>, v: V|
                #[trigger] self.entries().contains((k, v)) <==> (o.contains((k, v)) || (k == key@ && v == value)) by {
                lemma_insert_contains(o, pos, (key@, value), (k, v));
            }
        }
    }

    fn add_at(&mut self, key: &Vec<char>, i: usize, value: V)
        requires
            i <= key@.len(),
            old(self).sorted(),
        ensures
            final(self).sorted(),
            exists|pos: int|
                0 <= pos <= old(self).entries().len() && final(self).entries() == #[trigger] old(
                    self,
                ).entries().insert(pos, (key@.skip(i as int), value)) && inserted_at(
                    old(self).entries(),
                    pos,
                    key@.skip(i as int),
                ),
        decreases key@.len() - i,
    {
        let ghost old_self = *self;
        if i == key.len() {
            self.leafs.push(value);
            proof {
                let pos = old_self.leafs@.len() as int;
                let ks = key@.skip(i as int);
                assert(leaf_entries(self.leafs@) =~= leaf_entries(old_self.leafs@).push(
                    (Seq::<char>::empty(), value),
                ));
                assert(ks =~= Seq::<char>::empty());
                assert(self.entries() =~= old_self.entries().insert(pos, (ks, value)));
                lemma_nodes_keys(old_self.nodes@);
                let oe = old_self.entries();
                let le = leaf_entries(old_self.leafs@);
                assert forall|x: int| 0 <= x < pos implies key_before(#[trigger] oe[x].0, ks) by {
                    assert(oe[x] == le[x]);
                }
                assert forall|x: int| pos <= x < oe.len() implies !key_before(#[trigger] oe[x].0, ks) by {
                    assert(oe[x] == nodes_entries(old_self.nodes@)[x - pos]);
                }
            }
            return;
        }
        let c = key[i];
        let mut idx: usize = 0;
        while idx < self.nodes.len() && self.nodes[idx].0 < c
            invariant
                idx <= self.nodes@.len(),
                forall|k: int| 0 <= k < idx ==> self.nodes@[k].0 < c,
            decreases self.nodes@.len() - idx,
        {
            idx = idx + 1;
        }
        let ghost ns = self.nodes@;
        let ghost nc: Notree<V>;
        let ghost was_there: bool;
        let ghost oc: Notree<V>;
        if idx < self.nodes.len() && self.nodes[idx].0 == c {
            let (k, mut child) = self.nodes.remove(idx);
            proof {
                oc = child;
            }
            child.add_at(key, i + 1, value);
            proof {
                nc = child;
                was_there = true;
            }
            self.nodes.insert(idx, (k, child));
            proof {
                assert(self.nodes@ =~= ns.update(idx as int, (c, nc)));
            }
        } else {
            let mut child = Notree::new();
            proof {
                oc = child;
            }
            child.add_at(key, i + 1, value);
            proof {
                nc = child;
                was_there = false;
                assert(self.nodes@ == ns);
            }
            self.nodes.insert(idx, (c, child));
            proof {
                assert(self.nodes@ == ns.insert(idx as int, (c, nc)));
            }
        }
        proof {
            let ks = key@.skip(i as int);
            let ks1 = key@.skip(i + 1);
            assert(ks.len() > 0 && ks[0] == c);
            assert(seq![c] + ks1 =~= ks);
            lemma_add_child(old_self, *self, idx as int, c, oc, nc, ks1, value, was_there);
        }
    }

    /// Appends to `res` the value of every entry whose key holds none of the
    /// letters of `excl`, in the order of the entries.
    pub fn no_values_to(&self, excl: &Vec<char>, res: &mut Vec<V>)
        requires
            self.sorted(),
            forall|a: int, b: int| 0 <= a < b < excl@.len() ==> excl@[a] <= excl@[b],
        ensures
            final(res)@ == old(res)@ + allowed(self.entries(), excl@),
        decreases self,
    {
        let ghost res0 = res@;
        let ghost ex = excl@;
        let mut i: usize = 0;
        while i < self.leafs.len()
            invariant
                i <= self.leafs@.len(),
                res@ == res0 + self.leafs@.take(i as int),
            decreases self.leafs@.len() - i,
        {
            res.push(self.leafs[i]);
            i = i + 1;
            proof {
                assert(self.leafs@.take(i as int) =~= self.leafs@.take(i - 1).push(self.leafs@[i - 1]));
                assert(res@ =~= res0 + self.leafs@.take(i as int));
            }
        }
        proof {
            assert(self.leafs@.take(i as int) =~= self.leafs@);
            lemma_allowed_leaves(self.leafs@, ex);
        }
        let ghost res1 = res@;
        let mut j: usize = 0;
        proof {
            assert(self.nodes@.take(0) =~= Seq::<(char, Notree<V>)>::empty());
        }
        let mut q: usize = 0;
        while j < self.nodes.len()
            invariant
                j <= self.nodes@.len(),
                ex == excl@,
                self.sorted(),
                forall|a: int, b: int| 0 <= a < b < excl@.len() ==> excl@[a] <= excl@[b],
                q <= excl@.len(),
                j < self.nodes@.len() ==> forall|r: int| 0 <= r < q ==> excl@[r] < self.nodes@[j as int].0,
                res@ == res1 + allowed(nodes_entries(self.nodes@.take(j as int)), ex),
            decreases self.nodes@.len() - j,
        {
            let ghost before = res@;
            let nk = self.nodes[j].0;
            let child = &self.nodes[j].1;
            // Walk the sorted exclusion list along the sorted children.
            while q < excl.len() && excl[q] < nk
                invariant
                    q <= excl@.len(),
                    forall|r: int| 0 <= r < q ==> excl@[r] < nk,
                decreases excl@.len() - q,
            {
                q = q + 1;
            }
            let hit = q < excl.len() && excl[q] == nk;
            proof {
                assert(hit == excl@.contains(nk)) by {
                    if excl@.contains(nk) {
                        let r = choose|r: int| 0 <= r < excl@.len() && excl@[r] == nk;
                        if r > q {
                            assert(excl@[q as int] <= excl@[r]);
                        }
                    }
                }
                assert(child.sorted());
            }
            if !hit {
                child.no_values_to(excl, res);
            }
            proof {
                let ns = self.nodes@.take(j + 1);
                assert(ns.drop_last() =~= self.nodes@.take(j as int));
                assert(ns.last() == self.nodes@[j as int]);
                assert(nodes_entries(ns) == nodes_entries(self.nodes@.take(j as int)) + prefixed(
                    nk,
                    child.entries(),
                ));
                lemma_allowed_concat(
                    nodes_entries(self.nodes@.take(j as int)),
                    prefixed(nk, child.entries()),
                    ex,
                );
                lemma_allowed_prefixed(nk, child.entries(), ex);
                assert(res@ =~= res1 + allowed(nodes_entries(ns), ex));
                if j + 1 < self.nodes@.len() {
                    assert(self.nodes@[j as int].0 < self.nodes@[j + 1].0);
                }
            }
            j = j + 1;
        }
        proof {
            assert(self.nodes@.take(j as int) =~= self.nodes@);
            assert(self.entries() == leaf_entries(self.leafs@) + nodes_entries(self.nodes@));
            lemma_allowed_concat(leaf_entries(self.leafs@), nodes_entries(self.nodes@), ex);
            assert(res@ =~= res0 + allowed(self.entries(), ex));
        }
    }

    /// The value of every entry whose key holds none of the letters of
    /// `excl`, in the order of the entries.
    pub fn no_values(&self, excl: &Vec<char>) -> (r: Vec<V>)
        requires
            self.sorted(),
            forall|a: int, b: int| 0 <= a < b < excl@.len() ==> excl@[a] <= excl@[b],
        ensures
            r@ == allowed(self.entries(), excl@),
    {
        let mut r: Vec<V> = Vec::new();
        self.no_values_to(excl, &mut r);
        proof {
            assert(r@ =~= allowed(self.entries(), excl@));
        }
        r
    }
}

} // verus!
