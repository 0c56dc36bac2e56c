//! The in-order sequence of a B-tree node and the facts about it that the
//! operations of `BTree` rest on.
use vstd::prelude::*;

verus! {

/// The most keys that one node holds.
pub const B_MAX_NODES: usize = 11;

/// Where a full node is split: the left part keeps this many keys.
pub const B_MID_INDEX: usize = B_MAX_NODES / 2;

/// A node of a B-tree. A leaf has depth 0 and no edges; an inner node of
/// depth `d` has one edge more than it has keys, to nodes of depth `d - 1`.
pub struct Node<K, V> {
    pub depth: usize,
    pub keys: Vec<K>,
    pub values: Vec<V>,
    pub edges: Vec<Box<Node<K, V>>>,
}

/// The key-value pairs of one node, in order.
pub open spec fn pairs<V>(keys: Seq<u64>, values: Seq<V>) -> Seq<(u64, V)> {
    Seq::new(keys.len(), |i: int| (keys[i], values[i]))
}

/// The in-order sequence of a node whose pairs are `es` and whose subtrees
/// have the in-order sequences `cs`: `cs[0] es[0] cs[1] es[1] ... cs[n]`.
pub open spec fn flat<V>(es: Seq<(u64, V)>, cs: Seq<Seq<(u64, V)>>) -> Seq<(u64, V)>
    decreases es.len(),
{
    if es.len() == 0 {
        if cs.len() > 0 {
            cs[0]
        } else {
            Seq::empty()
        }
    } else {
        flat(es.drop_last(), cs.drop_last()) + seq![es.last()] + cs.last()
    }
}

/// The in-order sequence of the subtree rooted at `n`, read as a tree of
/// depth `d`.
pub open spec fn inorder<V>(n: Node<u64, V>, d: nat) -> Seq<(u64, V)>
    decreases d, 1nat,
{
    flat(pairs(n.keys@, n.values@), kids(n, d))
}

/// The in-order sequences of the subtrees of `n`; those of a leaf are empty.
pub open spec fn kids<V>(n: Node<u64, V>, d: nat) -> Seq<Seq<(u64, V)>>
    decreases d, 0nat,
{
    if d == 0 {
        Seq::new((n.keys@.len() + 1) as nat, |i: int| Seq::<(u64, V)>::empty())
    } else {
        Seq::new(n.edges@.len(), |i: int| inorder(*n.edges@[i], (d - 1) as nat))
    }
}

/// Strictly increasing keys.
pub open spec fn sorted<V>(s: Seq<(u64, V)>) -> bool {
    forall|i: int, j: int| 0 <= i < j < s.len() ==> #[trigger] s[i].0 < #[trigger] s[j].0
}

/// Some pair of `s` has the key `k`.
pub open spec fn has_key<V>(s: Seq<(u64, V)>, k: u64) -> bool {
    exists|i: int| 0 <= i < s.len() && #[trigger] s[i].0 == k
}

/// The map that a sequence of pairs describes.
pub open spec fn to_map<V>(s: Seq<(u64, V)>) -> Map<u64, V> {
    Map::new(
        |k: u64| has_key(s, k),
        |k: u64| s[choose|i: int| 0 <= i < s.len() && #[trigger] s[i].0 == k].1,
    )
}

/// The shape of one node: its depth, how many keys it holds (at most
/// `B_MAX_NODES`) and how many edges.
pub open spec fn shape_ok<V>(n: Node<u64, V>, d: nat) -> bool {
    &&& n.depth == d
    &&& n.keys@.len() == n.values@.len()
    &&& n.keys@.len() <= B_MAX_NODES
    &&& d == 0 ==> n.edges@.len() == 0
    &&& d > 0 ==> n.edges@.len() == n.keys@.len() + 1
}

/// Every node of the subtree has its shape, and every node below `n` holds
/// at least one key.
pub open spec fn tree_ok<V>(n: Node<u64, V>, d: nat) -> bool
    decreases d, 1nat,
{
    shape_ok(n, d) && edges_ok(n, d)
}

/// Every subtree of `n` is well-shaped and its root holds at least one key.
pub open spec fn edges_ok<V>(n: Node<u64, V>, d: nat) -> bool
    decreases d, 0nat,
{
    d > 0 ==> forall|i: int|
        0 <= i < n.edges@.len() ==> #[trigger] n.edges@[i].keys@.len() >= 1 && tree_ok(
            *n.edges@[i],
            (d - 1) as nat,
        )
}

/// What comes before `cs[i]` in `flat(es, cs)`.
pub open spec fn before<V>(es: Seq<(u64, V)>, cs: Seq<Seq<(u64, V)>>, i: int) -> Seq<(u64, V)> {
    if i == 0 {
        Seq::empty()
    } else {
        flat(es.take(i - 1), cs.take(i)) + seq![es[i - 1]]
    }
}

/// What comes after `cs[i]` in `flat(es, cs)`.
pub open spec fn after<V>(es: Seq<(u64, V)>, cs: Seq<Seq<(u64, V)>>, i: int) -> Seq<(u64, V)> {
    if i == es.len() {
        Seq::empty()
    } else {
        seq![es[i]] + flat(es.skip(i + 1), cs.skip(i + 1))
    }
}

/// `flat(es, cs)` is what comes before `cs[i]`, then `cs[i]`, then what
/// comes after it.
pub proof fn lemma_flat_split<V>(es: Seq<(u64, V)>, cs: Seq<Seq<(u64, V)>>, i: int)
    requires
        cs.len() == es.len() + 1,
        0 <= i <= es.len(),
    ensures
        flat(es, cs) == before(es, cs, i) + cs[i] + after(es, cs, i),
    decreases es.len(),
{
    if es.len() == 0 {
        assert(flat(es, cs) =~= before(es, cs, i) + cs[i] + after(es, cs, i));
    } else if i == es.len() {
        assert(es.take(i - 1) =~= es.drop_last());
        assert(cs.take(i) =~= cs.drop_last());
        assert(flat(es, cs) =~= before(es, cs, i) + cs[i] + after(es, cs, i));
    } else {
        let es2 = es.drop_last();
        let cs2 = cs.drop_last();
        lemma_flat_split(es2, cs2, i);
        if i > 0 {
            assert(es2.take(i - 1) =~= es.take(i - 1));
            assert(cs2.take(i) =~= cs.take(i));
        }
        assert(before(es2, cs2, i) == before(es, cs, i));
        if i + 1 < es.len() {
            assert(es.skip(i + 1).drop_last() =~= es2.skip(i + 1));
            assert(cs.skip(i + 1).drop_last() =~= cs2.skip(i + 1));
            assert(es.skip(i + 1).last() == es.last());
            assert(cs.skip(i + 1).last() == cs.last());
            assert(flat(es.skip(i + 1), cs.skip(i + 1)) == flat(es2.skip(i + 1), cs2.skip(i + 1))
                + seq![es.last()] + cs.last());
            assert(after(es, cs, i) =~= after(es2, cs2, i) + seq![es.last()] + cs.last());
        } else {
            assert(es.skip(i + 1).len() == 0);
            assert(cs.skip(i + 1) =~= seq![cs.last()]);
            assert(after(es, cs, i) =~= after(es2, cs2, i) + seq![es.last()] + cs.last());
        }
        assert(flat(es, cs) =~= before(es, cs, i) + cs[i] + after(es, cs, i));
    }
}

/// With empty subtrees, the in-order sequence is the node's own pairs.
pub proof fn lemma_flat_empty_kids<V>(es: Seq<(u64, V)>, cs: Seq<Seq<(u64, V)>>)
    requires
        cs.len() == es.len() + 1,
        forall|i: int| 0 <= i < cs.len() ==> #[trigger] cs[i].len() == 0,
    ensures
        flat(es, cs) == es,
    decreases es.len(),
{
    if es.len() == 0 {
        assert(flat(es, cs) =~= es);
    } else {
        lemma_flat_empty_kids(es.drop_last(), cs.drop_last());
        assert(flat(es, cs) =~= es);
    }
}

/// In a sorted sequence every key of a pair maps to that pair's value.
pub proof fn lemma_to_map_at<V>(s: Seq<(u64, V)>, j: int)
    requires
        sorted(s),
        0 <= j < s.len(),
    ensures
        to_map(s).contains_key(s[j].0),
        to_map(s)[s[j].0] == s[j].1,
{
    assert(has_key(s, s[j].0));
    let c = choose|i: int| 0 <= i < s.len() && #[trigger] s[i].0 == s[j].0;
    if c < j {
        assert(s[c].0 < s[j].0);
    } else if c > j {
        assert(s[j].0 < s[c].0);
    }
}


/// Every key of `a` is smaller than every key of `b`.
pub open spec fn all_below<V>(a: Seq<(u64, V)>, b: Seq<(u64, V)>) -> bool {
    forall|i: int, j: int| 0 <= i < a.len() && 0 <= j < b.len() ==> #[trigger] a[i].0 < #[trigger] b[j].0
}

/// Replacing `cs[i]` changes only that part of `flat(es, cs)`.
pub proof fn lemma_flat_update<V>(
    es: Seq<(u64, V)>,
    cs: Seq<Seq<(u64, V)>>,
    i: int,
    x: Seq<(u64, V)>,
)
    requires
        cs.len() == es.len() + 1,
        0 <= i <= es.len(),
    ensures
        flat(es, cs.update(i, x)) == before(es, cs, i) + x + after(es, cs, i),
{
    let cs2 = cs.update(i, x);
    lemma_flat_split(es, cs2, i);
    if i > 0 {
        assert(cs2.take(i) =~= cs.take(i));
    }
    if i < es.len() {
        assert(cs2.skip(i + 1) =~= cs.skip(i + 1));
    }
    assert(before(es, cs2, i) == before(es, cs, i));
    assert(after(es, cs2, i) == after(es, cs, i));
}

/// `flat` read from its first subtree: `cs[0] es[0] (the rest)`.
pub proof fn lemma_flat_cons<V>(es: Seq<(u64, V)>, cs: Seq<Seq<(u64, V)>>)
    requires
        cs.len() == es.len() + 1,
        es.len() >= 1,
    ensures
        flat(es, cs) == cs[0] + seq![es[0]] + flat(es.skip(1), cs.skip(1)),
{
    lemma_flat_split(es, cs, 0);
    assert(before(es, cs, 0) =~= Seq::<(u64, V)>::empty());
}

/// Where the pair `es[i]` sits in `flat(es, cs)`.
pub open spec fn pair_pos<V>(es: Seq<(u64, V)>, cs: Seq<Seq<(u64, V)>>, i: int) -> int {
    (before(es, cs, i).len() + cs[i].len()) as int
}

pub proof fn lemma_flat_pair<V>(es: Seq<(u64, V)>, cs: Seq<Seq<(u64, V)>>, i: int)
    requires
        cs.len() == es.len() + 1,
        0 <= i < es.len(),
    ensures
        0 <= pair_pos(es, cs, i) < flat(es, cs).len(),
        flat(es, cs)[pair_pos(es, cs, i)] == es[i],
{
    lemma_flat_split(es, cs, i);
}

/// Sortedness of a concatenation.
pub proof fn lemma_sorted_concat<V>(a: Seq<(u64, V)>, b: Seq<(u64, V)>)
    ensures
        sorted(a + b) <==> sorted(a) && sorted(b) && all_below(a, b),
{
    let s = a + b;
    if sorted(s) {
        assert forall|i: int, j: int| 0 <= i < j < a.len() implies #[trigger] a[i].0 < #[trigger] a[j].0 by {
            assert(s[i] == a[i] && s[j] == a[j]);
        }
        assert forall|i: int, j: int| 0 <= i < j < b.len() implies #[trigger] b[i].0 < #[trigger] b[j].0 by {
            assert(s[a.len() + i] == b[i] && s[a.len() + j] == b[j]);
        }
        assert forall|i: int, j: int| 0 <= i < a.len() && 0 <= j < b.len() implies #[trigger] a[i].0 < #[trigger] b[j].0 by {
            assert(s[i] == a[i] && s[a.len() + j] == b[j]);
        }
    }
    if sorted(a) && sorted(b) && all_below(a, b) {
        assert forall|i: int, j: int| 0 <= i < j < s.len() implies #[trigger] s[i].0 < #[trigger] s[j].0 by {
            if j < a.len() {
                assert(s[i] == a[i] && s[j] == a[j]);
            } else if i >= a.len() {
                assert(s[i] == b[i - a.len()] && s[j] == b[j - a.len()]);
            } else {
                assert(s[i] == a[i] && s[j] == b[j - a.len()]);
            }
        }
    }
}

/// A concatenation of sorted parts describes the union of their maps.
pub proof fn lemma_to_map_concat<V>(a: Seq<(u64, V)>, b: Seq<(u64, V)>)
    requires
        sorted(a + b),
    ensures
        to_map(a + b) == to_map(a).union_prefer_right(to_map(b)),
{
    let s = a + b;
    lemma_sorted_concat(a, b);
    assert forall|k: u64| has_key(s, k) <==> has_key(a, k) || has_key(b, k) by {
        if has_key(s, k) {
            let i = choose|i: int| 0 <= i < s.len() && #[trigger] s[i].0 == k;
            if i < a.len() {
                assert(a[i].0 == k);
            } else {
                assert(b[i - a.len()].0 == k);
            }
        }
        if has_key(a, k) {
            let i = choose|i: int| 0 <= i < a.len() && #[trigger] a[i].0 == k;
            assert(s[i].0 == k);
        }
        if has_key(b, k) {
            let i = choose|i: int| 0 <= i < b.len() && #[trigger] b[i].0 == k;
            assert(s[a.len() + i].0 == k);
        }
    }
    assert forall|k: u64| #[trigger] to_map(s).contains_key(k) implies to_map(s)[k] == to_map(
        a,
    ).union_prefer_right(to_map(b))[k] by {
        let i = choose|i: int| 0 <= i < s.len() && #[trigger] s[i].0 == k;
        lemma_to_map_at(s, i);
        if i < a.len() {
            assert(s[i] == a[i]);
            lemma_to_map_at(a, i);
            if has_key(b, k) {
                let j = choose|j: int| 0 <= j < b.len() && #[trigger] b[j].0 == k;
                assert(a[i].0 < b[j].0);
            }
        } else {
            assert(s[i] == b[i - a.len()]);
            lemma_to_map_at(b, i - a.len());
        }
    }
    assert(to_map(s) =~= to_map(a).union_prefer_right(to_map(b)));
}


/// `flat` around one pair: the part before `es[m]`, `es[m]`, the part after.
pub proof fn lemma_flat_at_pair<V>(es: Seq<(u64, V)>, cs: Seq<Seq<(u64, V)>>, m: int)
    requires
        cs.len() == es.len() + 1,
        0 <= m < es.len(),
    ensures
        flat(es, cs) == flat(es.take(m), cs.take(m + 1)) + seq![es[m]] + flat(
            es.skip(m + 1),
            cs.skip(m + 1),
        ),
{
    lemma_flat_split(es, cs, m + 1);
    let es2 = es.skip(m + 1);
    let cs2 = cs.skip(m + 1);
    lemma_flat_split(es2, cs2, 0);
    assert(before(es2, cs2, 0) =~= Seq::<(u64, V)>::empty());
    if m + 1 < es.len() {
        assert(es2.skip(1) =~= es.skip(m + 2));
        assert(cs2.skip(1) =~= cs.skip(m + 2));
    }
    assert(after(es2, cs2, 0) == after(es, cs, m + 1));
    assert(flat(es, cs) =~= flat(es.take(m), cs.take(m + 1)) + seq![es[m]] + flat(es2, cs2));
}

/// In a sorted sequence, every pair before `es[i - 1]`'s end is below a key
/// greater than `es[i - 1]`'s.
pub proof fn lemma_before_below<V>(es: Seq<(u64, V)>, cs: Seq<Seq<(u64, V)>>, i: int, x: (u64, V))
    requires
        cs.len() == es.len() + 1,
        0 <= i <= es.len(),
        sorted(flat(es, cs)),
        i > 0 ==> es[i - 1].0 < x.0,
    ensures
        all_below(before(es, cs, i), seq![x]),
        sorted(before(es, cs, i)),
{
    lemma_flat_split(es, cs, i);
    let b = before(es, cs, i);
    lemma_sorted_concat(b, cs[i] + after(es, cs, i));
    assert(flat(es, cs) =~= b + (cs[i] + after(es, cs, i)));
    if i > 0 {
        assert forall|p: int, q: int| 0 <= p < b.len() && 0 <= q < 1 implies #[trigger] b[p].0
            < #[trigger] seq![x][q].0 by {
            if p < b.len() - 1 {
                assert(b[p].0 < b[b.len() - 1].0);
            }
        }
    }
}

/// In a sorted sequence, every pair after `cs[i]` is above a key smaller
/// than `es[i]`'s.
pub proof fn lemma_after_above<V>(es: Seq<(u64, V)>, cs: Seq<Seq<(u64, V)>>, i: int, x: (u64, V))
    requires
        cs.len() == es.len() + 1,
        0 <= i <= es.len(),
        sorted(flat(es, cs)),
        i < es.len() ==> x.0 < es[i].0,
    ensures
        all_below(seq![x], after(es, cs, i)),
        sorted(after(es, cs, i)),
{
    lemma_flat_split(es, cs, i);
    let a = after(es, cs, i);
    lemma_sorted_concat(before(es, cs, i) + cs[i], a);
    if i < es.len() {
        assert forall|p: int, q: int| 0 <= p < 1 && 0 <= q < a.len() implies #[trigger] seq![x][p].0
            < #[trigger] a[q].0 by {
            if q > 0 {
                assert(a[0].0 < a[q].0);
            }
        }
    }
}

/// Searching below a node: when the key lies strictly between `es[i - 1]`
/// and `es[i]`, the map of the node holds it exactly when that of `cs[i]`
/// does, with the same value.
pub proof fn lemma_descend<V>(es: Seq<(u64, V)>, cs: Seq<Seq<(u64, V)>>, i: int, key: u64)
    requires
        cs.len() == es.len() + 1,
        0 <= i <= es.len(),
        sorted(flat(es, cs)),
        i > 0 ==> es[i - 1].0 < key,
        i < es.len() ==> key < es[i].0,
    ensures
        sorted(cs[i]),
        to_map(flat(es, cs)).contains_key(key) == to_map(cs[i]).contains_key(key),
        to_map(flat(es, cs)).contains_key(key) ==> to_map(flat(es, cs))[key] == to_map(cs[i])[key],
{
    let b = before(es, cs, i);
    let c = cs[i];
    let a = after(es, cs, i);
    let x = (key, arbitrary::<V>());
    lemma_before_below(es, cs, i, x);
    lemma_after_above(es, cs, i, x);
    lemma_flat_split(es, cs, i);
    assert(flat(es, cs) =~= (b + c) + a);
    lemma_sorted_concat(b + c, a);
    lemma_sorted_concat(b, c);
    lemma_to_map_concat(b + c, a);
    lemma_to_map_concat(b, c);
    if has_key(b, key) {
        let p = choose|p: int| 0 <= p < b.len() && #[trigger] b[p].0 == key;
        assert(b[p].0 < seq![x][0].0);
    }
    if has_key(a, key) {
        let q = choose|q: int| 0 <= q < a.len() && #[trigger] a[q].0 == key;
        assert(seq![x][0].0 < a[q].0);
    }
}


/// Putting `x` into the middle part of a sorted sequence keeps it sorted when
/// `x` fits between the outer parts.
pub proof fn lemma_insert_mid<V>(
    b: Seq<(u64, V)>,
    c: Seq<(u64, V)>,
    a: Seq<(u64, V)>,
    p: int,
    x: (u64, V),
)
    requires
        sorted(b + c + a),
        0 <= p <= c.len(),
        sorted(c.insert(p, x)),
        all_below(b, seq![x]),
        all_below(seq![x], a),
    ensures
        sorted(b + c.insert(p, x) + a),
        b + c.insert(p, x) + a == (b + c + a).insert(b.len() + p, x),
{
    let c2 = c.insert(p, x);
    lemma_sorted_concat(b + c, a);
    lemma_sorted_concat(b, c);
    assert(b + c + a =~= b + (c + a));
    lemma_sorted_concat(b, c + a);
    lemma_sorted_concat(c, a);
    assert forall|i: int, j: int| 0 <= i < b.len() && 0 <= j < c2.len() implies #[trigger] b[i].0
        < #[trigger] c2[j].0 by {
        if j < p {
            assert(c2[j] == c[j]);
        } else if j == p {
            assert(c2[j] == seq![x][0]);
        } else {
            assert(c2[j] == c[j - 1]);
        }
    }
    assert forall|i: int, j: int| 0 <= i < c2.len() && 0 <= j < a.len() implies #[trigger] c2[i].0
        < #[trigger] a[j].0 by {
        if i < p {
            assert(c2[i] == c[i]);
        } else if i == p {
            assert(c2[i] == seq![x][0]);
        } else {
            assert(c2[i] == c[i - 1]);
        }
    }
    lemma_sorted_concat(b, c2);
    lemma_sorted_concat(b + c2, a);
    assert(b + c2 + a =~= (b + c + a).insert(b.len() + p, x));
}

/// A subtree that was split in two around the pair `m` takes the place of
/// `cs[i]`, with `m` going in at `es[i]`.
pub proof fn lemma_flat_insert_split<V>(
    es: Seq<(u64, V)>,
    cs: Seq<Seq<(u64, V)>>,
    i: int,
    l: Seq<(u64, V)>,
    m: (u64, V),
    r: Seq<(u64, V)>,
)
    requires
        cs.len() == es.len() + 1,
        0 <= i <= es.len(),
    ensures
        flat(es.insert(i, m), cs.update(i, l).insert(i + 1, r)) == before(es, cs, i) + l + seq![m]
            + r + after(es, cs, i),
{
    let es2 = es.insert(i, m);
    let cs2 = cs.update(i, l).insert(i + 1, r);
    lemma_flat_at_pair(es2, cs2, i);
    let es3 = es.take(i);
    let cs3 = cs.take(i + 1);
    assert(es2.take(i) =~= es3);
    assert(cs2.take(i + 1) =~= cs3.update(i, l));
    lemma_flat_update(es3, cs3, i, l);
    if i > 0 {
        assert(es3.take(i - 1) =~= es.take(i - 1));
        assert(cs3.take(i) =~= cs.take(i));
    }
    assert(before(es3, cs3, i) == before(es, cs, i));
    assert(after(es3, cs3, i) =~= Seq::<(u64, V)>::empty());
    let es4 = es.skip(i);
    let cs4 = cs.skip(i);
    assert(es2.skip(i + 1) =~= es4);
    assert(cs2.skip(i + 1) =~= cs4.update(0, r));
    lemma_flat_update(es4, cs4, 0, r);
    assert(before(es4, cs4, 0) =~= Seq::<(u64, V)>::empty());
    if i < es.len() {
        assert(es4.skip(1) =~= es.skip(i + 1));
        assert(cs4.skip(1) =~= cs.skip(i + 1));
    }
    assert(after(es4, cs4, 0) == after(es, cs, i));
    assert(flat(es2, cs2) =~= before(es, cs, i) + l + seq![m] + r + after(es, cs, i));
}


/// `flat` around two neighbouring subtrees and the pair between them.
pub proof fn lemma_flat_two<V>(es: Seq<(u64, V)>, cs: Seq<Seq<(u64, V)>>, m: int)
    requires
        cs.len() == es.len() + 1,
        0 <= m < es.len(),
    ensures
        flat(es, cs) == before(es, cs, m) + cs[m] + seq![es[m]] + cs[m + 1] + after(es, cs, m + 1),
{
    lemma_flat_at_pair(es, cs, m);
    let es3 = es.take(m);
    let cs3 = cs.take(m + 1);
    lemma_flat_split(es3, cs3, m);
    if m > 0 {
        assert(es3.take(m - 1) =~= es.take(m - 1));
        assert(cs3.take(m) =~= cs.take(m));
    }
    assert(before(es3, cs3, m) == before(es, cs, m));
    assert(after(es3, cs3, m) =~= Seq::<(u64, V)>::empty());
    let es4 = es.skip(m + 1);
    let cs4 = cs.skip(m + 1);
    lemma_flat_split(es4, cs4, 0);
    assert(before(es4, cs4, 0) =~= Seq::<(u64, V)>::empty());
    if m + 1 < es.len() {
        assert(es4.skip(1) =~= es.skip(m + 2));
        assert(cs4.skip(1) =~= cs.skip(m + 2));
    }
    assert(after(es4, cs4, 0) == after(es, cs, m + 1));
    assert(flat(es, cs) =~= before(es, cs, m) + cs[m] + seq![es[m]] + cs[m + 1] + after(es, cs, m + 1));
}

/// Replacing two neighbouring subtrees and the pair between them.
pub proof fn lemma_flat_rotate<V>(
    es: Seq<(u64, V)>,
    cs: Seq<Seq<(u64, V)>>,
    m: int,
    a: Seq<(u64, V)>,
    y: (u64, V),
    b: Seq<(u64, V)>,
)
    requires
        cs.len() == es.len() + 1,
        0 <= m < es.len(),
    ensures
        flat(es.update(m, y), cs.update(m, a).update(m + 1, b)) == before(es, cs, m) + a + seq![y]
            + b + after(es, cs, m + 1),
{
    let es2 = es.update(m, y);
    let cs2 = cs.update(m, a).update(m + 1, b);
    lemma_flat_two(es2, cs2, m);
    if m > 0 {
        assert(es2.take(m - 1) =~= es.take(m - 1));
        assert(cs2.take(m) =~= cs.take(m));
    }
    assert(before(es2, cs2, m) == before(es, cs, m));
    if m + 1 < es.len() {
        assert(es2.skip(m + 2) =~= es.skip(m + 2));
        assert(cs2.skip(m + 2) =~= cs.skip(m + 2));
    }
    assert(after(es2, cs2, m + 1) == after(es, cs, m + 1));
}

/// Merging two neighbouring subtrees and the pair between them into one.
pub proof fn lemma_flat_merge<V>(
    es: Seq<(u64, V)>,
    cs: Seq<Seq<(u64, V)>>,
    m: int,
    x: Seq<(u64, V)>,
)
    requires
        cs.len() == es.len() + 1,
        0 <= m < es.len(),
    ensures
        flat(es.remove(m), cs.remove(m + 1).update(m, x)) == before(es, cs, m) + x + after(
            es,
            cs,
            m + 1,
        ),
{
    let es2 = es.remove(m);
    let cs2 = cs.remove(m + 1).update(m, x);
    lemma_flat_split(es2, cs2, m);
    if m > 0 {
        assert(es2.take(m - 1) =~= es.take(m - 1));
        assert(cs2.take(m) =~= cs.take(m));
    }
    assert(before(es2, cs2, m) == before(es, cs, m));
    if m + 1 < es.len() {
        assert(es2.skip(m + 1) =~= es.skip(m + 2));
        assert(cs2.skip(m + 1) =~= cs.skip(m + 2));
    }
    assert(after(es2, cs2, m) == after(es, cs, m + 1));
}


/// A node with one pair.
pub proof fn lemma_flat_one<V>(x: (u64, V), a: Seq<(u64, V)>, b: Seq<(u64, V)>)
    ensures
        flat(seq![x], seq![a, b]) == a + seq![x] + b,
{
    let es = seq![x];
    let cs = seq![a, b];
    assert(es.drop_last() =~= Seq::<(u64, V)>::empty());
    assert(cs.drop_last() =~= seq![a]);
    assert(es.last() == x);
    assert(cs.last() == b);
    assert(flat(es.drop_last(), cs.drop_last()) == a);
}


/// The map of a single pair.
proof fn lemma_to_map_single<V>(x: (u64, V))
    ensures
        to_map(seq![x]) == Map::<u64, V>::empty().insert(x.0, x.1),
{
    let s = seq![x];
    assert forall|k: u64| has_key(s, k) <==> k == x.0 by {
        if k == x.0 {
            assert(s[0].0 == k);
        }
    }
    assert(to_map(s) =~= Map::<u64, V>::empty().insert(x.0, x.1));
}

/// A sorted sequence has as many entries in its map as it has pairs.
pub proof fn lemma_to_map_len<V>(s: Seq<(u64, V)>)
    requires
        sorted(s),
    ensures
        to_map(s).dom().finite(),
        to_map(s).len() == s.len(),
    decreases s.len(),
{
    if s.len() == 0 {
        assert(to_map(s) =~= Map::<u64, V>::empty());
    } else {
        let t = s.drop_last();
        let x = s.last();
        assert(s =~= t + seq![x]);
        lemma_to_map_concat(t, seq![x]);
        lemma_sorted_concat(t, seq![x]);
        lemma_to_map_len(t);
        lemma_to_map_single(x);
        if has_key(t, x.0) {
            let i = choose|i: int| 0 <= i < t.len() && #[trigger] t[i].0 == x.0;
            assert(t[i].0 < seq![x][0].0);
        }
        assert(to_map(s) =~= to_map(t).insert(x.0, x.1));
    }
}

/// Inserting a pair where it keeps the sequence sorted inserts it into the
/// map.
pub proof fn lemma_to_map_insert<V>(s: Seq<(u64, V)>, p: int, x: (u64, V))
    requires
        0 <= p <= s.len(),
        sorted(s.insert(p, x)),
    ensures
        sorted(s),
        !to_map(s).contains_key(x.0),
        to_map(s.insert(p, x)) == to_map(s).insert(x.0, x.1),
{
    let a = s.take(p);
    let b = s.skip(p);
    assert(s =~= a + b);
    assert(s.insert(p, x) =~= a + (seq![x] + b));
    lemma_sorted_concat(a, seq![x] + b);
    lemma_sorted_concat(seq![x], b);
    lemma_to_map_concat(a, seq![x] + b);
    lemma_to_map_concat(seq![x], b);
    lemma_to_map_single(x);
    assert forall|i: int, j: int| 0 <= i < a.len() && 0 <= j < b.len() implies #[trigger] a[i].0
        < #[trigger] b[j].0 by {
        assert((seq![x] + b)[j + 1] == b[j]);
    }
    lemma_sorted_concat(a, b);
    lemma_to_map_concat(a, b);
    if has_key(a, x.0) {
        let i = choose|i: int| 0 <= i < a.len() && #[trigger] a[i].0 == x.0;
        assert(a[i].0 < (seq![x] + b)[0].0);
    }
    if has_key(b, x.0) {
        let j = choose|j: int| 0 <= j < b.len() && #[trigger] b[j].0 == x.0;
        assert(seq![x][0].0 < b[j].0);
    }
    assert(to_map(s.insert(p, x)) =~= to_map(s).insert(x.0, x.1));
}

/// Removing the pair at `p` from a sorted sequence removes its key from the
/// map.
pub proof fn lemma_to_map_remove<V>(s: Seq<(u64, V)>, p: int)
    requires
        0 <= p < s.len(),
        sorted(s),
    ensures
        sorted(s.remove(p)),
        to_map(s.remove(p)) == to_map(s).remove(s[p].0),
{
    let x = s[p];
    let t = s.remove(p);
    assert(t.insert(p, x) =~= s);
    lemma_to_map_insert(t, p, x);
    assert(to_map(t) =~= to_map(s).remove(x.0));
}

/// A well-shaped subtree whose root holds a key has at least one pair more
/// than its depth.
pub proof fn lemma_inorder_len<V>(n: Node<u64, V>, d: nat)
    requires
        tree_ok(n, d),
        n.keys@.len() >= 1,
    ensures
        inorder(n, d).len() >= d + 1,
    decreases d,
{
    let es = pairs(n.keys@, n.values@);
    let cs = kids(n, d);
    lemma_flat_split(es, cs, 0);
    if d > 0 {
        assert(n.edges@[0].keys@.len() >= 1);
        lemma_inorder_len(*n.edges@[0], (d - 1) as nat);
    }
}


/// What comes before `cs[j + 1]` is what comes before `cs[j]`, then `cs[j]`
/// and `es[j]`.
pub proof fn lemma_before_step<V>(es: Seq<(u64, V)>, cs: Seq<Seq<(u64, V)>>, j: int)
    requires
        cs.len() == es.len() + 1,
        0 <= j < es.len(),
    ensures
        before(es, cs, j + 1) == before(es, cs, j) + cs[j] + seq![es[j]],
{
    let es3 = es.take(j);
    let cs3 = cs.take(j + 1);
    lemma_flat_split(es3, cs3, j);
    if j > 0 {
        assert(es3.take(j - 1) =~= es.take(j - 1));
        assert(cs3.take(j) =~= cs.take(j));
    }
    assert(before(es3, cs3, j) == before(es, cs, j));
    assert(after(es3, cs3, j) =~= Seq::<(u64, V)>::empty());
}

} // verus!
