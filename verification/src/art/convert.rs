//! Empty nodes, and the conversions between the four kinds of inner node,
//! which keep the header and every slot.
use vstd::prelude::*;
use super::node::{
    Node, Node4, Node16, Node48, Node256, NodeHeader, EMPTY_INDEX, header_ok, increasing, sorted_slot,
    count, count_some, count_used, present, used, lemma_pos,
};
use super::count::{lemma_count_update, lemma_count_prefix, lemma_count_take, lemma_count_match};

verus! {

/// The count of a prefix is at most the count of the whole.
pub proof fn lemma_count_take_le<A>(s: Seq<A>, f: spec_fn(A) -> bool, i: int)
    requires
        0 <= i <= s.len(),
    ensures
        count(s.take(i), f) <= count(s, f),
    decreases s.len() - i,
{
    if i == s.len() {
        assert(s.take(i) =~= s);
    } else {
        lemma_count_take(s, f, i);
        lemma_count_take_le(s, f, i + 1);
    }
}

impl Default for NodeHeader {
    /// An empty path.
    fn default() -> (h: Self)
        ensures
            h.len == 0,
            h.prefix@ == Seq::<u8>::empty(),
            h.full@ == Seq::<u8>::empty(),
            header_ok(h),
    {
        let h = NodeHeader { len: 0, prefix: Vec::new(), full: Ghost(Seq::empty()) };
        assert(h.full@.take(0) =~= h.prefix@);
        h
    }
}

/// 256 bytes without a slot.
fn empty_keys() -> (keys: Vec<u8>)
    ensures
        keys@.len() == 256,
        forall|b: int| 0 <= b < 256 ==> keys@[b] == EMPTY_INDEX,
        count_used(keys@) == 0,
{
    let mut keys: Vec<u8> = Vec::new();
    while keys.len() < 256
        invariant
            keys@.len() <= 256,
            forall|b: int| 0 <= b < keys@.len() ==> keys@[b] == EMPTY_INDEX,
        decreases 256 - keys@.len(),
    {
        keys.push(EMPTY_INDEX);
    }
    proof {
        lemma_count_prefix(keys@, used(), 0);
    }
    keys
}

/// `n` empty slots.
fn empty_slots<V>(n: usize) -> (slots: Vec<Option<Node<V>>>)
    ensures
        slots@.len() == n,
        forall|s: int| 0 <= s < n ==> slots@[s] is None,
        count_some(slots@) == 0,
{
    let mut slots: Vec<Option<Node<V>>> = Vec::new();
    while slots.len() < n
        invariant
            slots@.len() <= n,
            forall|s: int| 0 <= s < slots@.len() ==> slots@[s] is None,
        decreases n - slots@.len(),
    {
        slots.push(None);
    }
    proof {
        lemma_count_prefix(slots@, present(), 0);
    }
    slots
}

impl<V> Default for Node4<V> {
    /// A `Node4` with an empty path and no children.
    fn default() -> (n: Self)
        ensures
            n.ok(),
            n.header.len == 0,
            n.header.full@ == Seq::<u8>::empty(),
            n.keys@.len() == 0,
            n.children@.len() == 0,
    {
        Node4 { header: NodeHeader::default(), keys: Vec::new(), children: Vec::new() }
    }
}

impl<V> Default for Node16<V> {
    /// A `Node16` with an empty path and no children.
    fn default() -> (n: Self)
        ensures
            n.ok(),
            n.header.len == 0,
            n.keys@.len() == 0,
            n.children@.len() == 0,
    {
        Node16 { header: NodeHeader::default(), keys: Vec::new(), children: Vec::new() }
    }
}

impl<V> Default for Node48<V> {
    /// A `Node48` with an empty path and no children.
    fn default() -> (n: Self)
        ensures
            n.ok(),
            n.header.len == 0,
            n.len == 0,
            forall|b: u8| #[trigger] n.slot(b) is None,
    {
        Node48 { header: NodeHeader::default(), len: 0, keys: empty_keys(), children: empty_slots(48) }
    }
}

impl<V> Default for Node256<V> {
    /// A `Node256` with an empty path and no children.
    fn default() -> (n: Self)
        ensures
            n.ok(),
            n.header.len == 0,
            n.header.full@ == Seq::<u8>::empty(),
            n.len == 0,
            forall|b: u8| #[trigger] n.slot(b) is None,
    {
        Node256 { header: NodeHeader::default(), len: 0, children: empty_slots(256) }
    }
}

impl<V> Node4<V> {
    /// The `Node4` with the header and children of a `Node16` that has at
    /// most four.
    pub fn from_node16(node: Node16<V>) -> (new: Self)
        requires
            node.ok(),
            node.keys@.len() <= 4,
        ensures
            new.ok(),
            new.header == node.header,
            new.keys@.len() == node.keys@.len(),
            forall|b: u8| #[trigger] new.slot(b) == node.slot(b),
    {
        Node4 { header: node.header, keys: node.keys, children: node.children }
    }
}

impl<V> Node16<V> {
    /// The `Node16` with the header and children of a `Node4`.
    pub fn from_node4(node: Node4<V>) -> (new: Self)
        requires
            node.ok(),
        ensures
            new.ok(),
            new.header == node.header,
            new.keys@.len() == node.keys@.len(),
            forall|b: u8| #[trigger] new.slot(b) == node.slot(b),
    {
        Node16 { header: node.header, keys: node.keys, children: node.children }
    }

    /// The `Node16` with the header and children of a `Node48` that has at
    /// most sixteen, in the order of their bytes.
    pub fn from_node48(node: Node48<V>) -> (new: Self)
        requires
            node.ok(),
            node.len <= 16,
        ensures
            new.ok(),
            new.header == node.header,
            new.keys@.len() == node.len,
            forall|b: u8| #[trigger] new.slot(b) == node.slot(b),
    {
        let ghost old_node = node;
        let Node48 { header, len, keys: keys48, children: mut children48 } = node;
        let ghost c0 = children48@;
        let mut keys: Vec<u8> = Vec::new();
        let mut children: Vec<Node<V>> = Vec::new();
        let mut b: usize = 0;
        while b < 256
            invariant
                old_node.ok(),
                old_node.len <= 16,
                keys48@ == old_node.keys@,
                c0 == old_node.children@,
                children48@.len() == 48,
                b <= 256,
                keys@.len() == children@.len(),
                keys@.len() == count_used(keys48@.take(b as int)),
                increasing(keys@),
                forall|j: int| 0 <= j < keys@.len() ==> #[trigger] keys@[j] < b,
                forall|j: int|
                    0 <= j < keys@.len() ==> keys48@[#[trigger] keys@[j] as int] != EMPTY_INDEX && Some(
                        children@[j],
                    ) == c0[keys48@[keys@[j] as int] as int],
                forall|x: int|
                    0 <= x < b && keys48@[x] != EMPTY_INDEX ==> exists|j: int|
                        0 <= j < keys@.len() && keys@[j] == x,
                forall|x: int|
                    b <= x < 256 && keys48@[x] != EMPTY_INDEX ==> children48@[keys48@[x] as int]
                        == c0[keys48@[x] as int],
            decreases 256 - b,
        {
            let index = keys48[b];
            proof {
                lemma_count_take(keys48@, used(), b as int);
            }
            if index != EMPTY_INDEX {
                let mut taken = None;
                children48.set_and_swap(index as usize, &mut taken);
                let ghost k0 = keys@;
                keys.push(b as u8);
                children.push(taken.unwrap());
                proof {
                    assert forall|x: int|
                        b + 1 <= x < 256 && keys48@[x] != EMPTY_INDEX implies children48@[keys48@[x] as int]
                        == c0[keys48@[x] as int] by {
                        assert(keys48@[x] != keys48@[b as int]);
                    }
                    assert forall|x: int|
                        0 <= x < b + 1 && keys48@[x] != EMPTY_INDEX implies exists|j: int|
                        0 <= j < keys@.len() && keys@[j] == x by {
                        if x == b {
                            assert(keys@[k0.len() as int] == x);
                        } else {
                            let j = choose|j: int| 0 <= j < k0.len() && k0[j] == x;
                            assert(keys@[j] == x);
                        }
                    }
                }
            }
            b += 1;
        }
        proof {
            assert(keys48@.take(256) =~= keys48@);
            assert forall|x: u8| #[trigger]
                sorted_slot(keys@, children@, x) == old_node.slot(x) by {
                if keys48@[x as int] != EMPTY_INDEX {
                    let j = choose|j: int| 0 <= j < keys@.len() && keys@[j] == x as int;
                    lemma_pos(keys@, j);
                } else {
                    assert forall|j: int| 0 <= j < keys@.len() implies keys@[j] != x by {}
                }
            }
        }
        Node16 { header, keys, children }
    }
}

impl<V> Node48<V> {
    /// The `Node48` with the header and children of a `Node16`.
    pub fn from_node16(node: Node16<V>) -> (new: Self)
        requires
            node.ok(),
        ensures
            new.ok(),
            new.header == node.header,
            new.len == node.keys@.len(),
            forall|b: u8| #[trigger] new.slot(b) == node.slot(b),
    {
        let ghost old_node = node;
        let Node16 { header, keys: keys16, children: mut children16 } = node;
        let ghost c0 = children16@;
        let n = keys16.len();
        let mut keys = empty_keys();
        let mut children = empty_slots(48);
        while children16.len() > 0
            invariant
                old_node.ok(),
                keys16@ == old_node.keys@,
                c0 == old_node.children@,
                n == keys16@.len(),
                n <= 16,
                children16@.len() <= n,
                children16@ == c0.take(children16@.len() as int),
                keys@.len() == 256,
                children@.len() == 48,
                count_used(keys@) == n - children16@.len(),
                count_some(children@) == n - children16@.len(),
                forall|x: int|
                    0 <= x < 256 ==> #[trigger] keys@[x] == EMPTY_INDEX || (children16@.len() <= keys@[x] < n
                        && keys16@[keys@[x] as int] == x),
                forall|i: int|
                    children16@.len() <= i < n ==> keys@[#[trigger] keys16@[i] as int] == i && children@[i]
                        == Some(c0[i]),
                forall|s: int| 0 <= s < 48 ==> (#[trigger] children@[s] is Some <==> children16@.len() <= s < n),
            decreases children16@.len(),
        {
            let ghost m = children16@.len();
            let c = children16.pop().unwrap();
            let i = children16.len();
            let b = keys16[i];
            proof {
                assert(c == c0[i as int]);
                if keys@[b as int] != EMPTY_INDEX {
                    let j = keys@[b as int] as int;
                    assert(keys16@[j] == b);
                    if j > i {
                        assert(keys16@[i as int] < keys16@[j]);
                    }
                }
                lemma_count_update(keys@, used(), b as int, i as u8);
                lemma_count_update(children@, present(), i as int, Some(c));
            }
            keys.set(b as usize, i as u8);
            children.set(i, Some(c));
            proof {
                assert forall|x: int| 0 <= x < 256 implies #[trigger] keys@[x] == EMPTY_INDEX || (
                children16@.len() <= keys@[x] < n && keys16@[keys@[x] as int] == x) by {}
                assert forall|i2: int| children16@.len() <= i2 < n implies keys@[#[trigger] keys16@[i2] as int]
                    == i2 && children@[i2] == Some(c0[i2]) by {
                    if i2 > i {
                        assert(keys16@[i as int] < keys16@[i2]);
                    }
                }
            }
        }
        let new = Node48 { header, len: n, keys, children };
        proof {
            assert forall|x: int| 0 <= x < 256 && #[trigger] keys@[x] != EMPTY_INDEX implies keys@[x] < 48
                && children@[keys@[x] as int] is Some by {}
            assert forall|s: int| 0 <= s < 48 && #[trigger] children@[s] is Some implies exists|x: int|
                0 <= x < 256 && keys@[x] == s by {
                assert(keys@[keys16@[s] as int] == s);
            }
            assert forall|x: u8| #[trigger] new.slot(x) == old_node.slot(x) by {
                if keys@[x as int] != EMPTY_INDEX {
                    lemma_pos(keys16@, keys@[x as int] as int);
                } else {
                    assert forall|j: int| 0 <= j < keys16@.len() implies keys16@[j] != x by {
                        assert(keys@[keys16@[j] as int] == j);
                    }
                }
            }
        }
        new
    }

    /// The `Node48` with the header and children of a `Node256` that has at
    /// most 48, in slots taken in the order of their bytes.
    pub fn from_node256(node: Node256<V>) -> (new: Self)
        requires
            node.ok(),
            node.len <= 48,
        ensures
            new.ok(),
            new.header == node.header,
            new.len == node.len,
            forall|b: u8| #[trigger] new.slot(b) == node.slot(b),
    {
        let ghost old_node = node;
        let Node256 { header, len: len256, children: mut children256 } = node;
        let ghost c0 = children256@;
        let mut keys = empty_keys();
        let mut children = empty_slots(48);
        let mut len: usize = 0;
        let ghost mut owner: Seq<int> = Seq::empty();
        let mut b: usize = 0;
        while b < 256
            invariant
                old_node.ok(),
                old_node.len <= 48,
                c0 == old_node.children@,
                children256@.len() == 256,
                b <= 256,
                len == count_some(c0.take(b as int)),
                len <= 48,
                keys@.len() == 256,
                children@.len() == 48,
                owner.len() == len,
                forall|x: int|
                    0 <= x < b ==> (#[trigger] keys@[x] == EMPTY_INDEX <==> c0[x] is None),
                forall|x: int|
                    0 <= x < b && c0[x] is Some ==> #[trigger] keys@[x] < len && children@[keys@[x] as int]
                        == c0[x],
                forall|x: int| b <= x < 256 ==> #[trigger] keys@[x] == EMPTY_INDEX,
                forall|x: int| b <= x < 256 ==> #[trigger] children256@[x] == c0[x],
                forall|s: int| 0 <= s < 48 ==> (#[trigger] children@[s] is Some <==> s < len),
                forall|x1: int, x2: int|
                    0 <= x1 < x2 < b && #[trigger] keys@[x1] != EMPTY_INDEX && #[trigger] keys@[x2]
                        != EMPTY_INDEX ==> keys@[x1] < keys@[x2],
                forall|s: int|
                    0 <= s < len ==> 0 <= #[trigger] owner[s] < b && keys@[owner[s]] == s,
            decreases 256 - b,
        {
            proof {
                lemma_count_take(c0, present(), b as int);
                lemma_count_take_le(c0, present(), b as int + 1);
            }
            if children256[b].is_some() {
                let mut taken = None;
                children256.set_and_swap(b, &mut taken);
                keys.set(b, len as u8);
                children.set(len, taken);
                proof {
                    owner = owner.push(b as int);
                }
                len = len + 1;
            }
            b += 1;
        }
        proof {
            assert(c0.take(256) =~= c0);
            lemma_count_match(keys@, used(), c0, present());
            lemma_count_prefix(children@, present(), len as int);
        }
        let new = Node48 { header, len, keys, children };
        proof {
            assert forall|x: int| 0 <= x < 256 && #[trigger] keys@[x] != EMPTY_INDEX implies keys@[x] < 48
                && children@[keys@[x] as int] is Some by {}
            assert forall|x1: int, x2: int|
                0 <= x1 < 256 && 0 <= x2 < 256 && x1 != x2 && #[trigger] keys@[x1] != EMPTY_INDEX implies keys@[x1]
                != #[trigger] keys@[x2] by {
                if keys@[x2] != EMPTY_INDEX {
                    if x1 < x2 {
                        assert(keys@[x1] < keys@[x2]);
                    } else {
                        assert(keys@[x2] < keys@[x1]);
                    }
                }
            }
            assert forall|s: int| 0 <= s < 48 && #[trigger] children@[s] is Some implies exists|x: int|
                0 <= x < 256 && keys@[x] == s by {
                assert(keys@[owner[s]] == s);
            }
            assert forall|x: u8| #[trigger] new.slot(x) == old_node.slot(x) by {}
        }
        new
    }
}

impl<V> Node256<V> {
    /// The `Node256` with the header and children of a `Node48`.
    pub fn from_node48(node: Node48<V>) -> (new: Self)
        requires
            node.ok(),
        ensures
            new.ok(),
            new.header == node.header,
            new.len == node.len,
            forall|b: u8| #[trigger] new.slot(b) == node.slot(b),
    {
        let ghost old_node = node;
        let Node48 { header, len, keys: keys48, children: mut children48 } = node;
        let ghost c0 = children48@;
        let mut children = empty_slots(256);
        let mut b: usize = 0;
        while b < 256
            invariant
                old_node.ok(),
                keys48@ == old_node.keys@,
                c0 == old_node.children@,
                children48@.len() == 48,
                children@.len() == 256,
                b <= 256,
                forall|x: int| 0 <= x < b ==> #[trigger] children@[x] == old_node.slot(x as u8),
                forall|x: int| b <= x < 256 ==> #[trigger] children@[x] is None,
                forall|x: int|
                    b <= x < 256 && keys48@[x] != EMPTY_INDEX ==> children48@[keys48@[x] as int]
                        == c0[keys48@[x] as int],
            decreases 256 - b,
        {
            let index = keys48[b];
            if index != EMPTY_INDEX {
                let mut taken = None;
                children48.set_and_swap(index as usize, &mut taken);
                children.set(b, taken);
                proof {
                    assert forall|x: int|
                        b + 1 <= x < 256 && keys48@[x] != EMPTY_INDEX implies children48@[keys48@[x] as int]
                        == c0[keys48@[x] as int] by {
                        assert(keys48@[x] != keys48@[b as int]);
                    }
                }
            }
            b += 1;
        }
        proof {
            lemma_count_match(children@, present(), keys48@, used());
        }
        let new = Node256 { header, len, children };
        assert forall|x: u8| #[trigger] new.slot(x) == old_node.slot(x) by {
            assert(children@[x as int] == old_node.slot(x));
        }
        new
    }
}

} // verus!
