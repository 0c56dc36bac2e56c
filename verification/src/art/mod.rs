//! An adaptive radix tree: a map whose keys are byte strings, stored along
//! the paths of a tree whose inner nodes come in four sizes and compress the
//! paths where there is no branch.
pub mod node;
pub mod count;
pub mod sorted;
pub mod indexed;
pub mod convert;
pub mod ops;
pub mod path;
pub mod tree;
pub mod remove;

use vstd::prelude::*;
use vstd::string::StrSliceExecFns;
use vstd::utf8::{
    encode_utf8, encode_scalar, leading_byte_width_1, leading_byte_width_2, leading_byte_width_3,
    leading_byte_width_4, last_continuation_byte, second_last_continuation_byte,
    third_last_continuation_byte,
};
use self::node::{Node, Node256, NodeType, KEY_ENDMARK, wf, big, get, terminated, lemma_get_in, lemma_some_leaf};
use self::tree::{is_root, same_key, inserted};
use self::remove::removed;

verus! {

/// A key that the tree can hold: it is stored as the bytes of its
/// encoding, which end with `KEY_ENDMARK` and hold it nowhere else, so that
/// no encoding starts another.
pub trait Encodable {
    /// The encoding of the key.
    spec fn encoded(&self) -> Seq<u8>;

    /// Every encoding ends with `KEY_ENDMARK` and holds it nowhere else.
    proof fn lemma_encoded_terminated(&self)
        ensures
            terminated(self.encoded()),
    ;

    /// The encoding of the key.
    fn encode(&self) -> (r: Vec<u8>)
        ensures
            r@ == self.encoded(),
    ;
}

/// No byte of a UTF-8 encoding is `0xff`.
proof fn lemma_utf8_bytes(c: u32)
    by (bit_vector)
    ensures
        ((c & 0x7F) as u8) != 0xffu8,
        (0xC0u8 | ((c >> 6u32) & 0x1Fu32) as u8) != 0xffu8,
        (0xE0u8 | ((c >> 12u32) & 0x0Fu32) as u8) != 0xffu8,
        (0xF0u8 | ((c >> 18u32) & 0x7u32) as u8) != 0xffu8,
        (0x80u8 | (c & 0x3Fu32) as u8) != 0xffu8,
        (0x80u8 | ((c >> 6u32) & 0x3Fu32) as u8) != 0xffu8,
        (0x80u8 | ((c >> 12u32) & 0x3Fu32) as u8) != 0xffu8,
{
}

/// The UTF-8 encoding of any characters holds no `KEY_ENDMARK`.
proof fn lemma_utf8_no_endmark(chars: Seq<char>)
    ensures
        forall|i: int| 0 <= i < encode_utf8(chars).len() ==> encode_utf8(chars)[i] != KEY_ENDMARK,
    decreases chars.len(),
{
    if chars.len() > 0 {
        let c = chars[0] as u32;
        lemma_utf8_bytes(c);
        assert(leading_byte_width_1(c) != KEY_ENDMARK);
        assert(leading_byte_width_2(c) != KEY_ENDMARK);
        assert(leading_byte_width_3(c) != KEY_ENDMARK);
        assert(leading_byte_width_4(c) != KEY_ENDMARK);
        assert(last_continuation_byte(c) != KEY_ENDMARK);
        assert(second_last_continuation_byte(c) != KEY_ENDMARK);
        assert(third_last_continuation_byte(c) != KEY_ENDMARK);
        let head = encode_scalar(c);
        assert(forall|i: int| 0 <= i < head.len() ==> head[i] != KEY_ENDMARK);
        lemma_utf8_no_endmark(chars.drop_first());
        let tail = encode_utf8(chars.drop_first());
        assert(encode_utf8(chars) == head + tail);
        assert forall|i: int| 0 <= i < encode_utf8(chars).len() implies encode_utf8(chars)[i] != KEY_ENDMARK by {
            if i >= head.len() {
                assert(encode_utf8(chars)[i] == tail[i - head.len()]);
            }
        }
    }
}

impl Encodable for String {
    /// The UTF-8 bytes of the string, then `KEY_ENDMARK`.
    open spec fn encoded(&self) -> Seq<u8> {
        encode_utf8(self@) + seq![KEY_ENDMARK]
    }

    proof fn lemma_encoded_terminated(&self) {
        lemma_utf8_no_endmark(self@);
    }

    fn encode(&self) -> (r: Vec<u8>) {
        let mut array = self.as_str().as_bytes_vec();
        array.push(KEY_ENDMARK);
        array
    }
}

/// An adaptive radix tree from keys of type `K` to values of type `V`. The
/// root is a `Node256` with an empty compressed path.
pub struct ART<K, V> {
    root: Node<V>,
    _marker: std::marker::PhantomData<K>,
}

impl<K, V> View for ART<K, V> {
    type V = Map<Seq<u8>, V>;

    /// The encoded keys that the tree holds, with their values.
    closed spec fn view(&self) -> Map<Seq<u8>, V> {
        Map::new(|k: Seq<u8>| get(self.root, k, 0) is Some, |k: Seq<u8>| get(self.root, k, 0)->Some_0)
    }
}

impl<K: Encodable, V> ART<K, V> {
    /// The tree is well formed.
    pub closed spec fn wf(&self) -> bool {
        is_root(self.root) && wf(self.root, Seq::empty())
    }

    /// An empty tree.
    pub fn new() -> (t: Self)
        ensures
            t.wf(),
            t@ == Map::<Seq<u8>, V>::empty(),
    {
        let root = Node::Node256(Box::new(Node256::default()));
        let t = ART { root, _marker: std::marker::PhantomData };
        assert(t@ =~= Map::<Seq<u8>, V>::empty());
        t
    }

    /// Inserts `key` with `value`; hands `value` back where the tree holds
    /// `key` already.
    pub fn insert(&mut self, key: &K, value: V) -> (r: Result<(), V>)
        requires
            old(self).wf(),
            key.encoded().len() <= u32::MAX,
        ensures
            final(self).wf(),
            match r {
                Ok(()) => {
                    &&& !old(self)@.contains_key(key.encoded())
                    &&& final(self)@ == old(self)@.insert(key.encoded(), value)
                },
                Err(v) => {
                    &&& v == value
                    &&& old(self)@.contains_key(key.encoded())
                    &&& final(self)@ == old(self)@
                },
            },
    {
        let keys = key.encode();
        proof {
            key.lemma_encoded_terminated();
            assert(keys@.take(0) =~= Seq::<u8>::empty());
        }
        let ghost old_root = self.root;
        let r = self.root.insert_at(&keys, 0, value, Ghost(Seq::empty()));
        proof {
            assert(inserted(old_root, self.root, keys@, 0, value, r));
            match r {
                Ok(()) => {
                    assert(self@ =~= old(self)@.insert(key.encoded(), value));
                },
                Err(_) => {
                    assert(self@ =~= old(self)@);
                },
            }
        }
        r
    }

    /// The value of `key`, if the tree holds it.
    pub fn lookup(&self, key: &K) -> (r: Option<&V>)
        requires
            self.wf(),
        ensures
            match r {
                Some(v) => self@.contains_key(key.encoded()) && *v == self@[key.encoded()],
                None => !self@.contains_key(key.encoded()),
            },
    {
        let keys = key.encode();
        let mut depth: usize = 0;
        let mut current = &self.root;
        let ghost mut p: Seq<u8> = Seq::empty();
        let mut at_leaf = current.node_type() == NodeType::Value;
        while depth < keys.len() && !at_leaf
            invariant
                keys@ == key.encoded(),
                p.len() == depth,
                wf(*current, p),
                big(*current) || (is_root(*current) && depth == 0),
                get(*current, keys@, depth as int) == get(self.root, keys@, 0),
                at_leaf == (*current is Value),
            decreases keys@.len() - depth,
        {
            proof {
                self::path::lemma_repr_header(*current);
                if big(*current) {
                    let lk = lemma_some_leaf(*current, p);
                    lemma_get_in(*current, p, lk);
                }
            }
            let next = depth + current.header().len as usize;
            if next >= keys.len() {
                proof {
                    assert(get(*current, keys@, depth as int) is None);
                    assert(!self@.contains_key(keys@));
                }
                return None;
            }
            match current.lookup(keys[next]) {
                Some(node) => {
                    proof {
                        p = self::node::child_path(*current, p, keys@[next as int]);
                    }
                    depth = next + 1;
                    current = node;
                    at_leaf = current.node_type() == NodeType::Value;
                },
                None => {
                    return None;
                },
            }
        }
        match current {
            Node::Value(l) => {
                if same_key(&l.key, &keys) {
                    Some(&l.value)
                } else {
                    None
                }
            },
            _ => None,
        }
    }

    /// Removes `key` and returns its value, if the tree holds it.
    pub fn remove(&mut self, key: &K) -> (r: Result<V, ()>)
        requires
            old(self).wf(),
        ensures
            final(self).wf(),
            match r {
                Ok(v) => {
                    &&& old(self)@.contains_key(key.encoded())
                    &&& v == old(self)@[key.encoded()]
                    &&& final(self)@ == old(self)@.remove(key.encoded())
                },
                Err(()) => {
                    &&& !old(self)@.contains_key(key.encoded())
                    &&& final(self)@ == old(self)@
                },
            },
    {
        let keys = key.encode();
        let ghost old_root = self.root;
        let r = self.root.remove_at(&keys, 0, false, Ghost(Seq::empty()));
        proof {
            assert(removed(old_root, self.root, keys@, 0, r));
            match r {
                Ok(_) => {
                    assert(self@ =~= old(self)@.remove(key.encoded()));
                },
                Err(_) => {
                    assert(self@ =~= old(self)@);
                },
            }
        }
        r
    }
}

} // verus!
