use vstd::prelude::*;
use crate::symbol::{Char, ALPHABET};

verus! {

/// What one child slot of a node holds, when it holds anything.
enum Link<T> {
    /// A branching subtree.
    Node(Box<Node<T>>),
    /// A value with nothing below it.
    Leaf(Box<Leaf<T>>),
}

struct Leaf<T>(T);

struct Node<T> {
    children: [Option<Link<T>>; ALPHABET],
    value: Option<T>,
}

/// The value stored under the symbols `k`, read from `n` downwards.
spec fn node_get<T>(n: Node<T>, k: Seq<Char>) -> Option<T>
    decreases k.len(),
{
    if k.len() == 0 {
        n.value
    } else {
        let i = k[0].spec_index();
        if 0 <= i < ALPHABET {
            match n.children[i] {
                None => None,
                Some(Link::Leaf(leaf)) => if k.len() == 1 {
                    Some(leaf.0)
                } else {
                    None
                },
                Some(Link::Node(child)) => node_get(*child, k.drop_first()),
            }
        } else {
            None
        }
    }
}

/// The value stored under `k` below the slot content `l`.
spec fn link_get<T>(l: Option<Link<T>>, k: Seq<Char>) -> Option<T> {
    match l {
        None => None,
        Some(Link::Leaf(leaf)) => if k.len() == 0 {
            Some(leaf.0)
        } else {
            None
        },
        Some(Link::Node(child)) => node_get(*child, k),
    }
}

impl<T> Node<T> {
    /// A node with no children, holding `value` itself.
    fn empty(value: Option<T>) -> (r: Node<T>)
        ensures
            r.value == value,
            forall|k: Seq<Char>| k.len() > 0 ==> node_get(r, k) is None,
    {
        Node {
            children: [
                None,
                None,
                None,
                None,
                None,
                None,
                None,
                None,
                None,
                None,
                None,
                None,
                None,
                None,
                None,
                None,
                None,
                None,
                None,
                None,
                None,
                None,
                None,
                None,
                None,
                None,
            ],
            value,
        }
    }
}

impl<T> Node<T> {
    /// Stores `value` under the symbols `key[i..]`, counted from this node.
    fn insert_below(&mut self, key: &[Char], i: usize, value: T)
        requires
            i < key@.len(),
        ensures
            forall|k: Seq<Char>|
                node_get(*final(self), k) == if k == key@.subrange(i as int, key@.len() as int) {
                    Some(value)
                } else {
                    node_get(*old(self), k)
                },
        decreases key@.len() - i,
    {
        let ghost before = *self;
        let ghost rest = key@.subrange(i as int, key@.len() as int);
        let ghost tail = key@.subrange(i + 1, key@.len() as int);
        assert(rest.drop_first() =~= tail);
        let c = key[i].index();
        let slot = self.children[c].take();
        let ghost old_slot = slot;
        let link = if i + 1 == key.len() {
            match slot {
                Some(Link::Node(mut child)) => {
                    child.value = Some(value);
                    Link::Node(child)
                },
                Some(Link::Leaf(mut leaf)) => {
                    leaf.0 = value;
                    Link::Leaf(leaf)
                },
                None => Link::Leaf(Box::new(Leaf(value))),
            }
        } else {
            let mut child = match slot {
                Some(Link::Node(child)) => child,
                // the key that made the leaf ends here: its value moves onto the new node
                Some(Link::Leaf(leaf)) => Box::new(Node::empty(Some(leaf.0))),
                None => Box::new(Node::empty(None)),
            };
            assert forall|k: Seq<Char>| node_get(*child, k) == link_get(old_slot, k) by {
                if k.len() > 0 {
                    assert(node_get(*child, k) == link_get(old_slot, k));
                }
            }
            child.insert_below(key, i + 1, value);
            Link::Node(child)
        };
        assert forall|k: Seq<Char>|
            link_get(Some(link), k) == if k == tail {
                Some(value)
            } else {
                link_get(old_slot, k)
            } by {
            if tail.len() == 0 && k.len() == 0 {
                assert(k =~= tail);
            }
        }
        self.children[c] = Some(link);
        assert forall|k: Seq<Char>|
            node_get(*self, k) == if k == rest {
                Some(value)
            } else {
                node_get(before, k)
            } by {
            if k.len() == 0 {
                assert(k != rest);
            } else {
                let j = k[0].spec_index();
                if 0 <= j < ALPHABET {
                    if j == c {
                        Char::lemma_byte_injective(k[0], key@[i as int]);
                        assert(rest[0] == key@[i as int]);
                        if k[0] == key@[i as int] && k.drop_first() == tail {
                            assert forall|m: int| 0 < m < k.len() implies k[m] == rest[m] by {
                                assert(k[m] == k.drop_first()[m - 1]);
                            }
                            assert(k =~= rest);
                        }
                        assert(node_get(*self, k) == link_get(Some(link), k.drop_first()));
                        assert(node_get(before, k) == link_get(old_slot, k.drop_first()));
                    } else {
                        assert(self.children[j] == before.children[j]);
                        assert(k != rest);
                    }
                }
            }
        }
    }
}

/// A map from non-empty keys over the alphabet `a`..=`z` to values.
pub struct Trie<T> {
    root: Node<T>,
}

impl<T> View for Trie<T> {
    type V = Map<Seq<Char>, T>;

    closed spec fn view(&self) -> Map<Seq<Char>, T> {
        Map::new(
            |k: Seq<Char>| k.len() > 0 && node_get(self.root, k) is Some,
            |k: Seq<Char>| node_get(self.root, k)->Some_0,
        )
    }
}

impl<T> Trie<T> {
    /// The value stored under `key`, if any.
    pub fn find(&self, key: &[Char]) -> (r: Option<&T>)
        requires
            key@.len() > 0,
        ensures
            r is Some <==> self@.contains_key(key@),
            r is Some ==> *r->Some_0 == self@[key@],
    {
        let last = key.len() - 1;
        let mut curr = &self.root;
        let mut i: usize = 0;
        assert(key@.subrange(0, key@.len() as int) =~= key@);
        while i < last
            invariant
                last + 1 == key@.len(),
                i <= last,
                node_get(self.root, key@) == node_get(*curr, key@.subrange(i as int, key@.len() as int)),
            decreases last - i,
        {
            let ghost rest = key@.subrange(i as int, key@.len() as int);
            assert(rest.drop_first() =~= key@.subrange(i + 1, key@.len() as int));
            match &curr.children[key[i].index()] {
                Some(Link::Node(child)) => curr = child,
                // nothing lies below a leaf, and nothing below an empty slot
                Some(Link::Leaf(_)) => return None,
                None => return None,
            }
            i = i + 1;
        }
        let ghost rest = key@.subrange(i as int, key@.len() as int);
        assert(rest.drop_first().len() == 0);
        assert(rest[0] == key@[last as int]);
        assert(self@.contains_key(key@) <==> node_get(self.root, key@) is Some);
        match &curr.children[key[last].index()] {
            Some(Link::Node(child)) => {
                assert(node_get(**child, rest.drop_first()) == child.value);
                child.value.as_ref()
            },
            Some(Link::Leaf(leaf)) => Some(&leaf.0),
            None => None,
        }
    }

    /// Stores `value` under `key`, replacing what was stored there before.
    pub fn insert(&mut self, key: &[Char], value: T)
        requires
            key@.len() > 0,
        ensures
            final(self)@ == old(self)@.insert(key@, value),
    {
        self.root.insert_below(key, 0, value);
        assert(key@.subrange(0, key@.len() as int) =~= key@);
        assert(self@ =~= old(self)@.insert(key@, value));
    }

    /// An empty trie.
    pub fn new() -> (r: Trie<T>)
        ensures
            r@ == Map::<Seq<Char>, T>::empty(),
    {
        let r = Trie { root: Node::empty(None) };
        assert(r@ =~= Map::<Seq<Char>, T>::empty());
        r
    }
}

/// The contents of a trie that started empty and then had `entries` inserted, in order.
pub open spec fn inserted<T>(entries: Seq<(Seq<Char>, T)>) -> Map<Seq<Char>, T>
    decreases entries.len(),
{
    if entries.len() == 0 {
        Map::empty()
    } else {
        let e = entries.last();
        inserted(entries.drop_last()).insert(e.0, e.1)
    }
}

/// Right after `value` is inserted under `key`, looking `key` up finds `value`.
pub proof fn lemma_find_after_insert<T>(t: Trie<T>, key: Seq<Char>, value: T)
    requires
        key.len() > 0,
    ensures
        t@.insert(key, value).contains_key(key),
        t@.insert(key, value)[key] == value,
{
}

/// Inserting under one key twice keeps only the second value, and adds no other entry.
pub proof fn lemma_overwrite<T>(t: Trie<T>, key: Seq<Char>, v1: T, v2: T)
    requires
        key.len() > 0,
    ensures
        t@.insert(key, v1).insert(key, v2) == t@.insert(key, v2),
        t@.insert(key, v1).insert(key, v2)[key] == v2,
{
    assert(t@.insert(key, v1).insert(key, v2) =~= t@.insert(key, v2));
}

/// Inserting under a second, different key (also one that extends the first) leaves the value
/// under the first key in place: both stay retrievable.
pub proof fn lemma_distinct_keys_independent<T>(t: Trie<T>, k1: Seq<Char>, v1: T, k2: Seq<Char>, v2: T)
    requires
        k1.len() > 0,
        k2.len() > 0,
        k1 != k2,
    ensures
        t@.insert(k1, v1).insert(k2, v2).contains_key(k1),
        t@.insert(k1, v1).insert(k2, v2)[k1] == v1,
        t@.insert(k1, v1).insert(k2, v2).contains_key(k2),
        t@.insert(k1, v1).insert(k2, v2)[k2] == v2,
{
}

/// After a run of insertions into an empty trie, a key is present exactly when it was one of the
/// inserted keys, and then it holds the value of its last insertion.
pub proof fn lemma_only_inserted_keys<T>(entries: Seq<(Seq<Char>, T)>, key: Seq<Char>)
    ensures
        inserted(entries).contains_key(key) <==> exists|i: int|
            0 <= i < entries.len() && (#[trigger] entries[i]).0 == key,
        inserted(entries).contains_key(key) ==> exists|i: int|
            0 <= i < entries.len() && (#[trigger] entries[i]).0 == key && inserted(entries)[key]
                == entries[i].1 && forall|j: int| i < j < entries.len() ==> (#[trigger] entries[j]).0
                != key,
    decreases entries.len(),
{
    if entries.len() > 0 {
        let init = entries.drop_last();
        let n = entries.len() - 1;
        lemma_only_inserted_keys(init, key);
        if entries[n].0 == key {
            assert(entries[n].0 == key);
        } else {
            if inserted(init).contains_key(key) {
                let i = choose|i: int|
                    0 <= i < init.len() && (#[trigger] init[i]).0 == key && inserted(init)[key]
                        == init[i].1 && forall|j: int| i < j < init.len() ==> (#[trigger] init[j]).0
                        != key;
                assert(entries[i] == init[i]);
                assert forall|j: int| i < j < entries.len() implies (#[trigger] entries[j]).0 != key by {
                    if j < n {
                        assert(entries[j] == init[j]);
                    }
                }
            }
            if exists|i: int| 0 <= i < entries.len() && (#[trigger] entries[i]).0 == key {
                let i = choose|i: int| 0 <= i < entries.len() && (#[trigger] entries[i]).0 == key;
                assert(init[i] == entries[i]);
            }
        }
    }
}

} // verus!
