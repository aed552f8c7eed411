//! Queues whose items share one slab.

use crate::collections::{Room, SlotKey, Slots};
use vstd::prelude::*;

verus! {

/// An item, and the item that follows it in its queue.
pub struct Node<T> {
    pub item: T,
    next: Option<SlotKey>,
}

/// One queue.
pub struct Chain {
    head: Option<SlotKey>,
    tail: Option<SlotKey>,
    keys: Ghost<Seq<SlotKey>>,
}

/// The items of all queues.
#[verifier::reject_recursive_types(T)]
pub struct Chains<T> {
    nodes: Slots<Node<T>>,
}

/// The first key.
spec fn first_key(keys: Seq<SlotKey>) -> Option<SlotKey> {
    if keys.len() == 0 {
        None
    } else {
        Some(keys[0])
    }
}

/// The last key.
spec fn last_key(keys: Seq<SlotKey>) -> Option<SlotKey> {
    if keys.len() == 0 {
        None
    } else {
        Some(keys[keys.len() - 1])
    }
}

/// The key after the one at `i`.
spec fn key_after(keys: Seq<SlotKey>, i: int) -> Option<SlotKey> {
    if i + 1 < keys.len() {
        Some(keys[i + 1])
    } else {
        None
    }
}

/// The nodes under `keys` are there and follow each other.
spec fn linked<T>(entries: Map<SlotKey, Node<T>>, keys: Seq<SlotKey>) -> bool {
    &&& keys.no_duplicates()
    &&& forall|i: int|
        #![trigger keys[i]]
        0 <= i < keys.len() ==> entries.contains_key(keys[i]) && entries[keys[i]].next == key_after(
            keys,
            i,
        )
}

impl Chain {
    /// The keys of the items.
    pub closed spec fn keys(&self) -> Seq<SlotKey> {
        self.keys@
    }
}

/// Two queues have no item in common.
pub open spec fn apart(a: Chain, b: Chain) -> bool {
    forall|k: SlotKey| !(#[trigger] a.keys().contains(k) && b.keys().contains(k))
}

impl<T> Chains<T> {
    /// Whether a queue is one of these.
    pub closed spec fn holds(&self, chain: Chain) -> bool {
        &&& linked(self.nodes.entries(), chain.keys())
        &&& chain.head == first_key(chain.keys())
        &&& chain.tail == last_key(chain.keys())
    }

    /// The items of a queue.
    pub closed spec fn items(&self, chain: Chain) -> Seq<T> {
        chain.keys().map_values(|k: SlotKey| self.nodes.entries()[k].item)
    }

    /// How many items there are in all queues, how many there can be, and how many were taken
    /// out.
    pub closed spec fn room(&self) -> Room {
        self.nodes.room()
    }

    /// Nothing has happened to a queue on the way to `other`.
    pub open spec fn keeps(&self, other: &Chains<T>, chain: Chain) -> bool {
        other.holds(chain) && other.items(chain) == self.items(chain)
    }

    /// Nothing has happened to the other queues on the way to `other`.
    pub open spec fn keeps_others(&self, other: &Chains<T>, chain: Chain) -> bool {
        forall|c: Chain|
            self.holds(c) && apart(chain, c) ==> #[trigger] self.keeps(other, c)
    }

    pub fn with_capacity(capacity: usize) -> (r: Self)
        requires
            capacity < u32::MAX,
        ensures
            r.room() == (Room { held: 0, limit: capacity as nat, spent: 0 }),
    {
        Chains { nodes: Slots::with_capacity(capacity) }
    }

    /// A queue with no items.
    pub fn chain(&self) -> (r: Chain)
        ensures
            self.holds(r),
            self.items(r) == Seq::<T>::empty(),
            r.keys() == Seq::<SlotKey>::empty(),
    {
        let r = Chain { head: None, tail: None, keys: Ghost(Seq::empty()) };
        assert(self.items(r) =~= Seq::<T>::empty());
        r
    }

    /// A queue has as many keys as items.
    pub proof fn lemma_len(&self, chain: Chain)
        ensures
            self.items(chain).len() == chain.keys().len(),
    {
    }

    /// Whether a queue has no items.
    pub fn is_empty(&self, chain: &Chain) -> (r: bool)
        requires
            self.holds(*chain),
        ensures
            r == (self.items(*chain).len() == 0),
    {
        chain.head.is_none()
    }

    proof fn lemma_kept(&self, next: &Chains<T>, other: Chain)
        requires
            self.holds(other),
            forall|i: int|
                0 <= i < other.keys().len() ==> next.nodes.entries().contains_key(
                    #[trigger] other.keys()[i],
                ) && next.nodes.entries()[other.keys()[i]]
                    == self.nodes.entries()[other.keys()[i]],
        ensures
            self.keeps(next, other),
    {
        assert(next.items(other) =~= self.items(other));
    }

    /// Appends an item to a queue, or gives it back where there is no room for it.
    pub fn push_back(&mut self, chain: &mut Chain, item: T) -> (r: Result<(), T>)
        requires
            old(self).holds(*old(chain)),
        ensures
            final(self).holds(*final(chain)),
            old(self).room().gives(false) ==> r is Ok,
            r is Ok ==> old(self).room().gives(true),
            final(self).room() == (if r is Ok {
                old(self).room().more()
            } else {
                old(self).room()
            }),
            match r {
                Ok(_) => final(self).items(*final(chain)) == old(self).items(*old(chain)).push(
                    item,
                ),
                Err(v) => v == item && *final(chain) == *old(chain) && final(self).items(
                    *final(chain),
                ) == old(self).items(*old(chain)),
            },
            forall|other: Chain|
                old(self).holds(other) && apart(*old(chain), other) ==> #[trigger] old(self).keeps(
                    final(self),
                    other,
                ) && apart(*final(chain), other),
    {
        let ghost keys = chain.keys();
        let ghost entries = self.nodes.entries();
        let key = match self.nodes.insert(Node { item, next: None }) {
            Err(node) => {
                proof {
                    assert forall|other: Chain| old(self).holds(other) implies #[trigger] old(
                        self,
                    ).keeps(self, other) by {
                        old(self).lemma_kept(self, other);
                    }
                }
                return Err(node.item);
            },
            Ok(key) => key,
        };
        assert(!keys.contains(key));
        let ghost grown = self.nodes.entries();
        if let Some(tail) = chain.tail {
            if let Some(node) = self.nodes.get_mut(tail) {
                node.next = Some(key);
            }
        } else {
            chain.head = Some(key);
        }
        chain.tail = Some(key);
        proof {
            chain.keys@ = keys.push(key);
        }
        proof {
            assert(self.nodes.entries().dom() =~= grown.dom());
            let all = self.nodes.entries();
            let now = chain.keys();
            assert forall|i: int| 0 <= i < now.len() implies all.contains_key(#[trigger] now[i])
                && all[now[i]].next == key_after(now, i) by {
                if i < keys.len() {
                    assert(now[i] == keys[i]);
                    assert(key_after(keys, i) == entries[keys[i]].next);
                }
            }
            assert(linked(all, now));
            assert forall|i: int| 0 <= i < keys.len() implies all[#[trigger] keys[i]].item
                == entries[keys[i]].item by {}
            assert(self.items(*chain) =~= old(self).items(*old(chain)).push(item));
            assert forall|other: Chain|
                old(self).holds(other) && apart(*old(chain), other) implies #[trigger] old(
                self,
            ).keeps(self, other) && apart(*chain, other) by {
                assert forall|i: int| 0 <= i < other.keys().len() implies all.contains_key(
                    #[trigger] other.keys()[i],
                ) && all[other.keys()[i]] == entries[other.keys()[i]] by {
                    let k = other.keys()[i];
                    assert(other.keys().contains(k));
                    assert(entries.contains_key(k));
                    if keys.len() > 0 {
                        assert(keys.contains(keys[keys.len() - 1]));
                        assert(k != keys[keys.len() - 1]);
                    }
                }
                old(self).lemma_kept(self, other);
                assert forall|k: SlotKey| !(#[trigger] chain.keys().contains(k)
                    && other.keys().contains(k)) by {
                    if other.keys().contains(k) && chain.keys().contains(k) {
                        let i = choose|i: int| 0 <= i < other.keys().len() && other.keys()[i] == k;
                        assert(entries.contains_key(other.keys()[i]));
                        assert(k != key);
                        let j = choose|j: int| 0 <= j < now.len() && now[j] == k;
                        assert(keys[j] == k);
                        assert(keys.contains(k));
                    }
                }
            }
        }
        Ok(())
    }

    /// The first item of a queue.
    pub fn front(&self, chain: &Chain) -> (r: Option<&T>)
        requires
            self.holds(*chain),
        ensures
            r == (if self.items(*chain).len() > 0 {
                Some(&self.items(*chain)[0])
            } else {
                None
            }),
    {
        match chain.head {
            None => None,
            Some(key) => {
                assert(chain.keys()[0] == key);
                match self.nodes.get(key) {
                    Some(node) => Some(&node.item),
                    None => None,
                }
            },
        }
    }

    proof fn lemma_changed(&self, next: &Chains<T>, chain: Chain, at: int, node: Node<T>)
        requires
            self.holds(chain),
            0 <= at < chain.keys().len(),
            next.nodes.entries() == self.nodes.entries().insert(chain.keys()[at], node),
            node.next == self.nodes.entries()[chain.keys()[at]].next,
        ensures
            next.holds(chain),
            next.items(chain) == self.items(chain).update(at, node.item),
            forall|other: Chain|
                self.holds(other) && apart(chain, other) ==> #[trigger] self.keeps(next, other),
    {
        let keys = chain.keys();
        assert(next.items(chain) =~= self.items(chain).update(at, node.item));
        assert forall|other: Chain|
            self.holds(other) && apart(chain, other) implies #[trigger] self.keeps(next, other) by {
            assert forall|i: int| 0 <= i < other.keys().len() implies next.nodes.entries().contains_key(
                #[trigger] other.keys()[i],
            ) && next.nodes.entries()[other.keys()[i]] == self.nodes.entries()[other.keys()[i]] by {
                assert(other.keys().contains(other.keys()[i]));
                assert(keys.contains(keys[at]));
            }
            self.lemma_kept(next, other);
        }
    }

    fn swap_at(&mut self, chain: &Chain, key: SlotKey, item: &mut T, Ghost(at): Ghost<int>)
        requires
            old(self).holds(*chain),
            0 <= at < chain.keys().len(),
            chain.keys()[at] == key,
        ensures
            final(self).room() == old(self).room(),
            final(self).holds(*chain),
            *final(item) == old(self).items(*chain)[at],
            final(self).items(*chain) == old(self).items(*chain).update(at, *old(item)),
            old(self).keeps_others(final(self), *chain),
    {
        let ghost before = *self;
        let ghost given = *item;
        assert(before.nodes.entries().contains_key(chain.keys()[at]));
        if let Some(node) = self.nodes.get_mut(key) {
            core::mem::swap(&mut node.item, item);
        }
        proof {
            assert(self.nodes.entries().dom() =~= before.nodes.entries().dom());
            before.lemma_changed(
                self,
                *chain,
                at,
                Node { item: given, next: before.nodes.entries()[key].next },
            );
        }
    }

    /// Exchanges the first item of a queue.
    pub fn swap_front(&mut self, chain: &Chain, item: &mut T)
        requires
            old(self).holds(*chain),
            old(self).items(*chain).len() > 0,
        ensures
            final(self).room() == old(self).room(),
            final(self).holds(*chain),
            *final(item) == old(self).items(*chain)[0],
            final(self).items(*chain) == old(self).items(*chain).update(0, *old(item)),
            old(self).keeps_others(final(self), *chain),
    {
        if let Some(key) = chain.head {
            self.swap_at(chain, key, item, Ghost(0));
        }
    }

    /// Exchanges the last item of a queue.
    pub fn swap_back(&mut self, chain: &Chain, item: &mut T)
        requires
            old(self).holds(*chain),
            old(self).items(*chain).len() > 0,
        ensures
            final(self).room() == old(self).room(),
            final(self).holds(*chain),
            *final(item) == old(self).items(*chain).last(),
            final(self).items(*chain) == old(self).items(*chain).update(
                old(self).items(*chain).len() - 1,
                *old(item),
            ),
            old(self).keeps_others(final(self), *chain),
    {
        if let Some(key) = chain.tail {
            self.swap_at(chain, key, item, Ghost(chain.keys().len() - 1));
        }
    }

    /// Takes out the first item of a queue.
    pub fn pop_front(&mut self, chain: &mut Chain) -> (r: Option<T>)
        requires
            old(self).holds(*old(chain)),
        ensures
            final(self).room() == old(self).room().fewer(
                if r is Some {
                    1
                } else {
                    0
                },
            ),
            r is Some ==> old(self).room().held > 0,
            final(self).holds(*final(chain)),
            match r {
                Some(item) => old(self).items(*old(chain)).len() > 0 && item == old(self).items(
                    *old(chain),
                )[0] && final(self).items(*final(chain)) == old(self).items(
                    *old(chain),
                ).drop_first(),
                None => old(self).items(*old(chain)).len() == 0 && *final(chain) == *old(chain)
                    && final(self).items(*final(chain)) == old(self).items(*old(chain)),
            },
            old(self).keeps_others(final(self), *old(chain)),
            forall|k: SlotKey| #[trigger]
                final(chain).keys().contains(k) ==> old(chain).keys().contains(k),
    {
        let ghost before = *self;
        let ghost keys = chain.keys();
        let ghost entries = self.nodes.entries();
        match chain.head {
            None => None,
            Some(key) => {
                assert(keys[0] == key);
                assert(entries.contains_key(keys[0]));
                match self.nodes.remove(key) {
                    None => None,
                    Some(node) => {
                        assert(node.next == key_after(keys, 0));
                        chain.head = node.next;
                        if node.next.is_none() {
                            chain.tail = None;
                        }
                        proof {
                            chain.keys@ = keys.drop_first();
                            let now = keys.drop_first();
                            let all = self.nodes.entries();
                            assert forall|i: int| 0 <= i < now.len() implies all.contains_key(
                                #[trigger] now[i],
                            ) && all[now[i]].next == key_after(now, i) && all[now[i]]
                                == entries[now[i]] by {
                                assert(now[i] == keys[i + 1]);
                                assert(entries.contains_key(keys[i + 1]));
                                assert(keys[i + 1] != keys[0]);
                                assert(key_after(keys, i + 1) == key_after(now, i));
                            }
                            assert(now.no_duplicates());
                            assert(self.items(*chain) =~= before.items(*old(chain)).drop_first());
                            assert forall|other: Chain|
                                before.holds(other) && apart(
                                    *old(chain),
                                    other,
                                ) implies #[trigger] before.keeps(self, other) by {
                                assert forall|i: int| 0 <= i < other.keys().len() implies all.contains_key(
                                    #[trigger] other.keys()[i],
                                ) && all[other.keys()[i]] == entries[other.keys()[i]] by {
                                    assert(other.keys().contains(other.keys()[i]));
                                    assert(keys.contains(keys[0]));
                                    assert(entries.contains_key(other.keys()[i]));
                                }
                                before.lemma_kept(self, other);
                            }
                            assert forall|k: SlotKey| #[trigger]
                                chain.keys().contains(k) implies keys.contains(k) by {
                                let i = choose|i: int| 0 <= i < now.len() && now[i] == k;
                                assert(keys[i + 1] == k);
                            }
                        }
                        Some(node.item)
                    },
                }
            },
        }
    }

    /// Takes out all items of a queue.
    pub fn take_all(&mut self, chain: &mut Chain) -> (r: Vec<T>)
        requires
            old(self).holds(*old(chain)),
        ensures
            final(self).room() == old(self).room().fewer(old(self).items(*old(chain)).len()),
            old(self).items(*old(chain)).len() <= old(self).room().held,
            final(self).holds(*final(chain)),
            final(self).items(*final(chain)) == Seq::<T>::empty(),
            r@ == old(self).items(*old(chain)),
            old(self).keeps_others(final(self), *old(chain)),
            final(chain).keys().len() == 0,
    {
        let ghost before = *self;
        let ghost start = *chain;
        let mut r: Vec<T> = Vec::new();
        loop
            invariant
                before == *old(self),
                start == *old(chain),
                self.room() == before.room().fewer(r@.len()),
                r@.len() <= before.room().held,
                self.holds(*chain),
                before.items(start) == r@ + self.items(*chain),
                before.keeps_others(self, start),
                forall|k: SlotKey| #[trigger]
                    chain.keys().contains(k) ==> start.keys().contains(k),
            decreases self.items(*chain).len(),
        {
            let ghost at = *self;
            let ghost here = *chain;
            match self.pop_front(chain) {
                None => {
                    proof {
                        self.lemma_len(*chain);
                        assert(self.items(*chain) =~= Seq::<T>::empty());
                        assert(r@ =~= before.items(start));
                        assert forall|other: Chain|
                            before.holds(other) && apart(start, other) implies #[trigger] before.keeps(
                            self,
                            other,
                        ) by {
                            assert(before.keeps(&at, other));
                            assert(apart(here, other)) by {
                                assert forall|k: SlotKey| !(#[trigger] here.keys().contains(k)
                                    && other.keys().contains(k)) by {
                                    if here.keys().contains(k) {
                                        assert(start.keys().contains(k));
                                    }
                                }
                            }
                            assert(at.keeps(self, other));
                        }
                    }
                    return r;
                },
                Some(item) => {
                    let ghost got = r@;
                    r.push(item);
                    proof {
                        assert(at.items(here) =~= seq![item] + self.items(*chain));
                        assert(r@ + self.items(*chain) =~= got + at.items(here));
                        assert forall|other: Chain|
                            before.holds(other) && apart(start, other) implies #[trigger] before.keeps(
                            self,
                            other,
                        ) by {
                            assert(before.keeps(&at, other));
                            assert(apart(here, other)) by {
                                assert forall|k: SlotKey| !(#[trigger] here.keys().contains(k)
                                    && other.keys().contains(k)) by {
                                    if here.keys().contains(k) {
                                        assert(start.keys().contains(k));
                                    }
                                }
                            }
                            assert(at.keeps(self, other));
                        }
                    }
                },
            }
        }
    }
}

/// On the way from `a` to `b` a queue became another, and nothing else has happened.
pub open spec fn moved<T>(a: Chains<T>, x: Chain, b: Chains<T>, y: Chain) -> bool {
    forall|other: Chain|
        a.holds(other) && apart(x, other) ==> #[trigger] a.keeps(&b, other) && apart(y, other)
}

/// Queues by number, no two of which have an item in common.
pub open spec fn separate<T>(c: Chains<T>, m: Map<u32, Chain>) -> bool {
    &&& forall|id: u32| #[trigger] m.contains_key(id) ==> c.holds(m[id])
    &&& forall|i: u32, j: u32|
        #[trigger] m.contains_key(i) && #[trigger] m.contains_key(j) && i != j ==> apart(
            m[i],
            m[j],
        )
}

/// One step after another.
pub proof fn lemma_moved_on<T>(
    a: Chains<T>,
    x: Chain,
    b: Chains<T>,
    y: Chain,
    c: Chains<T>,
    z: Chain,
)
    requires
        moved(a, x, b, y),
        moved(b, y, c, z),
    ensures
        moved(a, x, c, z),
{
    assert forall|other: Chain| a.holds(other) && apart(x, other) implies #[trigger] a.keeps(
        &c,
        other,
    ) && apart(z, other) by {
        assert(a.keeps(&b, other));
        assert(b.keeps(&c, other));
    }
}

/// A queue that lost items, or none.
pub proof fn lemma_moved_within<T>(a: Chains<T>, x: Chain, b: Chains<T>, y: Chain)
    requires
        a.keeps_others(&b, x),
        forall|k: SlotKey| #[trigger] y.keys().contains(k) ==> x.keys().contains(k),
    ensures
        moved(a, x, b, y),
{
    assert forall|other: Chain| a.holds(other) && apart(x, other) implies #[trigger] a.keeps(
        &b,
        other,
    ) && apart(y, other) by {
        assert forall|k: SlotKey| !(#[trigger] y.keys().contains(k) && other.keys().contains(k)) by {
            if y.keys().contains(k) {
                assert(x.keys().contains(k));
            }
        }
    }
}

pub proof fn lemma_apart_both_ways(a: Chain, b: Chain)
    requires
        apart(a, b),
    ensures
        apart(b, a),
{
    assert forall|k: SlotKey| !(#[trigger] b.keys().contains(k) && a.keys().contains(k)) by {
        if a.keys().contains(k) {
            assert(!b.keys().contains(k));
        }
    }
}

/// One queue became another.
pub proof fn lemma_replaced<T>(c: Chains<T>, m: Map<u32, Chain>, id: u32, d: Chains<T>, y: Chain)
    requires
        separate(c, m),
        m.contains_key(id),
        moved(c, m[id], d, y),
        d.holds(y),
    ensures
        separate(d, m.insert(id, y)),
        forall|k: u32| #[trigger] m.contains_key(k) && k != id ==> c.keeps(&d, m[k]),
{
    let next = m.insert(id, y);
    assert forall|k: u32| #[trigger] m.contains_key(k) && k != id implies c.keeps(&d, m[k])
        && apart(y, m[k]) by {
        assert(apart(m[id], m[k]));
    }
    assert forall|i: u32, j: u32|
        #[trigger] next.contains_key(i) && #[trigger] next.contains_key(j) && i != j implies apart(
        next[i],
        next[j],
    ) by {
        if i == id {
            assert(m.contains_key(j));
        } else if j == id {
            assert(m.contains_key(i));
            lemma_apart_both_ways(y, m[i]);
        } else {
            assert(m.contains_key(i) && m.contains_key(j));
        }
    }
    assert forall|i: u32| #[trigger] next.contains_key(i) implies d.holds(next[i]) by {
        if i != id {
            assert(m.contains_key(i));
        }
    }
}

/// One queue is gone.
pub proof fn lemma_without<T>(c: Chains<T>, m: Map<u32, Chain>, id: u32, d: Chains<T>)
    requires
        separate(c, m),
        m.contains_key(id),
        c.keeps_others(&d, m[id]),
    ensures
        separate(d, m.remove(id)),
        forall|k: u32| #[trigger] m.contains_key(k) && k != id ==> c.keeps(&d, m[k]),
{
    assert forall|k: u32| #[trigger] m.contains_key(k) && k != id implies c.keeps(&d, m[k]) by {
        assert(apart(m[id], m[k]));
    }
    let next = m.remove(id);
    assert forall|i: u32| #[trigger] next.contains_key(i) implies d.holds(next[i]) by {
        assert(m.contains_key(i));
        assert(c.keeps(&d, m[i]));
    }
    assert forall|i: u32, j: u32|
        #[trigger] next.contains_key(i) && #[trigger] next.contains_key(j) && i != j implies apart(
        next[i],
        next[j],
    ) by {
        assert(m.contains_key(i) && m.contains_key(j));
    }
}

/// A queue without items is one more.
pub proof fn lemma_one_more<T>(c: Chains<T>, m: Map<u32, Chain>, id: u32, y: Chain)
    requires
        separate(c, m),
        !m.contains_key(id),
        c.holds(y),
        y.keys().len() == 0,
    ensures
        separate(c, m.insert(id, y)),
{
    let next = m.insert(id, y);
    assert forall|i: u32, j: u32|
        #[trigger] next.contains_key(i) && #[trigger] next.contains_key(j) && i != j implies apart(
        next[i],
        next[j],
    ) by {
        if i != id && j != id {
            assert(m.contains_key(i) && m.contains_key(j));
        }
    }
    assert forall|i: u32| #[trigger] next.contains_key(i) implies c.holds(next[i]) by {
        if i != id {
            assert(m.contains_key(i));
        }
    }
}

/// A queue is no longer one of those that are counted; nothing has happened to it.
pub proof fn lemma_fewer<T>(c: Chains<T>, m: Map<u32, Chain>, id: u32)
    requires
        separate(c, m),
    ensures
        separate(c, m.remove(id)),
        m.contains_key(id) ==> forall|k: u32| #[trigger]
            m.remove(id).contains_key(k) ==> apart(m[id], m[k]),
{
    let next = m.remove(id);
    assert forall|i: u32| #[trigger] next.contains_key(i) implies c.holds(next[i]) by {
        assert(m.contains_key(i));
    }
    assert forall|i: u32, j: u32|
        #[trigger] next.contains_key(i) && #[trigger] next.contains_key(j) && i != j implies apart(
        next[i],
        next[j],
    ) by {
        assert(m.contains_key(i) && m.contains_key(j));
    }
    assert forall|k: u32| m.contains_key(id) && #[trigger] next.contains_key(k) implies apart(
        m[id],
        m[k],
    ) by {
        assert(m.contains_key(k));
    }
}

/// Nothing has happened to queues that have no item in common with one that has changed.
pub proof fn lemma_kept<T>(c: Chains<T>, m: Map<u32, Chain>, x: Chain, d: Chains<T>)
    requires
        separate(c, m),
        forall|k: u32| #[trigger] m.contains_key(k) ==> apart(x, m[k]),
        c.keeps_others(&d, x),
    ensures
        separate(d, m),
        forall|k: u32| #[trigger] m.contains_key(k) ==> c.keeps(&d, m[k]),
{
    assert forall|k: u32| #[trigger] m.contains_key(k) implies c.keeps(&d, m[k]) by {
        assert(apart(x, m[k]));
    }
    assert forall|i: u32| #[trigger] m.contains_key(i) implies d.holds(m[i]) by {
        assert(c.keeps(&d, m[i]));
    }
}

} // verus!
