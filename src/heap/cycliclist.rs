use std::rc::Rc;
use vstd::prelude::*;

verus! {

/// A handle on one node of a [`CyclicList`]: the node's identity in the list
/// and a shared reference to its key.
pub struct Indexer<T> {
    id: usize,
    key: Rc<T>,
}

/// A cyclic sequence of keys. The node after the tail is the head and the
/// node before the head is the tail. Nodes are reached through [`Indexer`]
/// handles, which stay valid while their node is in the list.
pub struct CyclicList<T> {
    ids: Vec<usize>,
    keys: Vec<Rc<T>>,
    next_id: usize,
}

impl<T> Indexer<T> {
    /// Identity of the node this handle points to.
    pub closed spec fn id(&self) -> usize {
        self.id
    }

    /// Key of the node this handle points to.
    pub closed spec fn key_of(&self) -> T {
        *self.key
    }

    pub fn key(&self) -> (r: &T)
        ensures
            *r == self.key_of(),
    {
        &*self.key
    }

    /// The key, taken out of the handle when no other handle and no list
    /// still shares it; otherwise the handle is handed back.
    pub fn into_key(this: Self) -> (r: Result<T, Self>)
        ensures
            match r {
                Ok(k) => k == this.key_of(),
                Err(h) => h == this,
            },
    {
        let id = this.id;
        match Rc::try_unwrap(this.key) {
            Ok(k) => Ok(k),
            Err(p) => Err(Indexer { id, key: p }),
        }
    }
}

impl<T> Clone for Indexer<T> {
    fn clone(&self) -> (r: Self)
        ensures
            r == *self,
    {
        Indexer { id: self.id, key: Rc::clone(&self.key) }
    }
}

impl<T> View for CyclicList<T> {
    type V = Seq<T>;

    /// The keys in order, from the head to the tail.
    closed spec fn view(&self) -> Seq<T> {
        self.keys@.map_values(|k: Rc<T>| *k)
    }
}

impl<T> CyclicList<T> {
    /// Node identities in order, from the head to the tail.
    pub closed spec fn id_seq(&self) -> Seq<usize> {
        self.ids@
    }

    /// How many nodes the list has made so far; each node gets an identity
    /// of its own, so a list makes fewer than `usize::MAX` of them.
    pub closed spec fn made(&self) -> nat {
        self.next_id as nat
    }

    pub closed spec fn wf(&self) -> bool {
        &&& self.ids@.len() == self.keys@.len()
        &&& self.ids@.len() > 0
        &&& forall|i: int, j: int|
            0 <= i < j < self.ids@.len() ==> #[trigger] self.ids@[i] != #[trigger] self.ids@[j]
        &&& forall|i: int| 0 <= i < self.ids@.len() ==> #[trigger] self.ids@[i] < self.next_id
    }

    /// A well-formed list has one identity per key, and at least one node.
    pub proof fn lemma_shape(&self)
        requires
            self.wf(),
        ensures
            self.id_seq().len() == self@.len(),
            self@.len() >= 1,
    {
    }

    /// The handle of the node at position `i`.
    pub open spec fn handle_at(&self, r: Indexer<T>, i: int) -> bool {
        r.id() == self.id_seq()[i] && r.key_of() == self@[i]
    }

    fn indexer_at(&self, i: usize) -> (r: Indexer<T>)
        requires
            self.wf(),
            i < self.id_seq().len(),
        ensures
            self.handle_at(r, i as int),
    {
        Indexer { id: self.ids[i], key: Rc::clone(&self.keys[i]) }
    }

    /// Position of the node with identity `id`, or the length if there is none.
    fn position(&self, id: usize) -> (r: usize)
        requires
            self.wf(),
        ensures
            r <= self.id_seq().len(),
            r < self.id_seq().len() ==> self.id_seq()[r as int] == id,
            r == self.id_seq().len() ==> !self.id_seq().contains(id),
    {
        let mut i: usize = 0;
        while i < self.ids.len()
            invariant
                self.wf(),
                0 <= i <= self.ids@.len(),
                forall|j: int| 0 <= j < i ==> self.ids@[j] != id,
            decreases self.ids@.len() - i,
        {
            if self.ids[i] == id {
                return i;
            }
            i = i + 1;
        }
        i
    }

    pub fn new(key: T) -> (l: Self)
        ensures
            l.wf(),
            l@ == seq![key],
            l.id_seq().len() == 1,
            l.made() == 1,
    {
        let mut ids: Vec<usize> = Vec::new();
        ids.push(0);
        let mut keys: Vec<Rc<T>> = Vec::new();
        keys.push(Rc::new(key));
        let l = CyclicList { ids, keys, next_id: 1 };
        assert(l@ =~= seq![key]);
        l
    }

    pub fn take_one(&self) -> (r: Indexer<T>)
        requires
            self.wf(),
        ensures
            self.handle_at(r, 0),
    {
        self.indexer_at(0)
    }

    /// The node after `node`: the head after the tail, and the head too for
    /// a handle whose node is no longer in the list.
    pub fn next(&self, node: &Indexer<T>) -> (r: Indexer<T>)
        requires
            self.wf(),
        ensures
            forall|i: int|
                0 <= i < self.id_seq().len() && #[trigger] self.id_seq()[i] == node.id()
                    ==> self.handle_at(r, if i + 1 < self.id_seq().len() { i + 1 } else { 0 }),
            !self.id_seq().contains(node.id()) ==> self.handle_at(r, 0),
    {
        let i = self.position(node.id);
        let n = self.ids.len();
        if i == n {
            self.indexer_at(0)
        } else {
            let r = self.indexer_at(if i + 1 == n { 0 } else { i + 1 });
            proof {
                self.lemma_unique_position(i as int);
            }
            r
        }
    }

    /// The node before `node`: the tail before the head, and the tail too
    /// for a handle whose node is no longer in the list.
    pub fn prev(&self, node: &Indexer<T>) -> (r: Indexer<T>)
        requires
            self.wf(),
        ensures
            forall|i: int|
                0 <= i < self.id_seq().len() && #[trigger] self.id_seq()[i] == node.id()
                    ==> self.handle_at(r, if i > 0 { i - 1 } else { self.id_seq().len() - 1 }),
            !self.id_seq().contains(node.id()) ==> self.handle_at(r, self.id_seq().len() - 1),
    {
        let i = self.position(node.id);
        let n = self.ids.len();
        if i == n {
            self.indexer_at(n - 1)
        } else {
            let r = self.indexer_at(if i == 0 { n - 1 } else { i - 1 });
            proof {
                self.lemma_unique_position(i as int);
            }
            r
        }
    }

    /// A node's identity appears at one position only.
    proof fn lemma_unique_position(&self, i: int)
        requires
            self.wf(),
            0 <= i < self.id_seq().len(),
        ensures
            forall|j: int| 0 <= j < self.id_seq().len() && self.id_seq()[j] == self.id_seq()[i] ==> j == i,
    {
        assert forall|j: int| 0 <= j < self.id_seq().len() && self.id_seq()[j] == self.id_seq()[i] implies j == i by {
            if j < i {
                assert(self.ids@[j] != self.ids@[i]);
            } else if i < j {
                assert(self.ids@[i] != self.ids@[j]);
            }
        }
    }

    /// Puts a new node holding `key` at position `at` and returns its handle.
    fn insert_at(&mut self, at: usize, key: T) -> (r: Indexer<T>)
        requires
            old(self).wf(),
            at <= old(self).id_seq().len(),
            old(self).made() < usize::MAX,
        ensures
            final(self).wf(),
            final(self).id_seq().len() == final(self)@.len(),
            final(self)@ == old(self)@.insert(at as int, key),
            final(self).id_seq() == old(self).id_seq().insert(at as int, r.id()),
            !old(self).id_seq().contains(r.id()),
            r.key_of() == key,
            final(self).made() == old(self).made() + 1,
    {
        let id = self.next_id;
        let rc = Rc::new(key);
        let k2 = Rc::clone(&rc);
        self.ids.insert(at, id);
        self.keys.insert(at, rc);
        self.next_id = self.next_id + 1;
        assert(self@ =~= old(self)@.insert(at as int, key));
        assert forall|i: int, j: int|
            0 <= i < j < self.ids@.len() implies #[trigger] self.ids@[i] != #[trigger] self.ids@[j] by {
            if i != at && j != at {
                let oi = if i < at { i } else { i - 1 };
                let oj = if j < at { j } else { j - 1 };
                assert(old(self).ids@[oi] != old(self).ids@[oj]);
            } else if i == at {
                let oj = j - 1;
                assert(old(self).ids@[oj] < id);
            } else {
                assert(old(self).ids@[i] < id);
            }
        }
        assert forall|i: int| 0 <= i < self.ids@.len() implies #[trigger] self.ids@[i] < self.next_id by {
            if i < at {
                assert(old(self).ids@[i] < id);
            } else if i > at {
                assert(old(self).ids@[i - 1] < id);
            }
        }
        assert(!old(self).id_seq().contains(id)) by {
            if old(self).id_seq().contains(id) {
                let j = choose|j: int| 0 <= j < old(self).ids@.len() && old(self).ids@[j] == id;
                assert(old(self).ids@[j] < id);
            }
        }
        Indexer { id, key: k2 }
    }

    /// Puts a new node holding `key` right after `pos` (at the tail's end
    /// when `pos` is the tail) and returns its handle.
    pub fn insert_next(&mut self, pos: &Indexer<T>, key: T) -> (r: Indexer<T>)
        requires
            old(self).wf(),
            old(self).id_seq().contains(pos.id()),
            old(self).made() < usize::MAX,
        ensures
            final(self).wf(),
            final(self).id_seq().len() == final(self)@.len(),
            forall|i: int|
                0 <= i < old(self).id_seq().len() && #[trigger] old(self).id_seq()[i] == pos.id() ==> {
                    &&& final(self)@ == old(self)@.insert(i + 1, key)
                    &&& final(self).id_seq() == old(self).id_seq().insert(i + 1, r.id())
                },
            !old(self).id_seq().contains(r.id()),
            r.key_of() == key,
            final(self).made() == old(self).made() + 1,
    {
        let i = self.position(pos.id);
        proof {
            self.lemma_unique_position(i as int);
        }
        assert(i < self.ids.len());
        self.insert_at(i + 1, key)
    }

    /// Puts a new node holding `key` right before `pos` (in front of the
    /// head when `pos` is the head) and returns its handle.
    pub fn insert_prev(&mut self, pos: &Indexer<T>, key: T) -> (r: Indexer<T>)
        requires
            old(self).wf(),
            old(self).id_seq().contains(pos.id()),
            old(self).made() < usize::MAX,
        ensures
            final(self).wf(),
            final(self).id_seq().len() == final(self)@.len(),
            forall|i: int|
                0 <= i < old(self).id_seq().len() && #[trigger] old(self).id_seq()[i] == pos.id() ==> {
                    &&& final(self)@ == old(self)@.insert(i, key)
                    &&& final(self).id_seq() == old(self).id_seq().insert(i, r.id())
                },
            !old(self).id_seq().contains(r.id()),
            r.key_of() == key,
            final(self).made() == old(self).made() + 1,
    {
        let i = self.position(pos.id);
        proof {
            self.lemma_unique_position(i as int);
        }
        self.insert_at(i, key)
    }

    /// Takes the node of `pos` out of the list and returns the node that
    /// followed it (the head, when it was the tail). The last node of a list
    /// stays: deleting it changes nothing and returns `pos` again.
    pub fn delete(&mut self, pos: &Indexer<T>) -> (r: Indexer<T>)
        requires
            old(self).wf(),
            old(self).id_seq().contains(pos.id()),
        ensures
            final(self).wf(),
            final(self).id_seq().len() == final(self)@.len(),
            final(self).made() == old(self).made(),
            old(self).id_seq().len() == 1 ==> *final(self) == *old(self) && r == *pos,
            forall|i: int|
                0 <= i < old(self).id_seq().len() && #[trigger] old(self).id_seq()[i] == pos.id()
                    && old(self).id_seq().len() > 1 ==> {
                    &&& final(self)@ == old(self)@.remove(i)
                    &&& final(self).id_seq() == old(self).id_seq().remove(i)
                    &&& final(self).handle_at(r, if i < final(self).id_seq().len() { i } else { 0 })
                },
    {
        if self.ids.len() == 1 {
            return pos.clone();
        }
        let i = self.position(pos.id);
        proof {
            self.lemma_unique_position(i as int);
        }
        self.ids.remove(i);
        self.keys.remove(i);
        assert(self@ =~= old(self)@.remove(i as int));
        assert forall|a: int, b: int|
            0 <= a < b < self.ids@.len() implies #[trigger] self.ids@[a] != #[trigger] self.ids@[b] by {
            let oa = if a < i { a } else { a + 1 };
            let ob = if b < i { b } else { b + 1 };
            assert(old(self).ids@[oa] != old(self).ids@[ob]);
        }
        assert forall|a: int| 0 <= a < self.ids@.len() implies #[trigger] self.ids@[a] < self.next_id by {
            let oa = if a < i { a } else { a + 1 };
            assert(old(self).ids@[oa] < self.next_id);
        }
        let at = if i == self.ids.len() { 0 } else { i };
        self.indexer_at(at)
    }

    pub fn len(&self) -> (r: usize)
        requires
            self.wf(),
        ensures
            r == self@.len(),
            r == self.id_seq().len(),
            r >= 1,
    {
        self.ids.len()
    }
}

} // verus!
