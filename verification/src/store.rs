//! A table of values under text keys.

use vstd::prelude::*;

use crate::text::{begins_with, has_front, same_text};

verus! {

/// A table that holds at most one value under each key.
pub struct Store<V> {
    items: Vec<(String, V)>,
}

impl<V> Store<V> {
    /// The position of the entry under `key`.
    closed spec fn is_entry(&self, i: int, key: Seq<char>) -> bool {
        0 <= i < self.items@.len() && self.items@[i].0@ == key
    }

    /// No two entries have the same key.
    pub closed spec fn wf(&self) -> bool {
        forall|i: int, j: int|
            0 <= i < j < self.items@.len() ==> (#[trigger] self.items@[i]).0@ != (
            #[trigger] self.items@[j]).0@
    }
}

impl<V> View for Store<V> {
    type V = Map<Seq<char>, V>;

    closed spec fn view(&self) -> Map<Seq<char>, V> {
        Map::new(
            |key: Seq<char>| exists|i: int| self.is_entry(i, key),
            |key: Seq<char>| self.items@[choose|i: int| self.is_entry(i, key)].1,
        )
    }
}

impl<V> Store<V> {
    proof fn lemma_entry(&self, i: int, key: Seq<char>)
        requires
            self.wf(),
            self.is_entry(i, key),
        ensures
            self@.contains_key(key),
            self@[key] == self.items@[i].1,
    {
        let j = choose|j: int| self.is_entry(j, key);
        if i < j {
            assert(self.items@[i].0@ != self.items@[j].0@);
        } else if j < i {
            assert(self.items@[j].0@ != self.items@[i].0@);
        }
    }

    /// An empty table.
    pub fn new() -> (s: Store<V>)
        ensures
            s.wf(),
            s@ == Map::<Seq<char>, V>::empty(),
    {
        let s = Store { items: Vec::new() };
        assert(s@ =~= Map::<Seq<char>, V>::empty());
        s
    }

    /// The position of the entry under `key`.
    fn find(&self, key: &str) -> (at: Option<usize>)
        requires
            self.wf(),
        ensures
            match at {
                Some(i) => self.is_entry(i as int, key@),
                None => forall|i: int| !self.is_entry(i, key@),
            },
    {
        let mut i: usize = 0;
        while i < self.items.len()
            invariant
                i <= self.items.len(),
                forall|j: int| 0 <= j < i ==> !self.is_entry(j, key@),
            decreases self.items.len() - i,
        {
            if same_text(self.items[i].0.as_str(), key) {
                return Some(i);
            }
            i += 1;
        }
        None
    }

    /// The value under `key`.
    pub fn get(&self, key: &str) -> (v: Option<&V>)
        requires
            self.wf(),
        ensures
            match v {
                Some(v) => self@.contains_key(key@) && *v == self@[key@],
                None => !self@.contains_key(key@),
            },
    {
        match self.find(key) {
            Some(i) => {
                proof {
                    self.lemma_entry(i as int, key@);
                }
                Some(&self.items[i].1)
            },
            None => None,
        }
    }

    /// Puts `v` under `key`, in place of what was there.
    pub fn insert(&mut self, key: String, v: V)
        requires
            old(self).wf(),
        ensures
            final(self).wf(),
            final(self)@ == old(self)@.insert(key@, v),
    {
        self.remove(key.as_str());
        let ghost before = *self;
        let ghost name = key@;
        self.items.push((key, v));
        proof {
            let n = before.items@.len() as int;
            assert(!before@.contains_key(name));
            assert forall|i: int| 0 <= i < n implies (#[trigger] self.items@[i]).0@ != name by {
                assert(self.items@[i] == before.items@[i]);
                if before.items@[i].0@ == name {
                    before.lemma_entry(i, name);
                }
            }
            assert(self.wf());
            assert(self.items@.take(n) =~= before.items@);
            lemma_views(before, *self, name, n);
            assert(self@ =~= before@.insert(name, v));
            assert(before@.insert(name, v) =~= old(self)@.insert(name, v));
        }
    }

    /// Takes the value under `key` out.
    pub fn remove(&mut self, key: &str) -> (v: Option<V>)
        requires
            old(self).wf(),
        ensures
            final(self).wf(),
            final(self)@ == old(self)@.remove(key@),
            match v {
                Some(v) => old(self)@.contains_key(key@) && v == old(self)@[key@],
                None => !old(self)@.contains_key(key@),
            },
    {
        match self.find(key) {
            Some(i) => {
                let ghost before = *self;
                proof {
                    self.lemma_entry(i as int, key@);
                }
                let (_, v) = self.items.remove(i);
                proof {
                    lemma_removed(before, *self, key@, i as int);
                }
                Some(v)
            },
            None => {
                assert(self@.remove(key@) =~= self@);
                None
            },
        }
    }
}

/// `out` holds what stands in `table` under the keys that begin with `front`,
/// each value once.
pub open spec fn holds_values<V>(
    out: Seq<V>,
    table: Map<Seq<char>, V>,
    front: Seq<char>,
) -> bool {
    exists|keys: Seq<Seq<char>>| #[trigger] lists_values(keys, out, table, front)
}

/// `keys` are the keys of `table` that begin with `front`, and `out` the values
/// under them.
pub open spec fn lists_values<V>(
    keys: Seq<Seq<char>>,
    out: Seq<V>,
    table: Map<Seq<char>, V>,
    front: Seq<char>,
) -> bool {
    &&& keys.len() == out.len()
    &&& keys.no_duplicates()
    &&& forall|k: Seq<char>| #[trigger]
        keys.contains(k) <==> table.contains_key(k) && begins_with(k, front)
    &&& forall|x: int| 0 <= x < keys.len() ==> out[x] == table[#[trigger] keys[x]]
}

impl<V> Store<V> {
    /// Takes everything out whose key begins with `front`.
    pub fn remove_front(&mut self, front: &str) -> (out: Vec<V>)
        requires
            old(self).wf(),
        ensures
            final(self).wf(),
            forall|k: Seq<char>| #[trigger]
                final(self)@.contains_key(k) <==> old(self)@.contains_key(k) && !begins_with(
                    k,
                    front@,
                ),
            forall|k: Seq<char>| #[trigger]
                final(self)@.contains_key(k) ==> final(self)@[k] == old(self)@[k],
            holds_values(out@, old(self)@, front@),
    {
        let ghost table = self@;
        let ghost mut keys: Seq<Seq<char>> = seq![];
        let mut out: Vec<V> = Vec::new();
        let mut i: usize = 0;
        while i < self.items.len()
            invariant
                self.wf(),
                table == old(self)@,
                i <= self.items@.len(),
                keys.len() == out@.len(),
                keys.no_duplicates(),
                forall|x: int|
                    0 <= x < keys.len() ==> out@[x] == table[#[trigger] keys[x]] && begins_with(
                        keys[x],
                        front@,
                    ),
                forall|k: Seq<char>| #[trigger]
                    table.contains_key(k) <==> self@.contains_key(k) || keys.contains(k),
                forall|k: Seq<char>| #[trigger] self@.contains_key(k) ==> self@[k] == table[k],
                forall|k: Seq<char>| #[trigger] self@.contains_key(k) ==> !keys.contains(k),
                forall|j: int| 0 <= j < i ==> !begins_with((#[trigger] self.items@[j]).0@, front@),
            decreases self.items@.len() - i,
        {
            if has_front(self.items[i].0.as_str(), front) {
                let ghost before = *self;
                let ghost key = self.items@[i as int].0@;
                proof {
                    self.lemma_entry(i as int, key);
                }
                let (_, v) = self.items.remove(i);
                proof {
                    lemma_removed(before, *self, key, i as int);
                    let more = keys.push(key);
                    assert forall|k: Seq<char>| #[trigger] more.contains(k) <==> keys.contains(k)
                        || k == key by {
                        if keys.contains(k) {
                            let x = choose|x: int| 0 <= x < keys.len() && keys[x] == k;
                            assert(more[x] == k);
                        }
                        if k == key {
                            assert(more[keys.len() as int] == k);
                        }
                    }
                    keys = more;
                }
                out.push(v);
            } else {
                i += 1;
            }
        }
        proof {
            assert forall|k: Seq<char>| self@.contains_key(k) implies !begins_with(k, front@) by {
                let j = choose|j: int| self.is_entry(j, k);
                assert(!begins_with(self.items@[j].0@, front@));
            }
            assert forall|k: Seq<char>| #[trigger] keys.contains(k) implies begins_with(
                k,
                front@,
            ) by {
                let x = choose|x: int| 0 <= x < keys.len() && keys[x] == k;
                assert(begins_with(keys[x], front@));
            }
            assert(lists_values(keys, out@, table, front@));
        }
        out
    }
}

/// Adding an entry at the back adds its key.
proof fn lemma_views<V>(before: Store<V>, after: Store<V>, key: Seq<char>, n: int)
    requires
        before.wf(),
        after.wf(),
        n == before.items@.len(),
        after.items@.len() == n + 1,
        after.items@.take(n) == before.items@,
        after.items@[n].0@ == key,
        !before@.contains_key(key),
    ensures
        after@ == before@.insert(key, after.items@[n].1),
{
    after.lemma_entry(n, key);
    assert forall|k: Seq<char>| #[trigger] after@.contains_key(k) == before@.insert(
        key,
        after.items@[n].1,
    ).contains_key(k) by {
        if after@.contains_key(k) && k != key {
            let i = choose|i: int| after.is_entry(i, k);
            assert(after.items@.take(n)[i] == after.items@[i]);
            before.lemma_entry(i, k);
        }
        if before@.contains_key(k) {
            let i = choose|i: int| before.is_entry(i, k);
            assert(after.items@.take(n)[i] == after.items@[i]);
            after.lemma_entry(i, k);
        }
    }
    assert forall|k: Seq<char>| #[trigger] after@.contains_key(k) implies after@[k]
        == before@.insert(key, after.items@[n].1)[k] by {
        if k != key {
            let i = choose|i: int| before.is_entry(i, k);
            assert(after.items@.take(n)[i] == after.items@[i]);
            before.lemma_entry(i, k);
            after.lemma_entry(i, k);
        }
    }
    assert(after@ =~= before@.insert(key, after.items@[n].1));
}

/// Removing the entry at `i` removes its key.
proof fn lemma_removed<V>(before: Store<V>, after: Store<V>, key: Seq<char>, i: int)
    requires
        before.wf(),
        before.is_entry(i, key),
        after.items@ == before.items@.remove(i),
    ensures
        after.wf(),
        after@ == before@.remove(key),
{
    assert forall|x: int, y: int| 0 <= x < y < after.items@.len() implies (
    #[trigger] after.items@[x]).0@ != (#[trigger] after.items@[y]).0@ by {
        let x2 = if x < i { x } else { x + 1 };
        let y2 = if y < i { y } else { y + 1 };
        assert(before.items@[x2].0@ != before.items@[y2].0@);
    }
    assert forall|k: Seq<char>| #[trigger] after@.contains_key(k) == before@.remove(
        key,
    ).contains_key(k) by {
        if after@.contains_key(k) {
            let x = choose|x: int| after.is_entry(x, k);
            let x2 = if x < i { x } else { x + 1 };
            assert(before.items@[x2] == after.items@[x]);
            before.lemma_entry(x2, k);
            if x2 < i {
                assert(before.items@[x2].0@ != before.items@[i].0@);
            } else {
                assert(before.items@[i].0@ != before.items@[x2].0@);
            }
        }
        if before@.remove(key).contains_key(k) {
            let x = choose|x: int| before.is_entry(x, k);
            let x2 = if x < i { x } else { x - 1 };
            assert(before.items@[x] == after.items@[x2]);
            after.lemma_entry(x2, k);
        }
    }
    assert forall|k: Seq<char>| #[trigger] after@.contains_key(k) implies after@[k]
        == before@.remove(key)[k] by {
        let x = choose|x: int| after.is_entry(x, k);
        let x2 = if x < i { x } else { x + 1 };
        assert(before.items@[x2] == after.items@[x]);
        before.lemma_entry(x2, k);
        after.lemma_entry(x, k);
    }
    assert(after@ =~= before@.remove(key));
}

} // verus!
