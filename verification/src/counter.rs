use vstd::prelude::*;

verus! {

/// Counts occurrences per integer key; each key appears at most once in
/// `counts`.
#[derive(Clone, Debug)]
pub struct Counter {
    pub counts: Vec<(usize, usize)>,
}

impl Counter {
    pub open spec fn wf(self) -> bool {
        forall|i: int, j: int|
            0 <= i < j < self.counts@.len() ==> (#[trigger] self.counts@[i]).0 != (#[trigger]
            self.counts@[j]).0
    }

    /// The count recorded for `key`, zero when the key is absent.
    pub open spec fn spec_get(self, key: usize) -> int {
        if exists|i: int| 0 <= i < self.counts@.len() && (#[trigger] self.counts@[i]).0 == key {
            let i = choose|i: int|
                0 <= i < self.counts@.len() && (#[trigger] self.counts@[i]).0 == key;
            self.counts@[i].1 as int
        } else {
            0
        }
    }

    pub fn new() -> (c: Counter)
        ensures
            c.wf(),
            forall|k: usize| c.spec_get(k) == 0,
    {
        Counter { counts: Vec::new() }
    }

    /// The index holding `key`, if any.
    fn find(&self, key: usize) -> (r: Option<usize>)
        ensures
            r matches Some(i) ==> i < self.counts@.len() && self.counts@[i as int].0 == key,
            r is None ==> forall|i: int|
                0 <= i < self.counts@.len() ==> (#[trigger] self.counts@[i]).0 != key,
    {
        let mut i: usize = 0;
        while i < self.counts.len()
            invariant
                i <= self.counts@.len(),
                forall|j: int| 0 <= j < i ==> (#[trigger] self.counts@[j]).0 != key,
            decreases self.counts@.len() - i,
        {
            if self.counts[i].0 == key {
                return Some(i);
            }
            i = i + 1;
        }
        None
    }

    pub fn get(&self, key: usize) -> (r: usize)
        requires
            self.wf(),
        ensures
            r == self.spec_get(key),
    {
        match self.find(key) {
            Some(i) => {
                proof {
                    let iw = choose|j: int|
                        0 <= j < self.counts@.len() && (#[trigger] self.counts@[j]).0 == key;
                    if iw != i as int {
                        assert(self.counts@[iw].0 == self.counts@[i as int].0);
                        assert(false);
                    }
                }
                self.counts[i].1
            },
            None => 0,
        }
    }

    /// Add one to the count for `key`.
    pub fn inc(&mut self, key: usize)
        requires
            old(self).wf(),
            old(self).spec_get(key) < usize::MAX,
        ensures
            final(self).wf(),
            final(self).spec_get(key) == old(self).spec_get(key) + 1,
            forall|k2: usize| k2 != key ==> final(self).spec_get(k2) == old(self).spec_get(k2),
    {
        let found = self.find(key);
        match found {
            Some(i) => {
                let e = self.counts[i];
                proof {
                    let iw = choose|j: int|
                        0 <= j < old(self).counts@.len() && (#[trigger] old(
                            self,
                        ).counts@[j]).0 == key;
                    if iw != i as int {
                        assert(old(self).counts@[iw].0 == old(self).counts@[i as int].0);
                        assert(false);
                    }
                }
                self.counts.set(i, (key, e.1 + 1));
                proof {
                    assert(forall|j: int|
                        0 <= j < self.counts@.len() ==> (#[trigger] self.counts@[j]).0 == old(
                            self,
                        ).counts@[j].0);
                    assert(self.wf());
                    lemma_counter_get(*self, key, i as int);
                    assert forall|k2: usize| k2 != key implies self.spec_get(k2) == old(
                        self,
                    ).spec_get(k2) by {
                        lemma_counter_get_unchanged(*old(self), *self, k2);
                    }
                }
            },
            None => {
                self.counts.push((key, 1));
                proof {
                    assert(self.counts@[self.counts@.len() - 1].0 == key);
                    assert(forall|j: int|
                        0 <= j < self.counts@.len() - 1 ==> (#[trigger] self.counts@[j]) == old(
                            self,
                        ).counts@[j]);
                    assert(self.wf());
                    lemma_counter_get(*self, key, self.counts@.len() - 1);
                    assert forall|k2: usize| k2 != key implies self.spec_get(k2) == old(
                        self,
                    ).spec_get(k2) by {
                        lemma_counter_get_unchanged(*old(self), *self, k2);
                    }
                }
            },
        }
    }
}

/// With unique keys, the count read for a key is the value at whichever
/// index holds it.
proof fn lemma_counter_get(c: Counter, key: usize, i: int)
    requires
        c.wf(),
        0 <= i < c.counts@.len(),
        c.counts@[i].0 == key,
    ensures
        c.spec_get(key) == c.counts@[i].1,
{
    let iw = choose|j: int| 0 <= j < c.counts@.len() && (#[trigger] c.counts@[j]).0 == key;
    if iw != i {
        assert(c.counts@[iw].0 == c.counts@[i].0);
        assert(false);
    }
}

/// A key whose entries did not change keeps its count.
proof fn lemma_counter_get_unchanged(c1: Counter, c2: Counter, key: usize)
    requires
        c1.wf(),
        c2.wf(),
        forall|j: int|
            0 <= j < c1.counts@.len() && (#[trigger] c1.counts@[j]).0 == key ==> j
                < c2.counts@.len() && c2.counts@[j] == c1.counts@[j],
        forall|j: int|
            0 <= j < c2.counts@.len() && (#[trigger] c2.counts@[j]).0 == key ==> j
                < c1.counts@.len() && c1.counts@[j] == c2.counts@[j],
    ensures
        c1.spec_get(key) == c2.spec_get(key),
{
    if exists|i: int| 0 <= i < c1.counts@.len() && (#[trigger] c1.counts@[i]).0 == key {
        let i1 = choose|i: int| 0 <= i < c1.counts@.len() && (#[trigger] c1.counts@[i]).0 == key;
        assert(c2.counts@[i1] == c1.counts@[i1]);
        assert(exists|i: int| 0 <= i < c2.counts@.len() && (#[trigger] c2.counts@[i]).0 == key);
        let i2 = choose|i: int| 0 <= i < c2.counts@.len() && (#[trigger] c2.counts@[i]).0 == key;
        if i1 != i2 {
            assert(c2.counts@[i1].0 == c2.counts@[i2].0);
            assert(false);
        }
    } else {
        if exists|i: int| 0 <= i < c2.counts@.len() && (#[trigger] c2.counts@[i]).0 == key {
            let i2 = choose|i: int|
                0 <= i < c2.counts@.len() && (#[trigger] c2.counts@[i]).0 == key;
            assert(c1.counts@[i2] == c2.counts@[i2]);
            assert(false);
        }
    }
}

} // verus!
