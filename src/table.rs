//! The host's resident key/value table: the data that guests either read
//! through the packed index or ask for through a host-mediated query.
use vstd::prelude::*;

verus! {

/// A key/value pair as the contracts see it.
pub type Entry = (Seq<u8>, Seq<u8>);

/// The value stored under `key` in `es`, found from the front.
pub open spec fn find(es: Seq<Entry>, key: Seq<u8>) -> Option<Seq<u8>>
    decreases es.len(),
{
    if es.len() == 0 {
        None
    } else if es[0].0 == key {
        Some(es[0].1)
    } else {
        find(es.drop_first(), key)
    }
}

/// No key occurs twice.
pub open spec fn unique_keys(es: Seq<Entry>) -> bool {
    forall|i: int, j: int| 0 <= i < j < es.len() ==> es[i].0 != es[j].0
}

pub proof fn lemma_find_present(es: Seq<Entry>, i: int)
    requires
        unique_keys(es),
        0 <= i < es.len(),
    ensures
        find(es, es[i].0) == Some(es[i].1),
    decreases es.len(),
{
    if i > 0 {
        assert(es[0].0 != es[i].0);
        assert(unique_keys(es.drop_first()));
        assert(es.drop_first()[i - 1] == es[i]);
        lemma_find_present(es.drop_first(), i - 1);
    }
}

pub proof fn lemma_find_absent(es: Seq<Entry>, key: Seq<u8>)
    requires
        forall|i: int| 0 <= i < es.len() ==> es[i].0 != key,
    ensures
        find(es, key) == None::<Seq<u8>>,
    decreases es.len(),
{
    if es.len() > 0 {
        assert(es[0].0 != key);
        assert forall|i: int| 0 <= i < es.drop_first().len() implies es.drop_first()[i].0 != key by {
            assert(es.drop_first()[i] == es[i + 1]);
        }
        lemma_find_absent(es.drop_first(), key);
    }
}

pub proof fn lemma_find_some(es: Seq<Entry>, key: Seq<u8>)
    requires
        find(es, key) is Some,
    ensures
        exists|i: int| 0 <= i < es.len() && es[i] == (key, find(es, key)->Some_0),
    decreases es.len(),
{
    if es[0].0 == key {
        assert(es[0] == (key, find(es, key)->Some_0));
    } else {
        lemma_find_some(es.drop_first(), key);
        let i = choose|i: int| 0 <= i < es.drop_first().len() && es.drop_first()[i] == (key, find(es, key)->Some_0);
        assert(es[i + 1] == es.drop_first()[i]);
    }
}

/// Compares two byte strings.
pub fn same_bytes(a: &[u8], b: &[u8]) -> (r: bool)
    ensures
        r == (a@ == b@),
{
    if a.len() != b.len() {
        return false;
    }
    let mut i: usize = 0;
    while i < a.len()
        invariant
            a@.len() == b@.len(),
            i <= a@.len(),
            a@.take(i as int) == b@.take(i as int),
        decreases a@.len() - i,
    {
        if a[i] != b[i] {
            return false;
        }
        assert(a@.take(i + 1) == a@.take(i as int).push(a@[i as int]));
        assert(b@.take(i + 1) == b@.take(i as int).push(b@[i as int]));
        i = i + 1;
    }
    assert(a@ == a@.take(i as int));
    assert(b@ == b@.take(i as int));
    true
}

/// Copies a byte string.
pub fn copy_bytes(s: &[u8]) -> (r: Vec<u8>)
    ensures
        r@ == s@,
{
    let mut r: Vec<u8> = Vec::with_capacity(s.len());
    append_bytes(&mut r, s);
    assert(r@ =~= s@);
    r
}

/// Appends `s` to `out`.
pub fn append_bytes(out: &mut Vec<u8>, s: &[u8])
    ensures
        final(out)@ == old(out)@ + s@,
{
    let ghost start = out@;
    let mut i: usize = 0;
    while i < s.len()
        invariant
            i <= s@.len(),
            out@ == start + s@.take(i as int),
        decreases s@.len() - i,
    {
        out.push(s[i]);
        assert(s@.take(i + 1) == s@.take(i as int).push(s@[i as int]));
        i = i + 1;
    }
    assert(s@.take(i as int) == s@);
}

/// The host's table: distinct keys, each with its value, in insertion order.
pub struct HostTable {
    entries: Vec<(Vec<u8>, Vec<u8>)>,
}

impl HostTable {
    /// The pairs as byte sequences, in insertion order.
    pub closed spec fn entries(&self) -> Seq<Entry> {
        self.entries@.map_values(|e: (Vec<u8>, Vec<u8>)| (e.0@, e.1@))
    }

    pub open spec fn wf(&self) -> bool {
        unique_keys(self.entries())
    }

    pub fn new() -> (r: HostTable)
        ensures
            r.wf(),
            r.entries() == Seq::<Entry>::empty(),
    {
        let r = HostTable { entries: Vec::new() };
        assert(r.entries() =~= Seq::<Entry>::empty());
        r
    }

    pub fn len(&self) -> (r: usize)
        ensures
            r == self.entries().len(),
    {
        self.entries.len()
    }

    /// The key and value of the `i`-th pair.
    pub fn entry(&self, i: usize) -> (r: (&[u8], &[u8]))
        requires
            i < self.entries().len(),
        ensures
            r.0@ == self.entries()[i as int].0,
            r.1@ == self.entries()[i as int].1,
    {
        let e = &self.entries[i];
        (e.0.as_slice(), e.1.as_slice())
    }

    fn position(&self, key: &[u8]) -> (r: Option<usize>)
        ensures
            match r {
                Some(i) => i < self.entries().len() && self.entries()[i as int].0 == key@,
                None => forall|i: int| 0 <= i < self.entries().len() ==> self.entries()[i].0 != key@,
            },
    {
        let mut i: usize = 0;
        while i < self.entries.len()
            invariant
                i <= self.entries().len(),
                self.entries().len() == self.entries@.len(),
                forall|j: int| 0 <= j < i ==> self.entries()[j].0 != key@,
            decreases self.entries@.len() - i,
        {
            if same_bytes(self.entries[i].0.as_slice(), key) {
                return Some(i);
            }
            i = i + 1;
        }
        None
    }

    /// The value stored under `key`.
    pub fn get(&self, key: &[u8]) -> (r: Option<&[u8]>)
        requires
            self.wf(),
        ensures
            match r {
                Some(v) => find(self.entries(), key@) == Some(v@),
                None => find(self.entries(), key@) == None::<Seq<u8>>,
            },
    {
        match self.position(key) {
            Some(i) => {
                proof {
                    lemma_find_present(self.entries(), i as int);
                }
                Some(self.entries[i].1.as_slice())
            },
            None => {
                proof {
                    lemma_find_absent(self.entries(), key@);
                }
                None
            },
        }
    }

    /// Stores `value` under `key`, replacing what was there.
    pub fn insert(&mut self, key: Vec<u8>, value: Vec<u8>)
        requires
            old(self).wf(),
        ensures
            final(self).wf(),
            find(final(self).entries(), key@) == Some(value@),
            forall|k: Seq<u8>| k != key@ ==> find(final(self).entries(), k) == find(old(self).entries(), k),
    {
        let ghost old_es = self.entries();
        match self.position(key.as_slice()) {
            Some(i) => {
                let ghost kv = key@;
                let ghost vv = value@;
                self.entries.set(i, (key, value));
                proof {
                    assert(self.entries() =~= old_es.update(i as int, (kv, vv)));
                    assert(unique_keys(self.entries()));
                    lemma_find_present(self.entries(), i as int);
                    assert forall|k: Seq<u8>| k != kv implies find(self.entries(), k) == find(old_es, k) by {
                        lemma_find_same_away(old_es, self.entries(), k);
                    }
                }
            },
            None => {
                let ghost kv = key@;
                let ghost vv = value@;
                self.entries.push((key, value));
                proof {
                    assert(self.entries() =~= old_es.push((kv, vv)));
                    assert(unique_keys(self.entries()));
                    lemma_find_present(self.entries(), old_es.len() as int);
                    assert forall|k: Seq<u8>| k != kv implies find(self.entries(), k) == find(old_es, k) by {
                        lemma_find_same_away(old_es, self.entries(), k);
                    }
                }
            },
        }
    }
}

/// `b` answers for `k` as `a` does when every pair that holds `k` in either
/// stands unchanged at the same place and `b` adds no pair with `k`.
proof fn lemma_find_same_away(a: Seq<Entry>, b: Seq<Entry>, k: Seq<u8>)
    requires
        unique_keys(a),
        unique_keys(b),
        a.len() <= b.len(),
        forall|i: int| 0 <= i < a.len() && (a[i].0 == k || b[i].0 == k) ==> a[i] == b[i],
        forall|i: int| a.len() <= i < b.len() ==> b[i].0 != k,
    ensures
        find(b, k) == find(a, k),
{
    if exists|i: int| 0 <= i < a.len() && a[i].0 == k {
        let i = choose|i: int| 0 <= i < a.len() && a[i].0 == k;
        lemma_find_present(a, i);
        lemma_find_present(b, i);
    } else {
        lemma_find_absent(a, k);
        assert forall|i: int| 0 <= i < b.len() implies b[i].0 != k by {
            if i < a.len() {
                if b[i].0 == k {
                    assert(a[i] == b[i]);
                }
            }
        }
        lemma_find_absent(b, k);
    }
}

} // verus!
