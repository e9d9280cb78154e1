//! An ordered key-value store held in memory, and the keyspace adapter that
//! gives each state instance its own key prefix in a shared store.
use vstd::prelude::*;
use crate::byte_order::{
    keys_sorted, has_key, key_map, key_index, lex_lt, find_slot, lemma_insert_at, lemma_update_at,
    lemma_remove_at, lemma_key_map_at,
};

verus! {

/// The value under `k`, if any.
pub open spec fn opt_get<V>(m: Map<Seq<u8>, V>, k: Seq<u8>) -> Option<V> {
    if m.contains_key(k) {
        Some(m[k])
    } else {
        None
    }
}

/// The map of byte strings that sorted entries of byte vectors hold.
pub open spec fn bytes_map(s: Seq<(Vec<u8>, Vec<u8>)>) -> Map<Seq<u8>, Seq<u8>> {
    Map::new(|k: Seq<u8>| has_key(s, k), |k: Seq<u8>| key_map(s)[k]@)
}

/// One write of a batch: a put when the value is present, else a delete.
pub open spec fn apply_write(m: Map<Seq<u8>, Seq<u8>>, op: (Seq<u8>, Option<Seq<u8>>)) -> Map<Seq<u8>, Seq<u8>> {
    match op.1 {
        Some(v) => m.insert(op.0, v),
        None => m.remove(op.0),
    }
}

/// The writes of a batch, over byte strings.
pub open spec fn writes_view(b: Seq<(Vec<u8>, Option<Vec<u8>>)>) -> Seq<(Seq<u8>, Option<Seq<u8>>)> {
    Seq::new(
        b.len(),
        |i: int|
            (
                b[i].0@,
                match b[i].1 {
                    Some(v) => Some(v@),
                    None => None,
                },
            ),
    )
}

/// The store after the writes, applied in order.
pub open spec fn apply_writes(m: Map<Seq<u8>, Seq<u8>>, ops: Seq<(Seq<u8>, Option<Seq<u8>>)>) -> Map<Seq<u8>, Seq<u8>>
    decreases ops.len(),
{
    if ops.len() == 0 {
        m
    } else {
        apply_write(apply_writes(m, ops.drop_last()), ops.last())
    }
}

/// The part of a store under `prefix`, keyed by what follows the prefix.
pub open spec fn local_view(m: Map<Seq<u8>, Seq<u8>>, prefix: Seq<u8>) -> Map<Seq<u8>, Seq<u8>> {
    Map::new(|k: Seq<u8>| m.contains_key(prefix + k), |k: Seq<u8>| m[prefix + k])
}

/// A shared ordered key-value store, held in memory.
pub struct MemoryStateStore {
    entries: Vec<(Vec<u8>, Vec<u8>)>,
}

impl View for MemoryStateStore {
    type V = Map<Seq<u8>, Seq<u8>>;

    closed spec fn view(&self) -> Map<Seq<u8>, Seq<u8>> {
        bytes_map(self.entries@)
    }
}

impl MemoryStateStore {
    pub closed spec fn wf(&self) -> bool {
        keys_sorted(self.entries@)
    }

    /// An empty store.
    pub fn new() -> (r: Self)
        ensures
            r.wf(),
            r@ == Map::<Seq<u8>, Seq<u8>>::empty(),
    {
        let r = MemoryStateStore { entries: Vec::new() };
        assert(r@ =~= Map::<Seq<u8>, Seq<u8>>::empty());
        r
    }

    /// Puts `value` under `key`.
    pub fn put(&mut self, key: Vec<u8>, value: Vec<u8>)
        requires
            old(self).wf(),
        ensures
            final(self).wf(),
            final(self)@ == old(self)@.insert(key@, value@),
    {
        let ghost k = key@;
        let ghost v = value@;
        let (idx, found) = find_slot(&self.entries, key.as_slice());
        let ghost s = self.entries@;
        if found {
            proof {
                lemma_update_at(s, idx as int, key, value);
            }
            self.entries.set(idx, (key, value));
        } else {
            proof {
                lemma_insert_at(s, idx as int, key, value);
            }
            self.entries.insert(idx, (key, value));
        }
        proof {
            let t = self.entries@;
            assert forall|q: Seq<u8>| #[trigger] has_key(t, q) implies key_map(t)[q]@ == old(self)@.insert(k, v)[q] by {
                if q != k {
                    assert(key_map(s).contains_key(q));
                }
            }
            assert(self@ =~= old(self)@.insert(k, v));
        }
    }

    /// Removes what is under `key`, if anything.
    pub fn delete(&mut self, key: &[u8])
        requires
            old(self).wf(),
        ensures
            final(self).wf(),
            final(self)@ == old(self)@.remove(key@),
    {
        let (idx, found) = find_slot(&self.entries, key);
        let ghost s = self.entries@;
        if found {
            proof {
                lemma_remove_at(s, idx as int);
            }
            self.entries.remove(idx);
            proof {
                let t = self.entries@;
                assert forall|q: Seq<u8>| #[trigger] has_key(t, q) implies key_map(t)[q]@ == old(self)@.remove(key@)[q] by {
                    assert(key_map(s).contains_key(q));
                }
                assert(self@ =~= old(self)@.remove(key@));
            }
        } else {
            assert(self@ =~= old(self)@.remove(key@));
        }
    }

    /// Applies a batch of puts (value present) and deletes (value absent),
    /// in order.
    pub fn ingest_batch(&mut self, batch: Vec<(Vec<u8>, Option<Vec<u8>>)>)
        requires
            old(self).wf(),
        ensures
            final(self).wf(),
            final(self)@ == apply_writes(old(self)@, writes_view(batch@)),
    {
        let ghost w = writes_view(batch@);
        let mut i: usize = 0;
        while i < batch.len()
            invariant
                i <= batch@.len(),
                self.wf(),
                w == writes_view(batch@),
                self@ == apply_writes(old(self)@, w.subrange(0, i as int)),
            decreases batch@.len() - i,
        {
            let (k, v) = &batch[i];
            match v {
                Some(val) => {
                    self.put(k.clone(), val.clone());
                },
                None => {
                    self.delete(k.as_slice());
                },
            }
            proof {
                assert(w.subrange(0, i + 1).drop_last() =~= w.subrange(0, i as int));
            }
            i = i + 1;
        }
        proof {
            assert(w.subrange(0, i as int) =~= w);
        }
    }

    /// The entries whose keys start with `prefix`, with the prefix taken
    /// off, in key order.
    pub fn scan_strip_prefix(&self, prefix: &[u8]) -> (r: Vec<(Vec<u8>, Vec<u8>)>)
        requires
            self.wf(),
        ensures
            keys_sorted(r@),
            bytes_map(r@) == local_view(self@, prefix@),
    {
        let mut out: Vec<(Vec<u8>, Vec<u8>)> = Vec::new();
        let mut i: usize = 0;
        let ghost s = self.entries@;
        while i < self.entries.len()
            invariant
                i <= s.len(),
                s == self.entries@,
                keys_sorted(s),
                keys_sorted(out@),
                forall|j: int|
                    0 <= j < out@.len() ==> exists|q: int|
                        0 <= q < i && #[trigger] s[q].0@ == prefix@ + (#[trigger] out@[j]).0@
                            && s[q].1@ == out@[j].1@,
                forall|q: int|
                    0 <= q < i && s[q].0@.len() >= prefix@.len() && #[trigger] s[q].0@.subrange(
                        0,
                        prefix@.len() as int,
                    ) == prefix@ ==> has_key(out@, s[q].0@.skip(prefix@.len() as int)),
            decreases s.len() - i,
        {
            let key = &self.entries[i].0;
            if starts_with(key.as_slice(), prefix) {
                let rest = bytes_from(key.as_slice(), prefix.len());
                let ghost kq = s[i as int].0@;
                proof {
                    assert(kq =~= prefix@ + rest@);
                    assert forall|j: int| 0 <= j < out@.len() implies lex_lt(#[trigger] out@[j].0@, rest@) by {
                        let q = choose|q: int|
                            0 <= q < i && #[trigger] s[q].0@ == prefix@ + (#[trigger] out@[j]).0@
                                && s[q].1@ == out@[j].1@;
                        lemma_strip_prefix_lt(prefix@, out@[j].0@, rest@);
                    }
                }
                let ghost before = out@;
                out.push((rest, self.entries[i].1.clone()));
                proof {
                    assert forall|j: int| 0 <= j < out@.len() implies exists|q: int|
                        0 <= q < i + 1 && #[trigger] s[q].0@ == prefix@ + (#[trigger] out@[j]).0@
                            && s[q].1@ == out@[j].1@ by {
                        if j < before.len() {
                            assert(out@[j] == before[j]);
                        } else {
                            assert(s[i as int].0@ == prefix@ + out@[j].0@);
                        }
                    }
                    assert forall|q: int|
                        0 <= q < i + 1 && s[q].0@.len() >= prefix@.len() && #[trigger] s[q].0@.subrange(
                            0,
                            prefix@.len() as int,
                        ) == prefix@ implies has_key(out@, s[q].0@.skip(prefix@.len() as int)) by {
                        if q < i {
                            let j = key_index(before, s[q].0@.skip(prefix@.len() as int));
                            assert(out@[j] == before[j]);
                        } else {
                            assert(out@[before.len() as int].0@ =~= s[q].0@.skip(prefix@.len() as int));
                        }
                    }
                }
            }
            i = i + 1;
        }
        proof {
            let m = self@;
            let p = prefix@;
            assert forall|k: Seq<u8>| #[trigger] has_key(out@, k) <==> m.contains_key(p + k) by {
                if has_key(out@, k) {
                    let j = key_index(out@, k);
                    let q = choose|q: int|
                        0 <= q < i && #[trigger] s[q].0@ == p + (#[trigger] out@[j]).0@
                            && s[q].1@ == out@[j].1@;
                    assert(has_key(s, p + k));
                }
                if m.contains_key(p + k) {
                    let q = key_index(s, p + k);
                    assert((p + k).subrange(0, p.len() as int) =~= p);
                    assert((p + k).skip(p.len() as int) =~= k);
                }
            }
            assert forall|k: Seq<u8>| #[trigger] has_key(out@, k) implies key_map(out@)[k]@ == m[p + k] by {
                let j = key_index(out@, k);
                lemma_key_map_at(out@, j);
                let q = choose|q: int|
                    0 <= q < i && #[trigger] s[q].0@ == p + (#[trigger] out@[j]).0@
                        && s[q].1@ == out@[j].1@;
                lemma_key_map_at(s, q);
            }
            assert(bytes_map(out@) =~= local_view(m, p));
        }
        out
    }
}

pub proof fn lemma_strip_prefix_lt(p: Seq<u8>, a: Seq<u8>, b: Seq<u8>)
    requires
        lex_lt(p + a, p + b),
    ensures
        lex_lt(a, b),
    decreases p.len(),
{
    if p.len() > 0 {
        assert((p + a).drop_first() =~= p.drop_first() + a);
        assert((p + b).drop_first() =~= p.drop_first() + b);
        lemma_strip_prefix_lt(p.drop_first(), a, b);
    } else {
        assert(p + a =~= a);
        assert(p + b =~= b);
    }
}

/// Whether `b` starts with `p`.
pub fn starts_with(b: &[u8], p: &[u8]) -> (r: bool)
    ensures
        r == (b@.len() >= p@.len() && b@.subrange(0, p@.len() as int) == p@),
{
    if b.len() < p.len() {
        return false;
    }
    let mut i: usize = 0;
    while i < p.len()
        invariant
            i <= p@.len() <= b@.len(),
            b@.subrange(0, i as int) == p@.subrange(0, i as int),
        decreases p@.len() - i,
    {
        if b[i] != p[i] {
            proof {
                assert(b@.subrange(0, p@.len() as int)[i as int] != p@[i as int]);
            }
            return false;
        }
        proof {
            assert(b@.subrange(0, i + 1) =~= b@.subrange(0, i as int).push(b@[i as int]));
            assert(p@.subrange(0, i + 1) =~= p@.subrange(0, i as int).push(p@[i as int]));
        }
        i = i + 1;
    }
    proof {
        assert(p@.subrange(0, i as int) =~= p@);
    }
    true
}

/// The bytes of `b` from `start` on.
pub fn bytes_from(b: &[u8], start: usize) -> (r: Vec<u8>)
    requires
        start <= b@.len(),
    ensures
        r@ == b@.skip(start as int),
{
    let mut out: Vec<u8> = Vec::new();
    let mut i: usize = start;
    while i < b.len()
        invariant
            start <= i <= b@.len(),
            out@ == b@.subrange(start as int, i as int),
        decreases b@.len() - i,
    {
        out.push(b[i]);
        proof {
            assert(b@.subrange(start as int, i + 1) =~= b@.subrange(start as int, i as int).push(b@[i as int]));
        }
        i = i + 1;
    }
    proof {
        assert(b@.subrange(start as int, i as int) =~= b@.skip(start as int));
    }
    out
}

/// A namespace in a shared store: every key of one state instance carries
/// its prefix.
#[derive(Clone, Debug)]
pub struct Keyspace {
    pub prefix: Vec<u8>,
}

/// The prefix of an executor's keyspace: the byte `e`, then the executor id
/// in big-endian order.
pub open spec fn executor_prefix(executor_id: u32) -> Seq<u8> {
    seq![
        101u8,
        (executor_id >> 24u32) as u8,
        (executor_id >> 16u32) as u8,
        (executor_id >> 8u32) as u8,
        executor_id as u8,
    ]
}

impl Keyspace {
    /// The keyspace of one executor.
    pub fn executor_root(executor_id: u32) -> (r: Self)
        ensures
            r.prefix@ == executor_prefix(executor_id),
    {
        let prefix: Vec<u8> = vec![
            101u8,
            (executor_id >> 24u32) as u8,
            (executor_id >> 16u32) as u8,
            (executor_id >> 8u32) as u8,
            executor_id as u8,
        ];
        Keyspace { prefix }
    }

    /// The full store key of a key of this keyspace.
    pub fn prefixed_key(&self, key: &[u8]) -> (r: Vec<u8>)
        ensures
            r@ == self.prefix@ + key@,
    {
        let mut out = self.prefix.clone();
        let mut i: usize = 0;
        while i < key.len()
            invariant
                i <= key@.len(),
                out@ == self.prefix@ + key@.subrange(0, i as int),
            decreases key@.len() - i,
        {
            out.push(key[i]);
            proof {
                assert(key@.subrange(0, i + 1) =~= key@.subrange(0, i as int).push(key@[i as int]));
            }
            i = i + 1;
        }
        proof {
            assert(key@.subrange(0, i as int) =~= key@);
        }
        out
    }

    /// All entries of this keyspace, keyed without the prefix, in key order.
    pub fn scan_strip_prefix(&self, store: &MemoryStateStore) -> (r: Vec<(Vec<u8>, Vec<u8>)>)
        requires
            store.wf(),
        ensures
            keys_sorted(r@),
            bytes_map(r@) == local_view(store@, self.prefix@),
    {
        store.scan_strip_prefix(self.prefix.as_slice())
    }
}

} // verus!
