//! The managed state of an ordered string concatenation: pending changes
//! per sort key in an ordered cache, a row count supplied by the owner, and
//! an all-or-nothing residency policy over the keyspace in the store.
use vstd::prelude::*;
use crate::byte_order::{
    keys_sorted, has_key, key_map, key_index, find_slot, lemma_insert_at, lemma_update_at,
    lemma_remove_at, lemma_key_map_at,
};
use crate::flush_status::{FlushStatus, StatusView, merge_insert, merge_delete, present_value};
use crate::memcmp::{encode_str, decode_str, frame_complete, memcmp_str_of, memcmp_str_decoded, bytes_frame_complete};
use crate::ordered_key::{ArrayImpl, OrderedArraysSerializer, row_key, columns_cover};
use crate::store::{Keyspace, MemoryStateStore, local_view, bytes_map, opt_get, writes_view};
use vstd::string::StringExecFns;

verus! {

/// The kind of change a row of a batch carries.
#[derive(Clone, Copy, Debug, PartialEq, Eq, Structural)]
pub enum Op {
    Insert,
    Delete,
    UpdateInsert,
    UpdateDelete,
}

/// Inserts and the insert half of an update add a row; the others remove one.
pub open spec fn is_insert_op(op: Op) -> bool {
    op is Insert || op is UpdateInsert
}

/// Why a call on the state failed.
#[derive(Clone, Copy, Debug, PartialEq, Eq, Structural)]
pub enum StateError {
    /// A stored value is not the encoding of a string.
    Decode,
    /// The call would break the state's rules (a delete with no row left).
    InvariantViolation,
}

/// The pending change of each key of the cache.
pub open spec fn pending_map(c: Seq<(Vec<u8>, FlushStatus)>) -> Map<Seq<u8>, StatusView> {
    Map::new(|k: Seq<u8>| has_key(c, k), |k: Seq<u8>| key_map(c)[k]@)
}

/// The values that the cache holds present, in key order.
pub open spec fn present_values(c: Seq<(Vec<u8>, FlushStatus)>) -> Seq<Seq<char>>
    decreases c.len(),
{
    if c.len() == 0 {
        Seq::empty()
    } else {
        let rest = present_values(c.drop_last());
        match present_value(c.last().1@) {
            Some(v) => rest.push(v),
            None => rest,
        }
    }
}

/// The values joined, with `d` between two neighbours.
pub open spec fn join(vals: Seq<Seq<char>>, d: Seq<char>) -> Seq<char>
    decreases vals.len(),
{
    if vals.len() == 0 {
        Seq::empty()
    } else if vals.len() == 1 {
        vals[0]
    } else {
        join(vals.drop_last(), d) + d + vals.last()
    }
}

/// `x` is what a stored value decodes to: the string it encodes, if any.
pub open spec fn decoded_as(b: Seq<u8>, x: Seq<char>) -> bool {
    forall|s: Seq<char>| #[trigger] memcmp_str_of(s, false) == b ==> x == s
}

/// The stored value is a complete frame that decodes to a string.
pub open spec fn decodable(b: Seq<u8>) -> bool {
    bytes_frame_complete(b) && memcmp_str_decoded(b) is Some
}

/// Every value of the keyspace decodes to a string.
pub open spec fn all_decodable(lv: Map<Seq<u8>, Seq<u8>>) -> bool {
    forall|k: Seq<u8>| #[trigger] lv.contains_key(k) ==> decodable(lv[k])
}

/// The cache holds exactly the keyspace, every entry known present with the
/// value its bytes decode to.
pub open spec fn loaded_from(c: Seq<(Vec<u8>, FlushStatus)>, lv: Map<Seq<u8>, Seq<u8>>) -> bool {
    &&& keys_sorted(c)
    &&& forall|k: Seq<u8>| #[trigger] has_key(c, k) <==> lv.contains_key(k)
    &&& forall|i: int|
        0 <= i < c.len() ==> (#[trigger] c[i]).1@ is DeleteInsert && memcmp_str_decoded(lv[c[i].0@])
            == present_value(c[i].1@) && decoded_as(lv[c[i].0@], present_value(c[i].1@)->0)
}

/// The effect of one row on the pending changes.
pub open spec fn apply_op(m: Map<Seq<u8>, StatusView>, op: Op, k: Seq<u8>, v: Seq<char>) -> Map<Seq<u8>, StatusView> {
    if is_insert_op(op) {
        m.insert(k, merge_insert(opt_get(m, k), v))
    } else {
        match merge_delete(opt_get(m, k)) {
            Some(s) => m.insert(k, s),
            None => m.remove(k),
        }
    }
}

/// Row `i` takes effect.
pub open spec fn row_visible(vis: Option<Seq<bool>>, i: int) -> bool {
    match vis {
        Some(v) => v[i],
        None => true,
    }
}

/// The effect of the first `n` rows, in order.
pub open spec fn apply_rows(
    m: Map<Seq<u8>, StatusView>,
    ops: Seq<Op>,
    vis: Option<Seq<bool>>,
    keys: Seq<Seq<u8>>,
    vals: Seq<Seq<char>>,
    n: nat,
) -> Map<Seq<u8>, StatusView>
    decreases n,
{
    if n == 0 {
        m
    } else {
        let prev = apply_rows(m, ops, vis, keys, vals, (n - 1) as nat);
        if row_visible(vis, n - 1) {
            apply_op(prev, ops[n - 1], keys[n - 1], vals[n - 1])
        } else {
            prev
        }
    }
}

/// The row count after the first `n` rows.
pub open spec fn count_after(c: int, ops: Seq<Op>, vis: Option<Seq<bool>>, n: nat) -> int
    decreases n,
{
    if n == 0 {
        c
    } else {
        let prev = count_after(c, ops, vis, (n - 1) as nat);
        if !row_visible(vis, n - 1) {
            prev
        } else if is_insert_op(ops[n - 1]) {
            prev + 1
        } else {
            prev - 1
        }
    }
}

/// The row count stays non-negative over the first `n` rows.
pub open spec fn count_never_negative(c: int, ops: Seq<Op>, vis: Option<Seq<bool>>, n: nat) -> bool
    decreases n,
{
    n == 0 || (count_never_negative(c, ops, vis, (n - 1) as nat) && count_after(c, ops, vis, n) >= 0)
}

/// The value column's string at `row`; a null is the empty string.
pub open spec fn value_of(col: ArrayImpl, row: int) -> Seq<char> {
    match col {
        ArrayImpl::Utf8(v) => match v@[row] {
            Some(s) => s@,
            None => Seq::empty(),
        },
        _ => Seq::empty(),
    }
}

pub open spec fn vis_view(visibility: Option<&Vec<bool>>) -> Option<Seq<bool>> {
    match visibility {
        Some(v) => Some(v@),
        None => None,
    }
}

/// A batch of `ops.len()` rows fits the configuration: every column has a
/// value per row, the value column holds strings.
pub open spec fn batch_fits(
    order_pairs: Seq<(crate::ordered_key::OrderType, usize)>,
    value_index: usize,
    ops: Seq<Op>,
    vis: Option<Seq<bool>>,
    data: Seq<ArrayImpl>,
) -> bool {
    &&& value_index < data.len()
    &&& data[value_index as int] is Utf8
    &&& forall|j: int| 0 <= j < data.len() ==> (#[trigger] data[j]).spec_len() == ops.len()
    &&& forall|j: int| 0 <= j < order_pairs.len() ==> (#[trigger] order_pairs[j]).1 < data.len()
    &&& match vis {
        Some(v) => v.len() == ops.len(),
        None => true,
    }
}

/// The sort keys of the rows of a batch.
pub open spec fn batch_keys(order_pairs: Seq<(crate::ordered_key::OrderType, usize)>, data: Seq<ArrayImpl>, n: nat) -> Seq<Seq<u8>> {
    Seq::new(n, |i: int| row_key(order_pairs, data, i))
}

/// The values of the rows of a batch.
pub open spec fn batch_values(value_index: usize, data: Seq<ArrayImpl>, n: nat) -> Seq<Seq<char>> {
    Seq::new(n, |i: int| value_of(data[value_index as int], i))
}

/// The write that flushing one cache entry makes.
pub open spec fn flush_write(prefix: Seq<u8>, e: (Vec<u8>, FlushStatus)) -> (Seq<u8>, Option<Seq<u8>>) {
    (
        prefix + e.0@,
        match present_value(e.1@) {
            Some(v) => Some(memcmp_str_of(v, false)),
            None => None,
        },
    )
}

/// The writes that flushing a cache makes, in key order.
pub open spec fn flush_writes(prefix: Seq<u8>, c: Seq<(Vec<u8>, FlushStatus)>) -> Seq<(Seq<u8>, Option<Seq<u8>>)> {
    Seq::new(c.len(), |i: int| flush_write(prefix, c[i]))
}

proof fn lemma_pending_insert(c: Seq<(Vec<u8>, FlushStatus)>, c2: Seq<(Vec<u8>, FlushStatus)>, k: Seq<u8>, st: FlushStatus)
    requires
        key_map(c2) == key_map(c).insert(k, st),
    ensures
        pending_map(c2) == pending_map(c).insert(k, st@),
{
    assert forall|q: Seq<u8>| #[trigger] has_key(c2, q) <==> (has_key(c, q) || q == k) by {
        assert(key_map(c2).contains_key(q) == has_key(c2, q));
        assert(key_map(c).contains_key(q) == has_key(c, q));
    }
    assert(pending_map(c2) =~= pending_map(c).insert(k, st@));
}

proof fn lemma_pending_remove(c: Seq<(Vec<u8>, FlushStatus)>, c2: Seq<(Vec<u8>, FlushStatus)>, k: Seq<u8>)
    requires
        key_map(c2) == key_map(c).remove(k),
    ensures
        pending_map(c2) == pending_map(c).remove(k),
{
    assert forall|q: Seq<u8>| #[trigger] has_key(c2, q) <==> (has_key(c, q) && q != k) by {
        assert(key_map(c2).contains_key(q) == has_key(c2, q));
        assert(key_map(c).contains_key(q) == has_key(c, q));
    }
    assert(pending_map(c2) =~= pending_map(c).remove(k));
}

/// Merges one row's insert or delete of `key` into the sorted cache.
pub fn merge_row(cache: &mut Vec<(Vec<u8>, FlushStatus)>, op: Op, key: Vec<u8>, value: String)
    requires
        keys_sorted(old(cache)@),
    ensures
        keys_sorted(final(cache)@),
        pending_map(final(cache)@) == apply_op(pending_map(old(cache)@), op, key@, value@),
{
    let ghost c = cache@;
    let ghost k = key@;
    let ghost v = value@;
    let (idx, found) = find_slot(cache, key.as_slice());
    proof {
        if found {
            lemma_key_map_at(c, idx as int);
            assert(has_key(c, k));
        }
        assert(opt_get(pending_map(c), k) == if found {
            Some(c[idx as int].1@)
        } else {
            None::<StatusView>
        });
    }
    let is_insert = match op {
        Op::Insert | Op::UpdateInsert => true,
        Op::Delete | Op::UpdateDelete => false,
    };
    let existing = if found {
        Some(&cache[idx].1)
    } else {
        None
    };
    if is_insert {
        let st = FlushStatus::do_insert(existing, value);
        if found {
            proof {
                lemma_update_at(c, idx as int, key, st);
                lemma_pending_insert(c, c.update(idx as int, (key, st)), k, st);
            }
            cache.set(idx, (key, st));
        } else {
            proof {
                lemma_insert_at(c, idx as int, key, st);
                lemma_pending_insert(c, c.insert(idx as int, (key, st)), k, st);
            }
            cache.insert(idx, (key, st));
        }
    } else {
        let st = FlushStatus::do_delete(existing);
        match st {
            Some(st) => {
                if found {
                    proof {
                        lemma_update_at(c, idx as int, key, st);
                        lemma_pending_insert(c, c.update(idx as int, (key, st)), k, st);
                    }
                    cache.set(idx, (key, st));
                } else {
                    proof {
                        lemma_insert_at(c, idx as int, key, st);
                        lemma_pending_insert(c, c.insert(idx as int, (key, st)), k, st);
                    }
                    cache.insert(idx, (key, st));
                }
            },
            None => {
                if found {
                    proof {
                        lemma_remove_at(c, idx as int);
                        lemma_pending_remove(c, c.remove(idx as int), k);
                    }
                    cache.remove(idx);
                }
            },
        }
    }
}

/// Joins the present values of the cache, in key order, with `delimiter`.
pub fn concat_present(cache: &Vec<(Vec<u8>, FlushStatus)>, delimiter: &String) -> (r: String)
    ensures
        r@ == join(present_values(cache@), delimiter@),
{
    let mut out = String::new();
    let mut first = true;
    let mut i: usize = 0;
    while i < cache.len()
        invariant
            i <= cache@.len(),
            out@ == join(present_values(cache@.subrange(0, i as int)), delimiter@),
            first == (present_values(cache@.subrange(0, i as int)).len() == 0),
        decreases cache@.len() - i,
    {
        let ghost before = present_values(cache@.subrange(0, i as int));
        proof {
            assert(cache@.subrange(0, i + 1).drop_last() =~= cache@.subrange(0, i as int));
        }
        match cache[i].1.as_option() {
            Some(v) => {
                if !first {
                    out.append(delimiter.as_str());
                }
                out.append(v.as_str());
                first = false;
                proof {
                    let now = present_values(cache@.subrange(0, i + 1));
                    assert(now == before.push(v@));
                    assert(now.drop_last() =~= before);
                    if before.len() == 0 {
                        assert(out@ =~= join(now, delimiter@));
                    }
                }
            },
            None => {},
        }
        i = i + 1;
    }
    proof {
        assert(cache@.subrange(0, i as int) =~= cache@);
    }
    out
}

/// The string at `row` of the value column; a null gives the empty string.
fn value_at(col: &ArrayImpl, row: usize) -> (r: String)
    requires
        row < col.spec_len(),
    ensures
        r@ == value_of(*col, row as int),
{
    match col {
        ArrayImpl::Utf8(v) => match &v[row] {
            Some(s) => s.clone(),
            None => String::new(),
        },
        _ => String::new(),
    }
}

proof fn lemma_count_prefix(c: int, ops: Seq<Op>, vis: Option<Seq<bool>>, i: nat, n: nat)
    requires
        c >= 0,
        i <= n,
        count_never_negative(c, ops, vis, n),
    ensures
        count_never_negative(c, ops, vis, i),
        count_after(c, ops, vis, i) >= 0,
    decreases n,
{
    if i < n {
        lemma_count_prefix(c, ops, vis, i, (n - 1) as nat);
    } else if n == 0 {
    }
}

proof fn lemma_count_bound(c: int, ops: Seq<Op>, vis: Option<Seq<bool>>, n: nat)
    ensures
        count_after(c, ops, vis, n) <= c + n,
    decreases n,
{
    if n > 0 {
        lemma_count_bound(c, ops, vis, (n - 1) as nat);
    }
}

/// The aggregate state of one ordered string concatenation.
pub struct ManagedStringAggState {
    cache: Vec<(Vec<u8>, FlushStatus)>,
    /// The memoized result.
    result: Option<String>,
    /// The cache holds changes that storage does not.
    dirty: bool,
    /// Number of rows in the state.
    total_count: usize,
    /// Sort key column indices, matching the serializer's pairs.
    sort_key_indices: Vec<usize>,
    /// The column whose strings are joined.
    value_index: usize,
    delimiter: String,
    keyspace: Keyspace,
    sorted_arrays_serializer: OrderedArraysSerializer,
    /// The present values of the state in key order, as last known.
    contents: Ghost<Seq<Seq<char>>>,
}

impl ManagedStringAggState {
    pub closed spec fn cache_view(&self) -> Seq<(Vec<u8>, FlushStatus)> {
        self.cache@
    }

    pub closed spec fn memo(&self) -> Option<String> {
        self.result
    }

    pub closed spec fn dirty_spec(&self) -> bool {
        self.dirty
    }

    pub closed spec fn count(&self) -> nat {
        self.total_count as nat
    }

    pub closed spec fn delimiter_view(&self) -> Seq<char> {
        self.delimiter@
    }

    pub closed spec fn value_col(&self) -> usize {
        self.value_index
    }

    pub closed spec fn order_pairs(&self) -> Seq<(crate::ordered_key::OrderType, usize)> {
        self.sorted_arrays_serializer.order_pairs@
    }

    pub closed spec fn prefix(&self) -> Seq<u8> {
        self.keyspace.prefix@
    }

    /// The present values in key order, as last known: those of the cache
    /// while it is resident.
    pub closed spec fn contents(&self) -> Seq<Seq<char>> {
        self.contents@
    }

    /// The cache holds the whole state.
    pub open spec fn resident(&self) -> bool {
        self.dirty_spec() || self.cache_view().len() > 0
    }

    /// A load from storage comes first.
    pub open spec fn needs_load(&self) -> bool {
        self.count() > 0 && self.cache_view().len() == 0 && !self.dirty_spec()
    }

    /// The configuration is that of `other`.
    pub open spec fn same_config(&self, other: &Self) -> bool {
        &&& self.delimiter_view() == other.delimiter_view()
        &&& self.value_col() == other.value_col()
        &&& self.order_pairs() == other.order_pairs()
        &&& self.prefix() == other.prefix()
    }

    pub closed spec fn wf(&self) -> bool {
        &&& keys_sorted(self.cache@)
        &&& (self.result is Some ==> self.result->0@ == join(self.contents@, self.delimiter@)
            && self.total_count > 0)
        &&& (self.dirty || self.cache@.len() > 0) ==> self.contents@ == present_values(self.cache@)
    }

    /// A state over `keyspace` that holds `row_count` rows in storage.
    pub fn new(
        keyspace: Keyspace,
        row_count: usize,
        sort_key_indices: Vec<usize>,
        value_index: usize,
        delimiter: String,
        sort_key_serializer: OrderedArraysSerializer,
    ) -> (r: Self)
        ensures
            r.wf(),
            r.count() == row_count,
            !r.dirty_spec(),
            r.cache_view().len() == 0,
            r.memo() is None,
            r.delimiter_view() == delimiter@,
            r.value_col() == value_index,
            r.order_pairs() == sort_key_serializer.order_pairs@,
            r.prefix() == keyspace.prefix@,
    {
        ManagedStringAggState {
            cache: Vec::new(),
            result: None,
            dirty: false,
            total_count: row_count,
            sort_key_indices,
            value_index,
            delimiter,
            keyspace,
            sorted_arrays_serializer: sort_key_serializer,
            contents: Ghost(Seq::empty()),
        }
    }

    /// Number of rows in the state.
    pub fn get_row_count(&self) -> (r: usize)
        ensures
            r == self.count(),
    {
        self.total_count
    }

    /// Whether the cache holds changes that storage does not.
    pub fn is_dirty(&self) -> (r: bool)
        ensures
            r == self.dirty_spec(),
    {
        self.dirty
    }

    /// Loads the whole keyspace into the (empty, clean) cache, each entry
    /// as known present. On a value that does not decode, nothing changes.
    fn read_all_into_memory(&mut self, store: &MemoryStateStore) -> (r: Result<(), StateError>)
        requires
            old(self).wf(),
            store.wf(),
            !old(self).dirty,
            old(self).cache@.len() == 0,
        ensures
            final(self).wf(),
            final(self).same_config(old(self)),
            final(self).total_count == old(self).total_count,
            !final(self).dirty,
            r is Ok ==> final(self).contents@ == present_values(final(self).cache@),
            r is Ok ==> loaded_from(final(self).cache@, local_view(store@, old(self).keyspace.prefix@))
                && final(self).result is None,
            r is Err ==> r == Err::<(), StateError>(StateError::Decode) && *final(self) == *old(self),
            r is Ok <==> all_decodable(local_view(store@, old(self).keyspace.prefix@)),
    {
        let all_data = self.keyspace.scan_strip_prefix(store);
        let ghost lv = local_view(store@, self.keyspace.prefix@);
        let mut loaded: Vec<(Vec<u8>, FlushStatus)> = Vec::new();
        let mut i: usize = 0;
        while i < all_data.len()
            invariant
                i <= all_data@.len(),
                *self == *old(self),
                self.wf(),
                !self.dirty,
                self.cache@.len() == 0,
                keys_sorted(all_data@),
                bytes_map(all_data@) == lv,
                lv == local_view(store@, self.keyspace.prefix@),
                loaded@.len() == i,
                forall|j: int| 0 <= j < i ==> (#[trigger] loaded@[j]).0@ == all_data@[j].0@,
                forall|j: int|
                    0 <= j < i ==> (#[trigger] loaded@[j]).1@ is DeleteInsert && memcmp_str_decoded(
                        all_data@[j].1@,
                    ) == present_value(loaded@[j].1@) && decoded_as(
                        all_data@[j].1@,
                        present_value(loaded@[j].1@)->0,
                    ) && bytes_frame_complete(all_data@[j].1@),
            decreases all_data@.len() - i,
        {
            let (raw_key, raw_value) = &all_data[i];
            proof {
                lemma_key_map_at(all_data@, i as int);
                assert(has_key(all_data@, all_data@[i as int].0@));
            }
            let ghost k = all_data@[i as int].0@;
            proof {
                assert(lv.contains_key(k) && lv[k] == raw_value@);
            }
            if !frame_complete(raw_value.as_slice()) {
                return Err(StateError::Decode);
            }
            let value = decode_str(raw_value.as_slice());
            match value {
                Some(s) => {
                    loaded.push((raw_key.clone(), FlushStatus::DeleteInsert(s)));
                },
                None => {
                    return Err(StateError::Decode);
                },
            }
            i = i + 1;
        }
        proof {
            let c = loaded@;
            assert forall|a: int, b: int| 0 <= a < b < c.len() implies crate::byte_order::lex_lt(
                #[trigger] c[a].0@,
                #[trigger] c[b].0@,
            ) by {
                assert(c[a].0@ == all_data@[a].0@);
                assert(c[b].0@ == all_data@[b].0@);
            }
            assert forall|k: Seq<u8>| #[trigger] has_key(c, k) <==> lv.contains_key(k) by {
                if has_key(c, k) {
                    let j = key_index(c, k);
                    assert(all_data@[j].0@ == k);
                    assert(has_key(all_data@, k));
                }
                if lv.contains_key(k) {
                    assert(has_key(all_data@, k));
                    let j = key_index(all_data@, k);
                    assert(c[j].0@ == k);
                }
            }
            assert forall|j: int| 0 <= j < c.len() implies (#[trigger] c[j]).1@ is DeleteInsert
                && memcmp_str_decoded(lv[c[j].0@]) == present_value(c[j].1@) && decoded_as(
                lv[c[j].0@],
                present_value(c[j].1@)->0,
            ) by {
                lemma_key_map_at(all_data@, j);
                assert(has_key(all_data@, all_data@[j].0@));
            }
            assert forall|k: Seq<u8>| #[trigger] lv.contains_key(k) implies decodable(lv[k]) by {
                assert(has_key(all_data@, k));
                let j = key_index(all_data@, k);
                lemma_key_map_at(all_data@, j);
                assert(loaded@[j].1@ is DeleteInsert);
            }
        }
        self.cache = loaded;
        self.dirty = false;
        self.result = None;
        self.contents = Ghost(present_values(self.cache@));
        Ok(())
    }

    /// The cache is sorted by key; while it is resident, the contents are
    /// its present values.
    pub proof fn lemma_cache_facts(&self)
        requires
            self.wf(),
        ensures
            keys_sorted(self.cache_view()),
            self.resident() ==> self.contents() == present_values(self.cache_view()),
    {
    }

    /// The current result: the present values joined in sort key order, or
    /// `None` where the state holds no row. Unflushed changes are visible.
    /// A clean state with an empty cache loads from storage first.
    pub fn get_output(&mut self, store: &MemoryStateStore) -> (r: Result<Option<String>, StateError>)
        requires
            old(self).wf(),
            store.wf(),
        ensures
            final(self).wf(),
            final(self).same_config(old(self)),
            final(self).count() == old(self).count(),
            final(self).dirty_spec() == old(self).dirty_spec(),
            old(self).count() == 0 ==> r == Ok::<Option<String>, StateError>(None) && *final(self)
                == *old(self),
            r matches Ok(Some(x)) ==> final(self).memo() == Some(x),
            old(self).count() > 0 && (old(self).resident() || old(self).memo() is Some) ==> {
                &&& r is Ok && r->Ok_0 is Some
                &&& r->Ok_0->0@ == join(old(self).contents(), old(self).delimiter_view())
                &&& final(self).contents() == old(self).contents()
                &&& final(self).cache_view() == old(self).cache_view()
            },
            old(self).needs_load() && old(self).memo() is None ==> {
                &&& r is Ok ==> r->Ok_0 is Some && loaded_from(
                    final(self).cache_view(),
                    local_view(store@, old(self).prefix()),
                ) && r->Ok_0->0@ == join(present_values(final(self).cache_view()), old(self).delimiter_view())
                    && final(self).contents() == present_values(final(self).cache_view())
                &&& r is Err ==> r == Err::<Option<String>, StateError>(StateError::Decode) && *final(self)
                    == *old(self)
                &&& r is Ok <==> all_decodable(local_view(store@, old(self).prefix()))
            },
    {
        if !self.dirty {
            if let Some(res) = &self.result {
                return Ok(Some(res.clone()));
            } else if self.total_count == 0 {
                return Ok(None);
            } else if self.cache.len() > 0 {
                let res = concat_present(&self.cache, &self.delimiter);
                self.result = Some(res.clone());
                return Ok(Some(res));
            }
        }
        if self.total_count == 0 {
            return Ok(None);
        }
        if !self.dirty {
            match self.read_all_into_memory(store) {
                Ok(()) => {},
                Err(e) => {
                    return Err(e);
                },
            }
        }
        let res = concat_present(&self.cache, &self.delimiter);
        self.result = Some(res.clone());
        Ok(Some(res))
    }

    /// Writes every pending change into `write_batch`, in key order: a put
    /// of the prefixed key and encoded value for a present entry, a delete
    /// otherwise; then empties the cache and clears the dirty flag. The row
    /// count and the memoized result stay. Nothing happens to a clean state.
    pub fn flush(&mut self, write_batch: &mut Vec<(Vec<u8>, Option<Vec<u8>>)>)
        requires
            old(self).wf(),
        ensures
            final(self).wf(),
            final(self).same_config(old(self)),
            final(self).count() == old(self).count(),
            final(self).memo() == old(self).memo(),
            final(self).contents() == old(self).contents(),
            !final(self).dirty_spec(),
            !old(self).dirty_spec() ==> *final(self) == *old(self) && final(write_batch)@ == old(write_batch)@,
            old(self).dirty_spec() ==> final(self).cache_view().len() == 0 && writes_view(final(write_batch)@)
                == writes_view(old(write_batch)@) + flush_writes(old(self).prefix(), old(self).cache_view()),
            forall|i: int|
                old(write_batch)@.len() <= i < final(write_batch)@.len() && (#[trigger] final(write_batch)@[i]).1 is Some
                    ==> bytes_frame_complete(final(write_batch)@[i].1->0@),
    {
        if !self.dirty {
            return;
        }
        let ghost start = write_batch@;
        let mut i: usize = 0;
        while i < self.cache.len()
            invariant
                i <= self.cache@.len(),
                *self == *old(self),
                start == old(write_batch)@,
                writes_view(write_batch@) =~= writes_view(start) + flush_writes(
                    self.keyspace.prefix@,
                    self.cache@.subrange(0, i as int),
                ),
                write_batch@.len() == start.len() + i,
                forall|j: int| 0 <= j < start.len() ==> write_batch@[j] == start[j],
                forall|j: int|
                    start.len() <= j < write_batch@.len() && (#[trigger] write_batch@[j]).1 is Some
                        ==> bytes_frame_complete(write_batch@[j].1->0@),
            decreases self.cache@.len() - i,
        {
            let key_encoded = self.keyspace.prefixed_key(self.cache[i].0.as_slice());
            let ghost before = write_batch@;
            match self.cache[i].1.as_option() {
                Some(val) => {
                    let bytes = encode_str(val.as_str(), false);
                    write_batch.push((key_encoded, Some(bytes)));
                },
                None => {
                    write_batch.push((key_encoded, None));
                },
            }
            proof {
                let fw = flush_writes(self.keyspace.prefix@, self.cache@.subrange(0, i + 1));
                let fw0 = flush_writes(self.keyspace.prefix@, self.cache@.subrange(0, i as int));
                assert(fw =~= fw0.push(flush_write(self.keyspace.prefix@, self.cache@[i as int])));
                assert(writes_view(write_batch@) =~= writes_view(before).push(
                    flush_write(self.keyspace.prefix@, self.cache@[i as int]),
                ));
            }
            i = i + 1;
        }
        proof {
            assert(self.cache@.subrange(0, i as int) =~= self.cache@);
        }
        self.cache = Vec::new();
        self.dirty = false;
    }

    /// Applies a batch of row changes. A row whose visibility is false is
    /// skipped. Each visible row merges an insert or a delete of its sort
    /// key into the cache and moves the row count by one. A clean state
    /// with an empty cache and rows in storage loads them first.
    /// Fails, changing nothing, where a delete would take the row count
    /// below zero, or where a stored value does not decode.
    pub fn apply_batch(
        &mut self,
        store: &MemoryStateStore,
        ops: &[Op],
        visibility: Option<&Vec<bool>>,
        data: &[ArrayImpl],
    ) -> (r: Result<(), StateError>)
        requires
            old(self).wf(),
            store.wf(),
            batch_fits(old(self).order_pairs(), old(self).value_col(), ops@, vis_view(visibility), data@),
            old(self).count() + ops@.len() <= usize::MAX,
        ensures
            final(self).wf(),
            final(self).same_config(old(self)),
            !count_never_negative(old(self).count() as int, ops@, vis_view(visibility), ops@.len())
                ==> r == Err::<(), StateError>(StateError::InvariantViolation),
            r is Err ==> *final(self) == *old(self),
            count_never_negative(old(self).count() as int, ops@, vis_view(visibility), ops@.len()) ==> (r
                == Err::<(), StateError>(StateError::Decode) <==> old(self).needs_load() && !all_decodable(
                local_view(store@, old(self).prefix()),
            )) && (r is Ok <==> !(old(self).needs_load() && !all_decodable(
                local_view(store@, old(self).prefix()),
            ))),
            r is Ok ==> {
                let keys = batch_keys(old(self).order_pairs(), data@, ops@.len());
                let vals = batch_values(old(self).value_col(), data@, ops@.len());
                let vis = vis_view(visibility);
                &&& count_never_negative(old(self).count() as int, ops@, vis, ops@.len())
                &&& final(self).count() == count_after(old(self).count() as int, ops@, vis, ops@.len())
                &&& !old(self).needs_load() ==> pending_map(final(self).cache_view()) == apply_rows(
                    pending_map(old(self).cache_view()),
                    ops@,
                    vis,
                    keys,
                    vals,
                    ops@.len(),
                )
                &&& old(self).needs_load() ==> exists|c0: Seq<(Vec<u8>, FlushStatus)>|
                    loaded_from(c0, local_view(store@, old(self).prefix())) && pending_map(
                        final(self).cache_view(),
                    ) == apply_rows(pending_map(c0), ops@, vis, keys, vals, ops@.len())
                &&& (exists|i: int| 0 <= i < ops@.len() && row_visible(vis, i)) ==> final(self).dirty_spec()
                    && final(self).memo() is None
                &&& !(exists|i: int| 0 <= i < ops@.len() && row_visible(vis, i)) ==> {
                    &&& final(self).dirty_spec() == old(self).dirty_spec()
                    &&& final(self).count() == old(self).count()
                    &&& !old(self).needs_load() ==> *final(self) == *old(self)
                }
            },
    {
        let ghost vis = vis_view(visibility);
        let ghost c0 = self.total_count as int;
        let n = ops.len();
        // Check the row count first, so that a failing batch changes nothing.
        let mut cnt: usize = self.total_count;
        let mut row: usize = 0;
        while row < n
            invariant
                row <= n == ops@.len(),
                *self == *old(self),
                self.wf(),
                c0 == old(self).total_count,
                c0 + n <= usize::MAX,
                vis == vis_view(visibility),
                batch_fits(old(self).order_pairs(), old(self).value_col(), ops@, vis, data@),
                count_never_negative(c0, ops@, vis, row as nat),
                cnt == count_after(c0, ops@, vis, row as nat),
            decreases n - row,
        {
            proof {
                lemma_count_bound(c0, ops@, vis, row as nat);
            }
            let visible = match visibility {
                Some(v) => v[row],
                None => true,
            };
            if visible {
                match ops[row] {
                    Op::Insert | Op::UpdateInsert => {
                        cnt = cnt + 1;
                    },
                    Op::Delete | Op::UpdateDelete => {
                        if cnt == 0 {
                            proof {
                                if count_never_negative(c0, ops@, vis, n as nat) {
                                    lemma_count_prefix(c0, ops@, vis, (row + 1) as nat, n as nat);
                                }
                            }
                            return Err(StateError::InvariantViolation);
                        }
                        cnt = cnt - 1;
                    },
                }
            }
            row = row + 1;
        }
        let ghost was_loading = self.needs_load();
        if self.total_count > 0 && self.cache.len() == 0 && !self.dirty {
            match self.read_all_into_memory(store) {
                Ok(()) => {},
                Err(e) => {
                    return Err(e);
                },
            }
        }
        let ghost base = self.cache@;
        let ghost mid = *self;
        proof {
            if !was_loading {
                assert(mid == *old(self));
            }
        }
        let mut row_keys: Vec<Vec<u8>> = Vec::new();
        proof {
            assert forall|r: int| 0 <= r < n implies columns_cover(
                self.sorted_arrays_serializer.order_pairs@,
                data@,
                r,
            ) by {
                assert forall|j: int| 0 <= j < self.sorted_arrays_serializer.order_pairs@.len() implies
                    #[trigger] self.sorted_arrays_serializer.order_pairs@[j].1 < data@.len()
                    && 0 <= r < data@[self.sorted_arrays_serializer.order_pairs@[j].1 as int].spec_len() by {
                    assert(data@[self.sorted_arrays_serializer.order_pairs@[j].1 as int].spec_len() == ops@.len());
                }
            }
        }
        self.sorted_arrays_serializer.serialize(data, n, &mut row_keys);
        proof {
            assert forall|r: int| 0 <= r < n implies (#[trigger] row_keys@[r])@ == row_key(
                self.sorted_arrays_serializer.order_pairs@,
                data@,
                r,
            ) by {
                assert(row_keys@[0 + r] == row_keys@[r]);
            }
        }
        let ghost keys = batch_keys(old(self).order_pairs(), data@, n as nat);
        let ghost vals = batch_values(old(self).value_col(), data@, n as nat);
        let mut row: usize = 0;
        while row < n
            invariant
                row <= n == ops@.len(),
                self.wf(),
                self.same_config(&mid),
                mid.same_config(old(self)),
                keys_sorted(self.cache@),
                c0 == old(self).total_count,
                c0 + n <= usize::MAX,
                vis == vis_view(visibility),
                batch_fits(old(self).order_pairs(), old(self).value_col(), ops@, vis, data@),
                count_never_negative(c0, ops@, vis, n as nat),
                self.total_count == count_after(c0, ops@, vis, row as nat),
                row_keys@.len() == n,
                forall|r: int| 0 <= r < n ==> (#[trigger] row_keys@[r])@ == keys[r],
                keys == batch_keys(old(self).order_pairs(), data@, n as nat),
                vals == batch_values(old(self).value_col(), data@, n as nat),
                pending_map(self.cache@) == apply_rows(pending_map(base), ops@, vis, keys, vals, row as nat),
                (exists|i: int| 0 <= i < row && row_visible(vis, i)) ==> self.dirty && self.result is None,
                !(exists|i: int| 0 <= i < row && row_visible(vis, i)) ==> *self == mid,
            decreases n - row,
        {
            let visible = match visibility {
                Some(v) => v[row],
                None => true,
            };
            if visible {
                proof {
                    lemma_count_prefix(c0, ops@, vis, (row + 1) as nat, n as nat);
                    lemma_count_bound(c0, ops@, vis, (row + 1) as nat);
                }
                let value = value_at(&data[self.value_index], row);
                let key = row_keys[row].clone();
                proof {
                    assert(key@ =~= row_keys@[row as int]@);
                }
                merge_row(&mut self.cache, ops[row], key, value);
                match ops[row] {
                    Op::Insert | Op::UpdateInsert => {
                        self.total_count = self.total_count + 1;
                    },
                    Op::Delete | Op::UpdateDelete => {
                        self.total_count = self.total_count - 1;
                    },
                }
                self.dirty = true;
                self.result = None;
                self.contents = Ghost(present_values(self.cache@));
            }
            proof {
                if exists|i: int| 0 <= i < row + 1 && row_visible(vis, i) {
                    if !visible {
                        let i = choose|i: int| 0 <= i < row + 1 && row_visible(vis, i);
                        assert(i < row);
                    }
                }
            }
            row = row + 1;
        }
        proof {
            if was_loading {
                assert(loaded_from(base, local_view(store@, old(self).prefix())));
            }
        }
        Ok(())
    }
}

} // verus!
