//! Properties of the state that relate several operations: order
//! independence, cancellation, and recovery from storage.
use vstd::prelude::*;
use crate::byte_order::{
    keys_sorted, has_key, key_map, key_index, lex_lt, lemma_key_map_at, lemma_lex_total,
    lemma_remove_at,
};
use crate::flush_status::{FlushStatus, StatusView, present_value, merge_insert};
use crate::memcmp::memcmp_str_of;
use crate::store::{opt_get, local_view, apply_write, apply_writes};
use crate::string_agg::{
    pending_map, present_values, join, apply_op, apply_rows, is_insert_op, flush_writes, flush_write,
    loaded_from, decoded_as, Op, ManagedStringAggState,
};

verus! {

/// The present value of each key of the cache.
pub open spec fn present_map(c: Seq<(Vec<u8>, FlushStatus)>) -> Map<Seq<u8>, Seq<char>> {
    Map::new(
        |k: Seq<u8>| has_key(c, k) && present_value(key_map(c)[k]@) is Some,
        |k: Seq<u8>| present_value(key_map(c)[k]@)->0,
    )
}

proof fn lemma_drop_last_map(c: Seq<(Vec<u8>, FlushStatus)>)
    requires
        keys_sorted(c),
        c.len() > 0,
    ensures
        keys_sorted(c.drop_last()),
        key_map(c.drop_last()) == key_map(c).remove(c.last().0@),
        forall|k: Seq<u8>| #[trigger] has_key(c.drop_last(), k) <==> (has_key(c, k) && k != c.last().0@),
{
    lemma_remove_at(c, c.len() - 1);
    assert(c.remove(c.len() - 1) =~= c.drop_last());
    assert forall|k: Seq<u8>| #[trigger] has_key(c.drop_last(), k) <==> (has_key(c, k) && k != c.last().0@) by {
        assert(key_map(c.drop_last()).contains_key(k) == has_key(c.drop_last(), k));
        assert(key_map(c).contains_key(k) == has_key(c, k));
    }
}

proof fn lemma_present_map_drop_last(c: Seq<(Vec<u8>, FlushStatus)>)
    requires
        keys_sorted(c),
        c.len() > 0,
    ensures
        present_map(c.drop_last()) == present_map(c).remove(c.last().0@),
        present_value(c.last().1@) is Some ==> present_map(c).contains_key(c.last().0@)
            && present_map(c)[c.last().0@] == present_value(c.last().1@)->0,
        present_value(c.last().1@) is None ==> !present_map(c).contains_key(c.last().0@),
{
    lemma_drop_last_map(c);
    lemma_key_map_at(c, c.len() - 1);
    assert(present_map(c.drop_last()) =~= present_map(c).remove(c.last().0@));
}

/// In sorted entries every key but the last sorts before the last.
proof fn lemma_last_is_max(c: Seq<(Vec<u8>, FlushStatus)>, k: Seq<u8>)
    requires
        keys_sorted(c),
        has_key(c, k),
        k != c.last().0@,
    ensures
        lex_lt(k, c.last().0@),
{
    let j = key_index(c, k);
}

/// An empty present map: no value is present, and nothing is output.
proof fn lemma_no_present(c: Seq<(Vec<u8>, FlushStatus)>)
    requires
        keys_sorted(c),
        present_map(c) =~= Map::<Seq<u8>, Seq<char>>::empty(),
    ensures
        present_values(c) == Seq::<Seq<char>>::empty(),
    decreases c.len(),
{
    if c.len() > 0 {
        lemma_present_map_drop_last(c);
        lemma_drop_last_map(c);
        assert(present_map(c.drop_last()) =~= Map::<Seq<u8>, Seq<char>>::empty());
        lemma_no_present(c.drop_last());
    }
}

/// Two sorted caches that hold the same present values under the same keys
/// output the same values in the same order.
pub proof fn lemma_present_unique(c1: Seq<(Vec<u8>, FlushStatus)>, c2: Seq<(Vec<u8>, FlushStatus)>)
    requires
        keys_sorted(c1),
        keys_sorted(c2),
        present_map(c1) == present_map(c2),
    ensures
        present_values(c1) == present_values(c2),
    decreases c1.len() + c2.len(),
{
    if c1.len() == 0 {
        assert(present_map(c1) =~= Map::<Seq<u8>, Seq<char>>::empty());
        lemma_no_present(c2);
    } else if c2.len() == 0 {
        assert(present_map(c2) =~= Map::<Seq<u8>, Seq<char>>::empty());
        lemma_no_present(c1);
    } else {
        lemma_present_map_drop_last(c1);
        lemma_present_map_drop_last(c2);
        lemma_drop_last_map(c1);
        lemma_drop_last_map(c2);
        let k1 = c1.last().0@;
        let k2 = c2.last().0@;
        if present_value(c1.last().1@) is None {
            assert(present_map(c1).remove(k1) =~= present_map(c1));
            lemma_present_unique(c1.drop_last(), c2);
        } else if present_value(c2.last().1@) is None {
            assert(present_map(c2).remove(k2) =~= present_map(c2));
            lemma_present_unique(c1, c2.drop_last());
        } else {
            if k1 != k2 {
                assert(present_map(c1).contains_key(k2));
                assert(has_key(c1, k2));
                assert(has_key(c2, k1));
                lemma_last_is_max(c1, k2);
                lemma_last_is_max(c2, k1);
                lemma_lex_total(k1, k2);
            }
            lemma_present_unique(c1.drop_last(), c2.drop_last());
        }
    }
}

/// The pending changes determine the present values.
pub proof fn lemma_pending_determines_present(c1: Seq<(Vec<u8>, FlushStatus)>, c2: Seq<(Vec<u8>, FlushStatus)>)
    requires
        pending_map(c1) == pending_map(c2),
    ensures
        present_map(c1) == present_map(c2),
{
    assert forall|k: Seq<u8>| #[trigger] has_key(c1, k) <==> has_key(c2, k) by {
        assert(pending_map(c1).contains_key(k) == has_key(c1, k));
        assert(pending_map(c2).contains_key(k) == has_key(c2, k));
    }
    assert forall|k: Seq<u8>| has_key(c1, k) implies #[trigger] key_map(c1)[k]@ == key_map(c2)[k]@ by {
        assert(pending_map(c1)[k] == key_map(c1)[k]@);
        assert(pending_map(c2)[k] == key_map(c2)[k]@);
    }
    assert(present_map(c1) =~= present_map(c2));
}

/// Two sorted caches with the same pending changes give the same output:
/// the output is a function of the pending changes alone.
pub proof fn lemma_output_determined(
    c1: Seq<(Vec<u8>, FlushStatus)>,
    c2: Seq<(Vec<u8>, FlushStatus)>,
    delimiter: Seq<char>,
)
    requires
        keys_sorted(c1),
        keys_sorted(c2),
        pending_map(c1) == pending_map(c2),
    ensures
        join(present_values(c1), delimiter) == join(present_values(c2), delimiter),
{
    lemma_pending_determines_present(c1, c2);
    lemma_present_unique(c1, c2);
}


/// Two sorted caches with the same pending changes hold the same entries,
/// in the same order.
pub proof fn lemma_sorted_unique(c1: Seq<(Vec<u8>, FlushStatus)>, c2: Seq<(Vec<u8>, FlushStatus)>)
    requires
        keys_sorted(c1),
        keys_sorted(c2),
        pending_map(c1) == pending_map(c2),
    ensures
        c1.len() == c2.len(),
        forall|i: int| 0 <= i < c1.len() ==> #[trigger] c1[i].0@ == c2[i].0@ && c1[i].1@ == c2[i].1@,
    decreases c1.len() + c2.len(),
{
    assert forall|k: Seq<u8>| #[trigger] has_key(c1, k) <==> has_key(c2, k) by {
        assert(pending_map(c1).contains_key(k) == has_key(c1, k));
        assert(pending_map(c2).contains_key(k) == has_key(c2, k));
    }
    if c1.len() == 0 {
        if c2.len() > 0 {
            assert(has_key(c2, c2[0].0@));
            assert(has_key(c1, c2[0].0@));
        }
    } else if c2.len() == 0 {
        assert(has_key(c1, c1[0].0@));
        assert(has_key(c2, c1[0].0@));
    } else {
        lemma_drop_last_map(c1);
        lemma_drop_last_map(c2);
        let k1 = c1.last().0@;
        let k2 = c2.last().0@;
        assert(has_key(c1, k1));
        assert(has_key(c2, k2));
        if k1 != k2 {
            lemma_last_is_max(c1, k2);
            lemma_last_is_max(c2, k1);
            lemma_lex_total(k1, k2);
        }
        lemma_key_map_at(c1, c1.len() - 1);
        lemma_key_map_at(c2, c2.len() - 1);
        assert(pending_map(c1)[k1] == c1.last().1@);
        assert(pending_map(c2)[k2] == c2.last().1@);
        assert(pending_map(c1.drop_last()) =~= pending_map(c2.drop_last())) by {
            assert forall|k: Seq<u8>| has_key(c1.drop_last(), k) implies
                #[trigger] key_map(c1.drop_last())[k]@ == key_map(c2.drop_last())[k]@ by {
                assert(pending_map(c1)[k] == key_map(c1)[k]@);
                assert(pending_map(c2)[k] == key_map(c2)[k]@);
            }
        }
        lemma_sorted_unique(c1.drop_last(), c2.drop_last());
        assert forall|i: int| 0 <= i < c1.len() implies #[trigger] c1[i].0@ == c2[i].0@ && c1[i].1@
            == c2[i].1@ by {
            if i < c1.len() - 1 {
                assert(c1.drop_last()[i] == c1[i]);
                assert(c2.drop_last()[i] == c2[i]);
            }
        }
    }
}

/// Two sorted caches with the same pending changes flush the same writes.
pub proof fn lemma_flush_determined(
    c1: Seq<(Vec<u8>, FlushStatus)>,
    c2: Seq<(Vec<u8>, FlushStatus)>,
    prefix: Seq<u8>,
)
    requires
        keys_sorted(c1),
        keys_sorted(c2),
        pending_map(c1) == pending_map(c2),
    ensures
        flush_writes(prefix, c1) == flush_writes(prefix, c2),
{
    lemma_sorted_unique(c1, c2);
    assert(flush_writes(prefix, c1) =~= flush_writes(prefix, c2));
}

/// Inserting a row and then deleting it again, before any flush, leaves
/// the pending changes as they were, wherever the key held no present row
/// (no entry, or a pending delete). So the writes of the next flush and the
/// output are those of before the insert.
pub proof fn lemma_insert_then_delete_cancels(
    m: Map<Seq<u8>, StatusView>,
    k: Seq<u8>,
    v: Seq<char>,
    insert: Op,
    delete: Op,
)
    requires
        is_insert_op(insert),
        !is_insert_op(delete),
        !m.contains_key(k) || m[k] == StatusView::Delete,
    ensures
        apply_op(apply_op(m, insert, k, v), delete, k, v) == m,
{
    let m1 = apply_op(m, insert, k, v);
    assert(opt_get(m1, k) == Some(merge_insert(opt_get(m, k), v)));
    if m.contains_key(k) {
        assert(apply_op(m1, delete, k, v) =~= m);
    } else {
        assert(apply_op(m1, delete, k, v) =~= m);
    }
}

/// A batch of inserts only, with a mask that shows every row.
pub open spec fn all_inserts(n: nat) -> Seq<Op> {
    Seq::new(n, |i: int| Op::Insert)
}

/// The first `n` keys are pairwise distinct.
pub open spec fn distinct_keys(keys: Seq<Seq<u8>>, n: nat) -> bool {
    forall|i: int, j: int| 0 <= i < j < n ==> keys[i] != keys[j]
}

/// The pending changes after inserting the first `n` rows, distinct keys,
/// stated without an order.
pub open spec fn inserted(m: Map<Seq<u8>, StatusView>, keys: Seq<Seq<u8>>, vals: Seq<Seq<char>>, n: nat) -> Map<Seq<u8>, StatusView> {
    Map::new(
        |k: Seq<u8>| m.contains_key(k) || exists|i: int| 0 <= i < n && #[trigger] keys[i] == k,
        |k: Seq<u8>|
            if exists|i: int| 0 <= i < n && #[trigger] keys[i] == k {
                merge_insert(opt_get(m, k), vals[choose|i: int| 0 <= i < n && #[trigger] keys[i] == k])
            } else {
                m[k]
            },
    )
}

proof fn lemma_inserts_closed(m: Map<Seq<u8>, StatusView>, keys: Seq<Seq<u8>>, vals: Seq<Seq<char>>, n: nat)
    requires
        n <= keys.len(),
        n <= vals.len(),
        distinct_keys(keys, n),
    ensures
        apply_rows(m, all_inserts(n), None, keys, vals, n) == inserted(m, keys, vals, n),
    decreases n,
{
    if n == 0 {
        assert(inserted(m, keys, vals, 0) =~= m);
    } else {
        let p = (n - 1) as nat;
        lemma_rows_prefix(m, all_inserts(n), all_inserts(p), keys, vals, p);
        lemma_inserts_closed(m, keys, vals, p);
        let prev = inserted(m, keys, vals, p);
        let kn = keys[n - 1];
        assert(all_inserts(n)[n - 1] == Op::Insert);
        assert(!exists|i: int| 0 <= i < p && #[trigger] keys[i] == kn);
        assert(opt_get(prev, kn) == opt_get(m, kn));
        let lhs = apply_op(prev, Op::Insert, kn, vals[n - 1]);
        let rhs = inserted(m, keys, vals, n);
        assert forall|k: Seq<u8>| #[trigger] lhs.contains_key(k) <==> rhs.contains_key(k) by {
            if exists|i: int| 0 <= i < n && #[trigger] keys[i] == k {
                let i = choose|i: int| 0 <= i < n && #[trigger] keys[i] == k;
                if i < p {
                    assert(exists|i: int| 0 <= i < p && #[trigger] keys[i] == k);
                }
            }
            if exists|i: int| 0 <= i < p && #[trigger] keys[i] == k {
                let i = choose|i: int| 0 <= i < p && #[trigger] keys[i] == k;
                assert(exists|i: int| 0 <= i < n && #[trigger] keys[i] == k);
            }
        }
        assert forall|k: Seq<u8>| #[trigger] lhs.contains_key(k) implies lhs[k] == rhs[k] by {
            if k == kn {
                let i = choose|i: int| 0 <= i < n && #[trigger] keys[i] == k;
                assert(keys[n - 1] == k);
                assert(i == n - 1);
            } else if exists|i: int| 0 <= i < p && #[trigger] keys[i] == k {
                let i = choose|i: int| 0 <= i < p && #[trigger] keys[i] == k;
                assert(exists|i: int| 0 <= i < n && #[trigger] keys[i] == k);
                let j = choose|j: int| 0 <= j < n && #[trigger] keys[j] == k;
                assert(i == j);
            } else {
                assert(!exists|i: int| 0 <= i < n && #[trigger] keys[i] == k) by {
                    if exists|i: int| 0 <= i < n && #[trigger] keys[i] == k {
                        let i = choose|i: int| 0 <= i < n && #[trigger] keys[i] == k;
                        assert(i < p);
                    }
                }
            }
        }
        assert(lhs =~= rhs);
    }
}

/// Only the first `n` rows count.
proof fn lemma_rows_prefix(
    m: Map<Seq<u8>, StatusView>,
    ops1: Seq<Op>,
    ops2: Seq<Op>,
    keys: Seq<Seq<u8>>,
    vals: Seq<Seq<char>>,
    n: nat,
)
    requires
        n <= ops1.len(),
        n <= ops2.len(),
        forall|i: int| 0 <= i < n ==> ops1[i] == ops2[i],
    ensures
        apply_rows(m, ops1, None, keys, vals, n) == apply_rows(m, ops2, None, keys, vals, n),
    decreases n,
{
    if n > 0 {
        lemma_rows_prefix(m, ops1, ops2, keys, vals, (n - 1) as nat);
    }
}

/// Inserting rows with distinct sort keys gives the same pending changes in
/// any order: `perm` rearranges the first batch into the second. With
/// the output a function of the pending changes (`lemma_output_determined`),
/// the output is the same too.
pub proof fn lemma_insert_order_independent(
    m: Map<Seq<u8>, StatusView>,
    keys1: Seq<Seq<u8>>,
    vals1: Seq<Seq<char>>,
    keys2: Seq<Seq<u8>>,
    vals2: Seq<Seq<char>>,
    perm: Seq<int>,
)
    requires
        keys1.len() == vals1.len() == keys2.len() == vals2.len() == perm.len(),
        distinct_keys(keys1, keys1.len()),
        forall|i: int| 0 <= i < perm.len() ==> 0 <= #[trigger] perm[i] < perm.len(),
        forall|i: int, j: int| 0 <= i < j < perm.len() ==> perm[i] != perm[j],
        forall|j: int| 0 <= j < perm.len() ==> #[trigger] perm.contains(j),
        forall|i: int|
            0 <= i < perm.len() ==> keys2[i] == keys1[#[trigger] perm[i]] && vals2[i] == vals1[perm[i]],
    ensures
        apply_rows(m, all_inserts(keys1.len()), None, keys1, vals1, keys1.len()) == apply_rows(
            m,
            all_inserts(keys1.len()),
            None,
            keys2,
            vals2,
            keys1.len(),
        ),
{
    let n = keys1.len();
    assert(distinct_keys(keys2, n)) by {
        assert forall|i: int, j: int| 0 <= i < j < n implies keys2[i] != keys2[j] by {
            let a = perm[i];
            let b = perm[j];
            if a < b {
            } else {
                assert(b < a);
            }
        }
    }
    lemma_inserts_closed(m, keys1, vals1, n);
    lemma_inserts_closed(m, keys2, vals2, n);
    let a = inserted(m, keys1, vals1, n);
    let b = inserted(m, keys2, vals2, n);
    assert forall|k: Seq<u8>| #[trigger] a.contains_key(k) <==> b.contains_key(k) by {
        if exists|i: int| 0 <= i < n && #[trigger] keys1[i] == k {
            let j = choose|i: int| 0 <= i < n && #[trigger] keys1[i] == k;
            assert(perm.contains(j));
            let i = choose|i: int| 0 <= i < perm.len() && #[trigger] perm[i] == j;
            assert(keys2[i] == k);
        }
        if exists|i: int| 0 <= i < n && #[trigger] keys2[i] == k {
            let i = choose|i: int| 0 <= i < n && #[trigger] keys2[i] == k;
            assert(keys1[perm[i]] == k);
        }
    }
    assert forall|k: Seq<u8>| #[trigger] a.contains_key(k) implies a[k] == b[k] by {
        if exists|i: int| 0 <= i < n && #[trigger] keys2[i] == k {
            let i = choose|i: int| 0 <= i < n && #[trigger] keys2[i] == k;
            assert(keys1[perm[i]] == k);
        }
        if exists|i: int| 0 <= i < n && #[trigger] keys1[i] == k {
            assert(perm.contains(choose|i: int| 0 <= i < n && #[trigger] keys1[i] == k));
            let j = choose|i: int| 0 <= i < n && #[trigger] keys1[i] == k;
            let i = choose|i: int| 0 <= i < n && #[trigger] keys2[i] == k;
            assert(keys1[perm[i]] == k);
            if perm[i] < j {
            } else if j < perm[i] {
            }
            assert(vals2[i] == vals1[j]);
        }
    }
    assert(a =~= b);
}

/// Applying two batches one after the other is applying their rows in one
/// batch.
pub proof fn lemma_batches_compose(
    m: Map<Seq<u8>, StatusView>,
    ops1: Seq<Op>,
    keys1: Seq<Seq<u8>>,
    vals1: Seq<Seq<char>>,
    ops2: Seq<Op>,
    keys2: Seq<Seq<u8>>,
    vals2: Seq<Seq<char>>,
)
    requires
        ops1.len() == keys1.len() == vals1.len(),
        ops2.len() == keys2.len() == vals2.len(),
    ensures
        apply_rows(apply_rows(m, ops1, None, keys1, vals1, ops1.len()), ops2, None, keys2, vals2, ops2.len())
            == apply_rows(m, ops1 + ops2, None, keys1 + keys2, vals1 + vals2, ops1.len() + ops2.len()),
    decreases ops2.len(),
{
    let n1 = ops1.len();
    if ops2.len() == 0 {
        assert(ops1 + ops2 =~= ops1);
        assert(keys1 + keys2 =~= keys1);
        assert(vals1 + vals2 =~= vals1);
    } else {
        let o = ops2.drop_last();
        let k = keys2.drop_last();
        let v = vals2.drop_last();
        lemma_batches_compose(m, ops1, keys1, vals1, o, k, v);
        let first = apply_rows(m, ops1, None, keys1, vals1, n1);
        lemma_rows_same_prefix(first, ops2, o, keys2, k, vals2, v, o.len());
        lemma_rows_same_prefix(
            m,
            ops1 + ops2,
            ops1 + o,
            keys1 + keys2,
            keys1 + k,
            vals1 + vals2,
            vals1 + v,
            n1 + o.len(),
        );
    }
}

/// Only the first `n` rows count, with keys and values too.
proof fn lemma_rows_same_prefix(
    m: Map<Seq<u8>, StatusView>,
    ops1: Seq<Op>,
    ops2: Seq<Op>,
    keys1: Seq<Seq<u8>>,
    keys2: Seq<Seq<u8>>,
    vals1: Seq<Seq<char>>,
    vals2: Seq<Seq<char>>,
    n: nat,
)
    requires
        n <= ops1.len(),
        n <= ops2.len(),
        n <= keys1.len(),
        n <= keys2.len(),
        n <= vals1.len(),
        n <= vals2.len(),
        forall|i: int| 0 <= i < n ==> ops1[i] == ops2[i] && keys1[i] == keys2[i] && vals1[i] == vals2[i],
    ensures
        apply_rows(m, ops1, None, keys1, vals1, n) == apply_rows(m, ops2, None, keys2, vals2, n),
    decreases n,
{
    if n > 0 {
        lemma_rows_same_prefix(m, ops1, ops2, keys1, keys2, vals1, vals2, (n - 1) as nat);
    }
}

/// The keyspace after the flush of a sorted cache: a key of the cache holds
/// the encoding of its present value, or nothing; any other key is as it was.
pub open spec fn after_flush(lv: Map<Seq<u8>, Seq<u8>>, c: Seq<(Vec<u8>, FlushStatus)>) -> Map<Seq<u8>, Seq<u8>> {
    Map::new(
        |k: Seq<u8>|
            if has_key(c, k) {
                present_value(key_map(c)[k]@) is Some
            } else {
                lv.contains_key(k)
            },
        |k: Seq<u8>|
            if has_key(c, k) {
                memcmp_str_of(present_value(key_map(c)[k]@)->0, false)
            } else {
                lv[k]
            },
    )
}

proof fn lemma_local_write(m: Map<Seq<u8>, Seq<u8>>, p: Seq<u8>, kl: Seq<u8>, o: Option<Seq<u8>>)
    ensures
        local_view(apply_write(m, (p + kl, o)), p) == apply_write(local_view(m, p), (kl, o)),
{
    assert forall|q: Seq<u8>| #[trigger] (p + q) == p + kl <==> q == kl by {
        if p + q == p + kl {
            assert(q =~= (p + q).skip(p.len() as int));
            assert(kl =~= (p + kl).skip(p.len() as int));
        }
    }
    assert(local_view(apply_write(m, (p + kl, o)), p) =~= apply_write(local_view(m, p), (kl, o)));
}

proof fn lemma_flush_local(st: Map<Seq<u8>, Seq<u8>>, p: Seq<u8>, c: Seq<(Vec<u8>, FlushStatus)>)
    requires
        keys_sorted(c),
    ensures
        local_view(apply_writes(st, flush_writes(p, c)), p) == after_flush(local_view(st, p), c),
    decreases c.len(),
{
    let lv = local_view(st, p);
    if c.len() == 0 {
        assert(flush_writes(p, c) =~= Seq::<(Seq<u8>, Option<Seq<u8>>)>::empty());
        assert(after_flush(lv, c) =~= lv);
    } else {
        let d = c.drop_last();
        lemma_drop_last_map(c);
        lemma_flush_local(st, p, d);
        assert(flush_writes(p, c).drop_last() =~= flush_writes(p, d));
        let w = flush_write(p, c.last());
        assert(flush_writes(p, c).last() == w);
        let kl = c.last().0@;
        lemma_local_write(apply_writes(st, flush_writes(p, d)), p, kl, w.1);
        lemma_key_map_at(c, c.len() - 1);
        assert(has_key(c, kl));
        let lhs = apply_write(after_flush(lv, d), (kl, w.1));
        assert forall|k: Seq<u8>| k != kl && has_key(c, k) implies #[trigger] key_map(c)[k]
            == key_map(d)[k] by {
            assert(key_map(d).contains_key(k) == has_key(d, k));
        }
        assert(lhs =~= after_flush(lv, c));
    }
}

/// Flushing a resident cache, applying the writes to the store, and loading
/// a fresh cache from it gives back the output of before: a state rebuilt
/// after the flush, with the same row count, outputs what the old one did.
/// Resident: every key of the keyspace is a key of the cache, as after a load.
pub proof fn lemma_flush_then_recover(
    c: Seq<(Vec<u8>, FlushStatus)>,
    st: Map<Seq<u8>, Seq<u8>>,
    prefix: Seq<u8>,
    c2: Seq<(Vec<u8>, FlushStatus)>,
)
    requires
        keys_sorted(c),
        forall|k: Seq<u8>| #[trigger] local_view(st, prefix).contains_key(k) ==> has_key(c, k),
        loaded_from(c2, local_view(apply_writes(st, flush_writes(prefix, c)), prefix)),
    ensures
        present_values(c2) == present_values(c),
{
    lemma_flush_local(st, prefix, c);
    let lv = local_view(st, prefix);
    let t = after_flush(lv, c);
    assert forall|k: Seq<u8>| #[trigger] present_map(c2).contains_key(k) <==> present_map(c).contains_key(k) by {
        if has_key(c2, k) {
            let i = key_index(c2, k);
            lemma_key_map_at(c2, i);
        }
    }
    assert forall|k: Seq<u8>| #[trigger] present_map(c2).contains_key(k) implies present_map(c2)[k]
        == present_map(c)[k] by {
        let i = key_index(c2, k);
        lemma_key_map_at(c2, i);
        let v = present_value(key_map(c)[k]@)->0;
        assert(t[k] == memcmp_str_of(v, false));
        assert(decoded_as(t[c2[i].0@], present_value(c2[i].1@)->0));
    }
    assert(present_map(c2) =~= present_map(c));
    lemma_present_unique(c2, c);
}

/// Two loads of the same keyspace give the same output: a state rebuilt without a flush outputs what storage held, not
/// what the lost state held in memory.
pub proof fn lemma_reload_deterministic(
    c1: Seq<(Vec<u8>, FlushStatus)>,
    c2: Seq<(Vec<u8>, FlushStatus)>,
    lv: Map<Seq<u8>, Seq<u8>>,
)
    requires
        loaded_from(c1, lv),
        loaded_from(c2, lv),
    ensures
        present_values(c1) == present_values(c2),
{
    assert forall|k: Seq<u8>| #[trigger] present_map(c1).contains_key(k) <==> present_map(c2).contains_key(k) by {
        if has_key(c1, k) {
            lemma_key_map_at(c1, key_index(c1, k));
        }
        if has_key(c2, k) {
            lemma_key_map_at(c2, key_index(c2, k));
        }
    }
    assert forall|k: Seq<u8>| #[trigger] present_map(c1).contains_key(k) implies present_map(c1)[k]
        == present_map(c2)[k] by {
        let i = key_index(c1, k);
        let j = key_index(c2, k);
        lemma_key_map_at(c1, i);
        lemma_key_map_at(c2, j);
        assert(lv.contains_key(k));
    }
    assert(present_map(c1) =~= present_map(c2));
    lemma_present_unique(c1, c2);
}

/// Two resident states with the same delimiter and the same pending changes
/// join the same values, which is what `get_output` returns while the row
/// count is positive, and make the same `flush` writes: what a
/// sequence of batches leaves behind matters, not how its rows arrived.
/// So rows inserted in any order or split into any batches
/// (`lemma_insert_order_independent`, `lemma_batches_compose`), and a row
/// inserted then deleted before a flush (`lemma_insert_then_delete_cancels`),
/// change neither the output nor the write batch.
pub proof fn lemma_states_agree(s1: &ManagedStringAggState, s2: &ManagedStringAggState)
    requires
        s1.wf(),
        s2.wf(),
        s1.resident(),
        s2.resident(),
        s1.delimiter_view() == s2.delimiter_view(),
        s1.prefix() == s2.prefix(),
        pending_map(s1.cache_view()) == pending_map(s2.cache_view()),
    ensures
        join(s1.contents(), s1.delimiter_view()) == join(s2.contents(), s2.delimiter_view()),
        flush_writes(s1.prefix(), s1.cache_view()) == flush_writes(s2.prefix(), s2.cache_view()),
{
    s1.lemma_cache_facts();
    s2.lemma_cache_facts();
    lemma_output_determined(s1.cache_view(), s2.cache_view(), s1.delimiter_view());
    lemma_flush_determined(s1.cache_view(), s2.cache_view(), s1.prefix());
}
} // verus!
