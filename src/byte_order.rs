//! Lexicographic order on byte strings, and ordered association vectors
//! keyed by byte strings.
use vstd::prelude::*;

verus! {

/// `a` sorts strictly before `b` in byte-lexicographic order.
pub open spec fn lex_lt(a: Seq<u8>, b: Seq<u8>) -> bool
    decreases a.len(),
{
    if a.len() == 0 {
        b.len() > 0
    } else if b.len() == 0 {
        false
    } else if a[0] != b[0] {
        a[0] < b[0]
    } else {
        lex_lt(a.drop_first(), b.drop_first())
    }
}

pub proof fn lemma_lex_irreflexive(a: Seq<u8>)
    ensures
        !lex_lt(a, a),
    decreases a.len(),
{
    if a.len() > 0 {
        lemma_lex_irreflexive(a.drop_first());
    }
}

pub proof fn lemma_lex_total(a: Seq<u8>, b: Seq<u8>)
    ensures
        a != b ==> (lex_lt(a, b) || lex_lt(b, a)),
        !(lex_lt(a, b) && lex_lt(b, a)),
    decreases a.len(),
{
    if a.len() == 0 || b.len() == 0 {
        if a.len() == 0 && b.len() == 0 {
            assert(a =~= b);
        }
    } else if a[0] == b[0] {
        let ta = a.drop_first();
        let tb = b.drop_first();
        lemma_lex_total(ta, tb);
        if ta == tb {
            assert forall|i: int| 0 <= i < a.len() implies a[i] == b[i] by {
                if i > 0 {
                    assert(a[i] == ta[i - 1]);
                    assert(b[i] == tb[i - 1]);
                }
            }
            assert(a =~= b);
        }
    }
}

pub proof fn lemma_lex_transitive(a: Seq<u8>, b: Seq<u8>, c: Seq<u8>)
    requires
        lex_lt(a, b),
        lex_lt(b, c),
    ensures
        lex_lt(a, c),
    decreases a.len(),
{
    if a.len() > 0 && b.len() > 0 && c.len() > 0 && a[0] == b[0] && b[0] == c[0] {
        lemma_lex_transitive(a.drop_first(), b.drop_first(), c.drop_first());
    }
}

/// Compares two byte strings: negative, zero or positive as `a` sorts
/// before, equal to or after `b`.
pub fn compare_bytes(a: &[u8], b: &[u8]) -> (r: i8)
    ensures
        r < 0 <==> lex_lt(a@, b@),
        r == 0 <==> a@ == b@,
        r > 0 <==> lex_lt(b@, a@),
{
    let mut i: usize = 0;
    proof {
        assert(a@.skip(0) =~= a@);
        assert(b@.skip(0) =~= b@);
    }
    while i < a.len() && i < b.len()
        invariant
            i <= a@.len(),
            i <= b@.len(),
            a@.subrange(0, i as int) == b@.subrange(0, i as int),
            lex_lt(a@, b@) == lex_lt(a@.skip(i as int), b@.skip(i as int)),
            lex_lt(b@, a@) == lex_lt(b@.skip(i as int), a@.skip(i as int)),
        decreases a@.len() - i,
    {
        if a[i] != b[i] {
            proof {
                lemma_lex_total(a@, b@);
                if a@ == b@ {
                    assert(a@[i as int] == b@[i as int]);
                }
            }
            if a[i] < b[i] {
                return -1;
            } else {
                return 1;
            }
        }
        proof {
            assert(a@.skip(i as int).drop_first() =~= a@.skip(i + 1));
            assert(b@.skip(i as int).drop_first() =~= b@.skip(i + 1));
            assert(a@.subrange(0, i + 1) =~= a@.subrange(0, i as int).push(a@[i as int]));
            assert(b@.subrange(0, i + 1) =~= b@.subrange(0, i as int).push(b@[i as int]));
        }
        i = i + 1;
    }
    proof {
        lemma_lex_total(a@, b@);
        lemma_lex_irreflexive(a@);
    }
    if a.len() == b.len() {
        proof {
            assert(a@ =~= a@.subrange(0, i as int));
            assert(b@ =~= b@.subrange(0, i as int));
        }
        0
    } else if i == a.len() {
        proof {
            assert(a@.skip(i as int).len() == 0);
            if a@ == b@ {
                assert(a@.len() == b@.len());
            }
        }
        -1
    } else {
        proof {
            assert(b@.skip(i as int).len() == 0);
            if a@ == b@ {
                assert(a@.len() == b@.len());
            }
        }
        1
    }
}

/// Entries whose keys strictly increase.
pub open spec fn keys_sorted<V>(s: Seq<(Vec<u8>, V)>) -> bool {
    forall|i: int, j: int| 0 <= i < j < s.len() ==> lex_lt(#[trigger] s[i].0@, #[trigger] s[j].0@)
}

/// Some entry of `s` has key `k`.
pub open spec fn has_key<V>(s: Seq<(Vec<u8>, V)>, k: Seq<u8>) -> bool {
    exists|i: int| 0 <= i < s.len() && #[trigger] s[i].0@ == k
}

/// The map from key to value that the entries hold.
pub open spec fn key_map<V>(s: Seq<(Vec<u8>, V)>) -> Map<Seq<u8>, V> {
    Map::new(
        |k: Seq<u8>| has_key(s, k),
        |k: Seq<u8>| s[key_index(s, k)].1,
    )
}

/// The position of an entry with key `k`, where there is one.
pub open spec fn key_index<V>(s: Seq<(Vec<u8>, V)>, k: Seq<u8>) -> int {
    choose|i: int| 0 <= i < s.len() && #[trigger] s[i].0@ == k
}

pub proof fn lemma_sorted_keys_distinct<V>(s: Seq<(Vec<u8>, V)>, i: int, j: int)
    requires
        keys_sorted(s),
        0 <= i < s.len(),
        0 <= j < s.len(),
        s[i].0@ == s[j].0@,
    ensures
        i == j,
{
    if i < j {
        lemma_lex_irreflexive(s[i].0@);
    } else if j < i {
        lemma_lex_irreflexive(s[i].0@);
    }
}

/// In sorted entries, the map holds each entry's key with that entry's value.
pub proof fn lemma_key_map_at<V>(s: Seq<(Vec<u8>, V)>, i: int)
    requires
        keys_sorted(s),
        0 <= i < s.len(),
    ensures
        key_map(s).contains_key(s[i].0@),
        key_map(s)[s[i].0@] == s[i].1,
{
    let k = s[i].0@;
    assert(has_key(s, k));
    let j = key_index(s, k);
    lemma_sorted_keys_distinct(s, i, j);
    assert(key_map(s)[k] == s[j].1);
}

pub proof fn lemma_key_map_all<V>(s: Seq<(Vec<u8>, V)>)
    requires
        keys_sorted(s),
    ensures
        forall|i: int|
            0 <= i < s.len() ==> key_map(s).contains_key(#[trigger] s[i].0@) && key_map(s)[s[i].0@]
                == s[i].1,
{
    assert forall|i: int| 0 <= i < s.len() implies key_map(s).contains_key(#[trigger] s[i].0@)
        && key_map(s)[s[i].0@] == s[i].1 by {
        lemma_key_map_at(s, i);
    }
}

pub proof fn lemma_insert_at<V>(s: Seq<(Vec<u8>, V)>, idx: int, k: Vec<u8>, v: V)
    requires
        keys_sorted(s),
        0 <= idx <= s.len(),
        forall|i: int| 0 <= i < idx ==> lex_lt(#[trigger] s[i].0@, k@),
        forall|i: int| idx <= i < s.len() ==> lex_lt(k@, #[trigger] s[i].0@),
    ensures
        keys_sorted(s.insert(idx, (k, v))),
        key_map(s.insert(idx, (k, v))) =~= key_map(s).insert(k@, v),
{
    let t = s.insert(idx, (k, v));
    assert forall|i: int, j: int| 0 <= i < j < t.len() implies lex_lt(
        #[trigger] t[i].0@,
        #[trigger] t[j].0@,
    ) by {
        if j < idx {
        } else if j == idx {
        } else if i < idx {
            lemma_lex_transitive(s[i].0@, k@, s[j - 1].0@);
        } else if i == idx {
        } else {
        }
    }
    lemma_key_map_all(s);
    lemma_key_map_all(t);
    assert forall|q: Seq<u8>| #[trigger] has_key(t, q) <==> (has_key(s, q) || q == k@) by {
        if has_key(t, q) {
            let j = key_index(t, q);
            if j < idx {
                assert(s[j].0@ == q);
            } else if j > idx {
                assert(s[j - 1].0@ == q);
            }
        }
        if has_key(s, q) {
            let j = key_index(s, q);
            if j < idx {
                assert(t[j].0@ == q);
            } else {
                assert(t[j + 1].0@ == q);
            }
        }
        if q == k@ {
            assert(t[idx].0@ == q);
        }
    }
    assert forall|q: Seq<u8>| #[trigger] key_map(t).contains_key(q) implies key_map(t)[q]
        == key_map(s).insert(k@, v)[q] by {
        assert(has_key(t, q));
        let j = key_index(t, q);
        assert(t[j].0@ == q);
        lemma_key_map_at(t, j);
        assert(key_map(t)[q] == t[j].1);
        lemma_lex_irreflexive(k@);
        if j < idx {
            lemma_key_map_at(s, j);
            assert(t[j] == s[j]);
            assert(q != k@);
        } else if j > idx {
            lemma_key_map_at(s, j - 1);
            assert(t[j] == s[j - 1]);
            assert(q != k@);
        } else {
            assert(q == k@);
        }
    }
}

pub proof fn lemma_update_at<V>(s: Seq<(Vec<u8>, V)>, idx: int, k: Vec<u8>, v: V)
    requires
        keys_sorted(s),
        0 <= idx < s.len(),
        k@ == s[idx].0@,
    ensures
        keys_sorted(s.update(idx, (k, v))),
        key_map(s.update(idx, (k, v))) =~= key_map(s).insert(k@, v),
{
    let t = s.update(idx, (k, v));
    assert forall|i: int, j: int| 0 <= i < j < t.len() implies lex_lt(
        #[trigger] t[i].0@,
        #[trigger] t[j].0@,
    ) by {
        assert(s[i].0@ == t[i].0@);
        assert(s[j].0@ == t[j].0@);
    }
    lemma_key_map_all(s);
    lemma_key_map_all(t);
    assert forall|q: Seq<u8>| #[trigger] has_key(t, q) <==> has_key(s, q) by {
        if has_key(t, q) {
            let j = key_index(t, q);
            assert(s[j].0@ == q);
        }
        if has_key(s, q) {
            let j = key_index(s, q);
            assert(t[j].0@ == q);
        }
    }
    assert forall|q: Seq<u8>| #[trigger] key_map(t).contains_key(q) implies key_map(t)[q]
        == key_map(s).insert(k@, v)[q] by {
        assert(has_key(t, q));
        let j = key_index(t, q);
        assert(t[j].0@ == q);
        lemma_key_map_at(t, j);
        lemma_key_map_at(s, j);
        if q == k@ {
            assert(t[idx].0@ == q);
            lemma_sorted_keys_distinct(t, j, idx);
        }
    }
}

pub proof fn lemma_remove_at<V>(s: Seq<(Vec<u8>, V)>, idx: int)
    requires
        keys_sorted(s),
        0 <= idx < s.len(),
    ensures
        keys_sorted(s.remove(idx)),
        key_map(s.remove(idx)) =~= key_map(s).remove(s[idx].0@),
{
    let t = s.remove(idx);
    let k = s[idx].0@;
    assert forall|i: int, j: int| 0 <= i < j < t.len() implies lex_lt(
        #[trigger] t[i].0@,
        #[trigger] t[j].0@,
    ) by {
        if j < idx {
        } else if i < idx {
            assert(t[j] == s[j + 1]);
        } else {
            assert(t[i] == s[i + 1]);
            assert(t[j] == s[j + 1]);
        }
    }
    lemma_key_map_all(s);
    lemma_key_map_all(t);
    assert forall|q: Seq<u8>| #[trigger] has_key(t, q) <==> (has_key(s, q) && q != k) by {
        if has_key(t, q) {
            let j = key_index(t, q);
            if j < idx {
                assert(s[j].0@ == q);
                if q == k {
                    lemma_sorted_keys_distinct(s, j, idx);
                }
            } else {
                assert(s[j + 1].0@ == q);
                if q == k {
                    lemma_sorted_keys_distinct(s, j + 1, idx);
                }
            }
        }
        if has_key(s, q) && q != k {
            let j = key_index(s, q);
            if j < idx {
                assert(t[j].0@ == q);
            } else {
                assert(t[j - 1].0@ == q);
            }
        }
    }
    assert forall|q: Seq<u8>| #[trigger] key_map(t).contains_key(q) implies key_map(t)[q]
        == key_map(s).remove(k)[q] by {
        let j = key_index(t, q);
        if j < idx {
            assert(s[j].0@ == q);
        } else {
            assert(s[j + 1].0@ == q);
        }
    }
}

/// Finds where `key` stands or would stand among sorted entries.
pub fn find_slot<V>(s: &Vec<(Vec<u8>, V)>, key: &[u8]) -> (r: (usize, bool))
    requires
        keys_sorted(s@),
    ensures
        r.0 <= s@.len(),
        forall|i: int| 0 <= i < r.0 ==> lex_lt(#[trigger] s@[i].0@, key@),
        r.0 < s@.len() ==> !lex_lt(s@[r.0 as int].0@, key@),
        r.1 <==> (r.0 < s@.len() && s@[r.0 as int].0@ == key@),
        !r.1 ==> forall|i: int| r.0 <= i < s@.len() ==> lex_lt(key@, #[trigger] s@[i].0@),
        r.1 <==> has_key(s@, key@),
{
    let mut i: usize = 0;
    while i < s.len()
        invariant
            i <= s@.len(),
            keys_sorted(s@),
            forall|j: int| 0 <= j < i ==> lex_lt(#[trigger] s@[j].0@, key@),
        decreases s@.len() - i,
    {
        let c = compare_bytes(s[i].0.as_slice(), key);
        if c >= 0 {
            proof {
                if c != 0 {
                    assert forall|j: int| i <= j < s@.len() implies lex_lt(key@, #[trigger] s@[j].0@) by {
                        if j > i {
                            lemma_lex_transitive(key@, s@[i as int].0@, s@[j].0@);
                        }
                    }
                    if has_key(s@, key@) {
                        let j = key_index(s@, key@);
                        lemma_lex_irreflexive(key@);
                    }
                }
            }
            return (i, c == 0);
        }
        i = i + 1;
    }
    proof {
        if has_key(s@, key@) {
            let j = key_index(s@, key@);
            lemma_lex_irreflexive(key@);
        }
    }
    (i, false)
}

} // verus!
