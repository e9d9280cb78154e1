//! Column data of a batch, and the ordered key encoder that turns the sort
//! columns of a row into a byte string whose order is the row order.
//!
//! Nulls: a null datum encodes as the single byte 0 and a present one as 1
//! followed by its value, all complemented in a descending column; so nulls
//! come first in an ascending column and last in a descending one.
use vstd::prelude::*;
use crate::byte_order::lex_lt;
use crate::memcmp::{encode_bool, encode_i64, encode_str, memcmp_str_of, i64_key_bytes, bool_key_bytes};

verus! {

/// Direction of one sort column.
#[derive(Clone, Copy, Debug, PartialEq, Eq, Structural)]
pub enum OrderType {
    Ascending,
    Descending,
}

/// One column of a batch: one optional value per row.
#[derive(Clone, Debug)]
pub enum ArrayImpl {
    Int64(Vec<Option<i64>>),
    Bool(Vec<Option<bool>>),
    Utf8(Vec<Option<String>>),
}

impl ArrayImpl {
    pub open spec fn spec_len(&self) -> nat {
        match self {
            ArrayImpl::Int64(v) => v@.len(),
            ArrayImpl::Bool(v) => v@.len(),
            ArrayImpl::Utf8(v) => v@.len(),
        }
    }

    /// Number of rows.
    pub fn len(&self) -> (r: usize)
        ensures
            r == self.spec_len(),
    {
        match self {
            ArrayImpl::Int64(v) => v.len(),
            ArrayImpl::Bool(v) => v.len(),
            ArrayImpl::Utf8(v) => v.len(),
        }
    }
}

/// The tag byte before a datum: 0 for null, 1 for a value, complemented in
/// a descending column.
pub open spec fn null_tag(is_null: bool, desc: bool) -> u8 {
    if is_null {
        if desc { 255u8 } else { 0u8 }
    } else {
        if desc { 254u8 } else { 1u8 }
    }
}

/// The key bytes of the datum at `row` of `col`.
pub open spec fn datum_key(col: ArrayImpl, row: int, desc: bool) -> Seq<u8> {
    match col {
        ArrayImpl::Int64(v) => match v@[row] {
            None => seq![null_tag(true, desc)],
            Some(x) => seq![null_tag(false, desc)] + i64_key_bytes(x, desc),
        },
        ArrayImpl::Bool(v) => match v@[row] {
            None => seq![null_tag(true, desc)],
            Some(x) => seq![null_tag(false, desc)] + bool_key_bytes(x, desc),
        },
        ArrayImpl::Utf8(v) => match v@[row] {
            None => seq![null_tag(true, desc)],
            Some(x) => seq![null_tag(false, desc)] + memcmp_str_of(x@, desc),
        },
    }
}

/// The sort key of `row`: the key bytes of each sort column, in order.
pub open spec fn row_key(order_pairs: Seq<(OrderType, usize)>, data: Seq<ArrayImpl>, row: int) -> Seq<u8>
    decreases order_pairs.len(),
{
    if order_pairs.len() == 0 {
        Seq::empty()
    } else {
        let (o, idx) = order_pairs.last();
        row_key(order_pairs.drop_last(), data, row) + datum_key(
            data[idx as int],
            row,
            o == OrderType::Descending,
        )
    }
}

/// Every sort column of the pairs is a column of `data` with a value at `row`.
pub open spec fn columns_cover(order_pairs: Seq<(OrderType, usize)>, data: Seq<ArrayImpl>, row: int) -> bool {
    forall|j: int|
        0 <= j < order_pairs.len() ==> #[trigger] order_pairs[j].1 < data.len() && 0 <= row
            < data[order_pairs[j].1 as int].spec_len()
}

/// A null sorts before any value in an ascending column and after any
/// value in a descending one; `false` sorts before `true` ascending and
/// after it descending.
pub proof fn lemma_null_and_bool_order(x: Seq<u8>)
    ensures
        lex_lt(seq![null_tag(true, false)], seq![null_tag(false, false)] + x),
        lex_lt(seq![null_tag(false, true)] + x, seq![null_tag(true, true)]),
        lex_lt(bool_key_bytes(false, false), bool_key_bytes(true, false)),
        lex_lt(bool_key_bytes(true, true), bool_key_bytes(false, true)),
{
    assert((seq![null_tag(false, false)] + x)[0] == 1u8);
    assert((seq![null_tag(false, true)] + x)[0] == 254u8);
    assert(!1u8 == 254u8) by (bit_vector);
    assert(!0u8 == 255u8) by (bit_vector);
    assert(bool_key_bytes(true, true)[0] == 254u8);
    assert(bool_key_bytes(false, true)[0] == 255u8);
}

/// Byte strings of one length compare at their first difference.
proof fn lemma_first_difference(a: Seq<u8>, b: Seq<u8>, i: int)
    requires
        a.len() == b.len(),
        0 <= i < a.len(),
        forall|j: int| 0 <= j < i ==> a[j] == b[j],
        a[i] < b[i],
    ensures
        lex_lt(a, b),
    decreases i,
{
    if i > 0 {
        lemma_first_difference(a.drop_first(), b.drop_first(), i - 1);
        assert(a[0] == b[0]);
    }
}

/// The key bytes of two `i64` values compare as the values do, and the
/// other way round in a descending column.
pub proof fn lemma_i64_key_order(x: i64, y: i64)
    requires
        x < y,
    ensures
        lex_lt(i64_key_bytes(x, false), i64_key_bytes(y, false)),
        lex_lt(i64_key_bytes(y, true), i64_key_bytes(x, true)),
{
    let u = (x as u64) ^ 0x8000_0000_0000_0000u64;
    let w = (y as u64) ^ 0x8000_0000_0000_0000u64;
    assert(u < w) by (bit_vector)
        requires
            x < y,
            u == (x as u64) ^ 0x8000_0000_0000_0000u64,
            w == (y as u64) ^ 0x8000_0000_0000_0000u64,
    ;
    let a = i64_key_bytes(x, false);
    let b = i64_key_bytes(y, false);
    let ra = i64_key_bytes(x, true);
    let rb = i64_key_bytes(y, true);
    assert(a[0] == ((u >> 56u64) as u8) && b[0] == ((w >> 56u64) as u8));
    assert(ra[0] == !a[0] && rb[0] == !b[0]);
    assert(a[1] == ((u >> 48u64) as u8) && b[1] == ((w >> 48u64) as u8));
    assert(ra[1] == !a[1] && rb[1] == !b[1]);
    assert(a[2] == ((u >> 40u64) as u8) && b[2] == ((w >> 40u64) as u8));
    assert(ra[2] == !a[2] && rb[2] == !b[2]);
    assert(a[3] == ((u >> 32u64) as u8) && b[3] == ((w >> 32u64) as u8));
    assert(ra[3] == !a[3] && rb[3] == !b[3]);
    assert(a[4] == ((u >> 24u64) as u8) && b[4] == ((w >> 24u64) as u8));
    assert(ra[4] == !a[4] && rb[4] == !b[4]);
    assert(a[5] == ((u >> 16u64) as u8) && b[5] == ((w >> 16u64) as u8));
    assert(ra[5] == !a[5] && rb[5] == !b[5]);
    assert(a[6] == ((u >> 8u64) as u8) && b[6] == ((w >> 8u64) as u8));
    assert(ra[6] == !a[6] && rb[6] == !b[6]);
    assert(a[7] == ((u >> 0u64) as u8) && b[7] == ((w >> 0u64) as u8));
    assert(ra[7] == !a[7] && rb[7] == !b[7]);
    assert forall|i: int| 0 <= i < 8 implies (a[i] < b[i] ==> rb[i] < ra[i]) && (a[i] == b[i] ==> ra[i]
        == rb[i]) by {
        let p = a[i];
        let q = b[i];
        assert(p < q ==> !q < !p) by (bit_vector);
    }
    if ((u >> 56u64) as u8) != ((w >> 56u64) as u8) {
        assert(((u >> 56u64) as u8) < ((w >> 56u64) as u8)) by (bit_vector)
            requires
                u < w, ((u >> 56u64) as u8) != ((w >> 56u64) as u8),
        ;
        lemma_first_difference(a, b, 0);
        lemma_first_difference(rb, ra, 0);
    } else if ((u >> 48u64) as u8) != ((w >> 48u64) as u8) {
        assert(((u >> 48u64) as u8) < ((w >> 48u64) as u8)) by (bit_vector)
            requires
                u < w, ((u >> 56u64) as u8) == ((w >> 56u64) as u8), ((u >> 48u64) as u8) != ((w >> 48u64) as u8),
        ;
        lemma_first_difference(a, b, 1);
        lemma_first_difference(rb, ra, 1);
    } else if ((u >> 40u64) as u8) != ((w >> 40u64) as u8) {
        assert(((u >> 40u64) as u8) < ((w >> 40u64) as u8)) by (bit_vector)
            requires
                u < w, ((u >> 56u64) as u8) == ((w >> 56u64) as u8), ((u >> 48u64) as u8) == ((w >> 48u64) as u8), ((u >> 40u64) as u8) != ((w >> 40u64) as u8),
        ;
        lemma_first_difference(a, b, 2);
        lemma_first_difference(rb, ra, 2);
    } else if ((u >> 32u64) as u8) != ((w >> 32u64) as u8) {
        assert(((u >> 32u64) as u8) < ((w >> 32u64) as u8)) by (bit_vector)
            requires
                u < w, ((u >> 56u64) as u8) == ((w >> 56u64) as u8), ((u >> 48u64) as u8) == ((w >> 48u64) as u8), ((u >> 40u64) as u8) == ((w >> 40u64) as u8), ((u >> 32u64) as u8) != ((w >> 32u64) as u8),
        ;
        lemma_first_difference(a, b, 3);
        lemma_first_difference(rb, ra, 3);
    } else if ((u >> 24u64) as u8) != ((w >> 24u64) as u8) {
        assert(((u >> 24u64) as u8) < ((w >> 24u64) as u8)) by (bit_vector)
            requires
                u < w, ((u >> 56u64) as u8) == ((w >> 56u64) as u8), ((u >> 48u64) as u8) == ((w >> 48u64) as u8), ((u >> 40u64) as u8) == ((w >> 40u64) as u8), ((u >> 32u64) as u8) == ((w >> 32u64) as u8), ((u >> 24u64) as u8) != ((w >> 24u64) as u8),
        ;
        lemma_first_difference(a, b, 4);
        lemma_first_difference(rb, ra, 4);
    } else if ((u >> 16u64) as u8) != ((w >> 16u64) as u8) {
        assert(((u >> 16u64) as u8) < ((w >> 16u64) as u8)) by (bit_vector)
            requires
                u < w, ((u >> 56u64) as u8) == ((w >> 56u64) as u8), ((u >> 48u64) as u8) == ((w >> 48u64) as u8), ((u >> 40u64) as u8) == ((w >> 40u64) as u8), ((u >> 32u64) as u8) == ((w >> 32u64) as u8), ((u >> 24u64) as u8) == ((w >> 24u64) as u8), ((u >> 16u64) as u8) != ((w >> 16u64) as u8),
        ;
        lemma_first_difference(a, b, 5);
        lemma_first_difference(rb, ra, 5);
    } else if ((u >> 8u64) as u8) != ((w >> 8u64) as u8) {
        assert(((u >> 8u64) as u8) < ((w >> 8u64) as u8)) by (bit_vector)
            requires
                u < w, ((u >> 56u64) as u8) == ((w >> 56u64) as u8), ((u >> 48u64) as u8) == ((w >> 48u64) as u8), ((u >> 40u64) as u8) == ((w >> 40u64) as u8), ((u >> 32u64) as u8) == ((w >> 32u64) as u8), ((u >> 24u64) as u8) == ((w >> 24u64) as u8), ((u >> 16u64) as u8) == ((w >> 16u64) as u8), ((u >> 8u64) as u8) != ((w >> 8u64) as u8),
        ;
        lemma_first_difference(a, b, 6);
        lemma_first_difference(rb, ra, 6);
    } else if ((u >> 0u64) as u8) != ((w >> 0u64) as u8) {
        assert(((u >> 0u64) as u8) < ((w >> 0u64) as u8)) by (bit_vector)
            requires
                u < w, ((u >> 56u64) as u8) == ((w >> 56u64) as u8), ((u >> 48u64) as u8) == ((w >> 48u64) as u8), ((u >> 40u64) as u8) == ((w >> 40u64) as u8), ((u >> 32u64) as u8) == ((w >> 32u64) as u8), ((u >> 24u64) as u8) == ((w >> 24u64) as u8), ((u >> 16u64) as u8) == ((w >> 16u64) as u8), ((u >> 8u64) as u8) == ((w >> 8u64) as u8), ((u >> 0u64) as u8) != ((w >> 0u64) as u8),
        ;
        lemma_first_difference(a, b, 7);
        lemma_first_difference(rb, ra, 7);
    } else {
        assert(u == w) by (bit_vector)
            requires
                ((u >> 56u64) as u8) == ((w >> 56u64) as u8), ((u >> 48u64) as u8) == ((w >> 48u64) as u8), ((u >> 40u64) as u8) == ((w >> 40u64) as u8), ((u >> 32u64) as u8) == ((w >> 32u64) as u8), ((u >> 24u64) as u8) == ((w >> 24u64) as u8), ((u >> 16u64) as u8) == ((w >> 16u64) as u8), ((u >> 8u64) as u8) == ((w >> 8u64) as u8), ((u >> 0u64) as u8) == ((w >> 0u64) as u8),
        ;
    }
}

/// Encodes the datum at `row` of `col`.
pub fn serialize_datum(col: &ArrayImpl, row: usize, desc: bool) -> (r: Vec<u8>)
    requires
        row < col.spec_len(),
    ensures
        r@ == datum_key(*col, row as int, desc),
{
    let mut out: Vec<u8> = Vec::new();
    match col {
        ArrayImpl::Int64(v) => match v[row] {
            None => {
                out.push(if desc { 255u8 } else { 0u8 });
            },
            Some(x) => {
                out.push(if desc { 254u8 } else { 1u8 });
                let mut b = encode_i64(x, desc);
                out.append(&mut b);
            },
        },
        ArrayImpl::Bool(v) => match v[row] {
            None => {
                out.push(if desc { 255u8 } else { 0u8 });
            },
            Some(x) => {
                out.push(if desc { 254u8 } else { 1u8 });
                let mut b = encode_bool(x, desc);
                out.append(&mut b);
            },
        },
        ArrayImpl::Utf8(v) => match &v[row] {
            None => {
                out.push(if desc { 255u8 } else { 0u8 });
            },
            Some(x) => {
                out.push(if desc { 254u8 } else { 1u8 });
                let mut b = encode_str(x.as_str(), desc);
                out.append(&mut b);
            },
        },
    }
    proof {
        assert(out@ =~= datum_key(*col, row as int, desc));
    }
    out
}

/// Serializes the sort columns of each row of a batch into its sort key.
#[derive(Clone, Debug)]
pub struct OrderedArraysSerializer {
    pub order_pairs: Vec<(OrderType, usize)>,
}

impl OrderedArraysSerializer {
    /// A serializer over the given (direction, column index) pairs.
    pub fn new(order_pairs: Vec<(OrderType, usize)>) -> (r: Self)
        ensures
            r.order_pairs@ == order_pairs@,
    {
        OrderedArraysSerializer { order_pairs }
    }

    /// The sort key of one row.
    pub fn serialize_row(&self, data: &[ArrayImpl], row: usize) -> (r: Vec<u8>)
        requires
            columns_cover(self.order_pairs@, data@, row as int),
        ensures
            r@ == row_key(self.order_pairs@, data@, row as int),
    {
        let mut out: Vec<u8> = Vec::new();
        let mut j: usize = 0;
        while j < self.order_pairs.len()
            invariant
                j <= self.order_pairs@.len(),
                columns_cover(self.order_pairs@, data@, row as int),
                out@ == row_key(self.order_pairs@.subrange(0, j as int), data@, row as int),
            decreases self.order_pairs@.len() - j,
        {
            let (o, idx) = self.order_pairs[j];
            assert(self.order_pairs@[j as int].1 < data@.len());
            let mut b = serialize_datum(&data[idx], row, o == OrderType::Descending);
            out.append(&mut b);
            proof {
                let p = self.order_pairs@.subrange(0, j + 1);
                assert(p.drop_last() =~= self.order_pairs@.subrange(0, j as int));
            }
            j = j + 1;
        }
        proof {
            assert(self.order_pairs@.subrange(0, j as int) =~= self.order_pairs@);
        }
        out
    }

    /// The sort keys of the first `n_rows` rows, appended to `keys`.
    pub fn serialize(&self, data: &[ArrayImpl], n_rows: usize, keys: &mut Vec<Vec<u8>>)
        requires
            forall|row: int| 0 <= row < n_rows ==> columns_cover(self.order_pairs@, data@, row),
        ensures
            final(keys)@.len() == old(keys)@.len() + n_rows,
            forall|i: int| 0 <= i < old(keys)@.len() ==> final(keys)@[i] == old(keys)@[i],
            forall|row: int|
                0 <= row < n_rows ==> (#[trigger] final(keys)@[old(keys)@.len() + row])@ == row_key(
                    self.order_pairs@,
                    data@,
                    row,
                ),
    {
        let ghost start = keys@.len();
        let mut row: usize = 0;
        while row < n_rows
            invariant
                row <= n_rows,
                start == old(keys)@.len(),
                keys@.len() == start + row,
                forall|i: int| 0 <= i < start ==> keys@[i] == old(keys)@[i],
                forall|r: int| 0 <= r < n_rows ==> columns_cover(self.order_pairs@, data@, r),
                forall|r: int|
                    0 <= r < row ==> (#[trigger] keys@[start + r])@ == row_key(
                        self.order_pairs@,
                        data@,
                        r,
                    ),
            decreases n_rows - row,
        {
            let k = self.serialize_row(data, row);
            keys.push(k);
            proof {
                assert forall|r: int| 0 <= r < row + 1 implies (#[trigger] keys@[start + r])@
                    == row_key(self.order_pairs@, data@, r) by {
                    if r < row {
                    }
                }
            }
            row = row + 1;
        }
    }
}

} // verus!
