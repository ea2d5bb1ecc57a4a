//! Field elements as fixed-width records of bytes, the layout of every file the library
//! reads or writes.

use halo2curves::bn256::Fr;
use vstd::arithmetic::div_mod::*;
use vstd::arithmetic::mul::*;
use vstd::prelude::*;

use crate::field::{
    canonical, canonical_all, fr_parse_raw, fr_parse_repr, fr_raw, fr_repr, fr_to_raw, fr_to_repr,
    le_int, lemma_le_int_injective, modulus, val, vals, FR_SZ,
};
use crate::grid::lemma_cell;

verus! {

/// Record `i` of a byte string.
pub open spec fn record(b: Seq<u8>, i: int) -> Seq<u8> {
    b.subrange(i * FR_SZ, i * FR_SZ + FR_SZ)
}

/// `b` holds the raw bytes of the elements, one record each.
pub open spec fn is_raw_of(b: Seq<u8>, s: Seq<Fr>) -> bool {
    &&& b.len() == s.len() * FR_SZ
    &&& forall|i: int| 0 <= i < s.len() ==> record(b, i) == fr_raw(#[trigger] s[i])
}

/// `b` holds the canonical bytes of the elements, one record each.
pub open spec fn is_repr_of(b: Seq<u8>, s: Seq<Fr>) -> bool {
    &&& b.len() == s.len() * FR_SZ
    &&& forall|i: int| 0 <= i < s.len() ==> record(b, i) == fr_repr(#[trigger] s[i])
}

/// Appending a record leaves the earlier ones.
proof fn lemma_push_record(b: Seq<u8>, n: int, rec: Seq<u8>)
    requires
        0 <= n,
        b.len() == n * FR_SZ,
        rec.len() == FR_SZ,
    ensures
        (b + rec).len() == (n + 1) * FR_SZ,
        record(b + rec, n) == rec,
        forall|i: int| 0 <= i < n ==> #[trigger] record(b + rec, i) == record(b, i),
{
    lemma_mul_is_distributive_add_other_way(FR_SZ as int, n, 1);
    assert(record(b + rec, n) =~= rec);
    assert forall|i: int| 0 <= i < n implies #[trigger] record(b + rec, i) == record(b, i) by {
        lemma_cell(i, 0, n, FR_SZ as int);
        assert(record(b + rec, i) =~= record(b, i));
    }
}

/// Encode elements as raw records. Reduced elements that stand for the same integers have the
/// same records, bit for bit.
pub fn encode_raw(elems: &[Fr]) -> (b: Vec<u8>)
    ensures
        is_raw_of(b@, elems@),
        canonical_all(elems@) ==> forall|s: Seq<Fr>|
            canonical_all(s) && #[trigger] vals(s) == vals(elems@) ==> is_raw_of(b@, s),
{
    let mut b: Vec<u8> = Vec::new();
    for i in 0..elems.len()
        invariant
            b@.len() == i * FR_SZ,
            forall|k: int| 0 <= k < i ==> record(b@, k) == fr_raw(#[trigger] elems@[k]),
            forall|k: int, x: Fr|
                0 <= k < i && canonical(x) && canonical(elems@[k]) && val(x) == val(elems@[k])
                    ==> #[trigger] fr_raw(x) == #[trigger] record(b@, k),
    {
        let mut rec = fr_to_raw(&elems[i]);
        proof {
            lemma_push_record(b@, i as int, rec@);
        }
        b.append(&mut rec);
    }
    proof {
        assert forall|s: Seq<Fr>|
            canonical_all(elems@) && canonical_all(s) && #[trigger] vals(s) == vals(
                elems@,
            ) implies is_raw_of(b@, s) by {
            assert(vals(s).len() == s.len() && vals(elems@).len() == elems@.len());
            assert forall|k: int| 0 <= k < s.len() implies record(b@, k) == fr_raw(
                #[trigger] s[k],
            ) by {
                assert(canonical(s[k]) && canonical(elems@[k]));
                assert(vals(s)[k] == val(s[k]) && vals(elems@)[k] == val(elems@[k]));
                assert(fr_raw(s[k]) == record(b@, k));
            }
        }
    }
    b
}

/// Decode raw records: the elements whose raw bytes these are, and no others.
pub fn decode_raw(b: &[u8]) -> (r: Vec<Fr>)
    requires
        b@.len() % FR_SZ as nat == 0,
    ensures
        is_raw_of(b@, r@),
        forall|s: Seq<Fr>| is_raw_of(b@, s) ==> r@ == s,
{
    let n: usize = b.len() / FR_SZ;
    let mut r: Vec<Fr> = Vec::new();
    for i in 0..n
        invariant
            b@.len() == n * FR_SZ,
            b@.len() <= usize::MAX,
            r@.len() == i,
            forall|k: int| 0 <= k < i ==> record(b@, k) == fr_raw(#[trigger] r@[k]),
            forall|k: int, x: Fr|
                0 <= k < i && #[trigger] fr_raw(x) == record(b@, k) ==> #[trigger] r@[k] == x,
    {
        proof {
            lemma_cell(i as int, 0, n as int, FR_SZ as int);
        }
        let rec = vstd::slice::slice_subrange(b, i * FR_SZ, i * FR_SZ + FR_SZ);
        r.push(fr_parse_raw(rec));
    }
    proof {
        assert forall|s: Seq<Fr>| is_raw_of(b@, s) implies r@ == s by {
            lemma_mul_equality_converse(FR_SZ as int, s.len() as int, r@.len() as int);
            assert forall|k: int| 0 <= k < r@.len() implies r@[k] == s[k] by {
                assert(fr_raw(s[k]) == record(b@, k));
            }
            assert(r@ =~= s);
        }
    }
    r
}

/// Encode elements as canonical records.
pub fn encode_repr(vals: &[Fr]) -> (b: Vec<u8>)
    ensures
        is_repr_of(b@, vals@),
{
    let mut b: Vec<u8> = Vec::new();
    for i in 0..vals.len()
        invariant
            b@.len() == i * FR_SZ,
            forall|k: int| 0 <= k < i ==> record(b@, k) == fr_repr(#[trigger] vals@[k]),
    {
        let mut rec = fr_to_repr(&vals[i]);
        proof {
            lemma_push_record(b@, i as int, rec@);
        }
        b.append(&mut rec);
    }
    b
}

/// Decode canonical records: the reduced elements they spell, or nothing if some record
/// spells an integer that is not below the modulus.
pub fn decode_repr(b: &[u8]) -> (r: Option<Vec<Fr>>)
    requires
        b@.len() % FR_SZ as nat == 0,
    ensures
        r is Some <==> forall|i: int|
            0 <= i < b@.len() / FR_SZ as nat ==> le_int(#[trigger] record(b@, i)) < modulus(),
        r is Some ==> canonical_all(r->0@) && is_repr_of(b@, r->0@),
        forall|s: Seq<Fr>| canonical_all(s) && is_repr_of(b@, s) ==> r is Some && r->0@ == s,
{
    let n: usize = b.len() / FR_SZ;
    let mut r: Vec<Fr> = Vec::new();
    for i in 0..n
        invariant
            n == b@.len() / FR_SZ as nat,
            b@.len() == n * FR_SZ,
            b@.len() <= usize::MAX,
            r@.len() == i,
            canonical_all(r@),
            forall|k: int|
                0 <= k < i ==> record(b@, k) == fr_repr(#[trigger] r@[k]),
            forall|k: int| 0 <= k < i ==> le_int(#[trigger] record(b@, k)) < modulus(),
            forall|k: int, x: Fr|
                0 <= k < i && canonical(x) && #[trigger] fr_repr(x) == record(b@, k)
                    ==> #[trigger] r@[k] == x,
    {
        proof {
            lemma_cell(i as int, 0, n as int, FR_SZ as int);
        }
        let rec = vstd::slice::slice_subrange(b, i * FR_SZ, i * FR_SZ + FR_SZ);
        match fr_parse_repr(rec) {
            Some(x) => {
                r.push(x);
            },
            None => {
                proof {
                    assert(!(le_int(record(b@, i as int)) < modulus()));
                    assert forall|s: Seq<Fr>| canonical_all(s) && is_repr_of(b@, s) implies false by {
                        lemma_mul_equality_converse(FR_SZ as int, s.len() as int, n as int);
                        assert(record(b@, i as int) == fr_repr(s[i as int]));
                        assert(canonical(s[i as int]));
                    }
                }
                return None;
            },
        }
    }
    proof {
        assert forall|s: Seq<Fr>| canonical_all(s) && is_repr_of(b@, s) implies r@ == s by {
            lemma_mul_equality_converse(FR_SZ as int, s.len() as int, r@.len() as int);
            assert forall|k: int| 0 <= k < r@.len() implies r@[k] == s[k] by {
                assert(canonical(s[k]));
                assert(fr_repr(s[k]) == record(b@, k));
            }
            assert(r@ =~= s);
        }
    }
    Some(r)
}

/// Records are positioned: a run of records of an encoded sequence encodes the same run of
/// elements, for raw and canonical records alike.
pub proof fn law_run_of_records(b: Seq<u8>, s: Seq<Fr>, off: int, count: int)
    requires
        0 <= off,
        0 <= count,
        off + count <= s.len(),
    ensures
        is_raw_of(b, s) ==> is_raw_of(
            b.subrange(off * FR_SZ, (off + count) * FR_SZ),
            s.subrange(off, off + count),
        ),
        is_repr_of(b, s) ==> is_repr_of(
            b.subrange(off * FR_SZ, (off + count) * FR_SZ),
            s.subrange(off, off + count),
        ),
{
    let sz = FR_SZ as int;
    lemma_mul_is_distributive_add_other_way(sz, off, count);
    lemma_mul_inequality(off + count, s.len() as int, sz);
    lemma_mul_nonnegative(off, sz);
    lemma_mul_nonnegative(count, sz);
    if b.len() == s.len() * FR_SZ {
        let c = b.subrange(off * sz, (off + count) * sz);
        let t = s.subrange(off, off + count);
        assert forall|i: int| 0 <= i < count implies record(c, i) == record(b, off + i) && #[trigger] t[i]
            == s[off + i] by {
            lemma_cell(i, 0, count, sz);
            lemma_mul_is_distributive_add_other_way(sz, off, i);
            assert(record(c, i) =~= record(b, off + i));
        }
    }
}

/// The integers that elements stand for fix their canonical records, byte for byte.
pub proof fn law_values_fix_records(a: Seq<u8>, b: Seq<u8>, s: Seq<Fr>, t: Seq<Fr>)
    requires
        is_repr_of(a, s),
        is_repr_of(b, t),
        vals(s) == vals(t),
    ensures
        a == b,
{
    assert(vals(s).len() == s.len() && vals(t).len() == t.len());
    assert forall|k: int| 0 <= k < a.len() implies a[k] == b[k] by {
        let i = k / FR_SZ as int;
        let j = k % FR_SZ as int;
        assert(0 <= i < s.len());
        assert(record(a, i) == fr_repr(s[i]));
        assert(record(b, i) == fr_repr(t[i]));
        assert(vals(s)[i] == val(s[i]) && vals(t)[i] == val(t[i]));
        lemma_le_int_injective(record(a, i), record(b, i));
        assert(record(a, i)[j] == a[k]);
        assert(record(b, i)[j] == b[k]);
    }
    assert(a =~= b);
}

} // verus!
