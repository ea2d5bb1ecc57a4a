//! Scratch files of raw records, and the four-step transform over them: only blocks and
//! batches of rows are resident.

use halo2curves::bn256::Fr;
use vstd::arithmetic::div_mod::*;
use vstd::arithmetic::mul::*;
use vstd::arithmetic::power2::*;
use vstd::prelude::*;

use super::fft::{
    block_rows, column_of, columns_written, distribute_powers_zeta, extended, law_five_steps,
    law_rows_start_and_done, law_rows_step, law_transpose_done, law_transpose_start,
    law_transpose_step, law_transposed_vals, lemma_sub_roots, padded, rows_transformed, shifted,
    transform_rows, transposed, val_opt, written, FourStep, RowsPlan, TransposePlan,
};
use super::records::{decode_raw, encode_raw, is_raw_of, law_run_of_records, record};
use crate::field::{
    canonical, canonical_all, dft, fr_raw, fr_zero, primitive_root, val, vals, FR_SZ,
};
use crate::grid::lemma_cell;
use crate::powers::two_to;

verus! {

/// A scratch file of raw records.
pub struct Scratch {
    bytes: Vec<u8>,
    /// The elements.
    held: Ghost<Seq<Fr>>,
}

impl Scratch {
    /// The elements.
    pub closed spec fn view(&self) -> Seq<Fr> {
        self.held@
    }

    /// The bytes.
    pub closed spec fn bytes(&self) -> Seq<u8> {
        self.bytes@
    }

    /// The bytes are the elements' records.
    pub closed spec fn wf(&self) -> bool {
        is_raw_of(self.bytes@, self.held@)
    }

    /// A file of zero bytes, long enough for `len` elements: it reads back as zeros.
    pub fn new(len: usize) -> (r: Self)
        requires
            len * FR_SZ <= usize::MAX,
        ensures
            r.wf(),
            r.bytes() == Seq::new((len * FR_SZ) as nat, |i: int| 0u8),
            r@.len() == len,
            canonical_all(r@),
            forall|i: int| 0 <= i < len ==> val(#[trigger] r@[i]) == 0,
    {
        let zero = fr_zero();
        let size: usize = len * FR_SZ;
        let mut bytes: Vec<u8> = Vec::with_capacity(size);
        for i in 0..size
            invariant
                bytes@.len() == i,
                forall|j: int| 0 <= j < i ==> bytes@[j] == 0,
        {
            bytes.push(0);
        }
        let ghost held = Seq::new(len as nat, |i: int| zero);
        proof {
            assert(bytes@ =~= Seq::new((len * FR_SZ) as nat, |i: int| 0u8));
            assert forall|i: int| 0 <= i < len implies record(bytes@, i) == fr_raw(
                #[trigger] held[i],
            ) by {
                assert(record(bytes@, i) =~= fr_raw(zero));
            }
        }
        Scratch { bytes, held: Ghost(held) }
    }

    /// The file's bytes.
    pub fn into_bytes(self) -> (r: Vec<u8>)
        requires
            self.wf(),
        ensures
            is_raw_of(r@, self@),
    {
        self.bytes
    }

    /// Read a run of elements.
    pub fn read_elems_at(&self, off: usize, count: usize) -> (r: Vec<Fr>)
        requires
            self.wf(),
            off + count <= self@.len(),
        ensures
            r@ == self@.subrange(off as int, off + count),
    {
        let all = self.bytes.as_slice();
        let size: usize = all.len();
        assert((off + count) * FR_SZ <= size);
        let part = vstd::slice::slice_subrange(all, off * FR_SZ, (off + count) * FR_SZ);
        proof {
            law_run_of_records(self.bytes@, self.held@, off as int, count as int);
            assert(is_raw_of(part@, self.held@.subrange(off as int, off + count)));
        }
        decode_raw(part)
    }

    /// Write a run of elements.
    pub fn write_elems_at(&mut self, off: usize, elems: &[Fr])
        requires
            old(self).wf(),
            off + elems@.len() <= old(self)@.len(),
        ensures
            final(self).wf(),
            final(self)@ == written(old(self)@, off as int, elems@),
    {
        let part = encode_raw(elems);
        let ghost before = self.bytes@;
        let ghost held = self.held@;
        let size: usize = self.bytes.len();
        let n = part.len();
        assert((off + elems@.len()) * FR_SZ <= size);
        let at: usize = off * FR_SZ;
        for j in 0..n
            invariant
                n == part@.len(),
                size == self.bytes@.len(),
                before.len() == size,
                at + n <= size,
                self.held@ == held,
                forall|q: int| #![trigger self.bytes@[q]]
                    0 <= q < size ==> self.bytes@[q] == (if at <= q < at + j {
                        part@[q - at]
                    } else {
                        before[q]
                    }),
        {
            self.bytes[at + j] = part[j];
        }
        let ghost next = written(held, off as int, elems@);
        self.held = Ghost(next);
        proof {
            assert forall|i: int| 0 <= i < next.len() implies record(self.bytes@, i) == fr_raw(
                #[trigger] next[i],
            ) by {
                if off <= i < off + elems@.len() {
                    assert(record(self.bytes@, i) =~= record(part@, i - off));
                    assert(record(part@, i - off) == fr_raw(elems@[i - off]));
                } else {
                    assert(record(self.bytes@, i) =~= record(before, i));
                    assert(record(before, i) == fr_raw(held[i]));
                }
            }
        }
    }
}

/// Transpose the `rows x cols` matrix of one file into another, a block at a time.
pub fn transpose(src: &Scratch, dst: &mut Scratch, rows: usize, cols: usize, block: usize)
    requires
        src.wf(),
        old(dst).wf(),
        block > 0,
        rows * cols <= usize::MAX,
        src@.len() == rows * cols,
        old(dst)@.len() == rows * cols,
    ensures
        final(dst).wf(),
        final(dst)@ == transposed(src@, rows as int, cols as int),
{
    let mut plan = TransposePlan::new(rows, cols, block);
    proof {
        law_transpose_start(plan, src@, dst@);
    }
    while plan.i0 < rows
        invariant
            src.wf(),
            dst.wf(),
            plan.wf(),
            plan.rows == rows,
            plan.cols == cols,
            plan.progress(src@, dst@),
        decreases rows - plan.i0, cols - plan.j0,
    {
        let b = match plan.current() {
            Some(b) => b,
            None => {
                return;
            },
        };
        let ghost want = block_rows(src@, cols as int, b);
        let mut tile: Vec<Fr> = Vec::new();
        proof {
            lemma_mul_basics(b.bj as int);
        }
        for i in 0..b.bi
            invariant
                src.wf(),
                plan.wf(),
                plan.rows == rows,
                plan.cols == cols,
                b == plan.next_block(),
                plan.i0 < rows,
                src@.len() == rows * cols,
                want == block_rows(src@, cols as int, b),
                tile@.len() == i * b.bj,
                forall|k: int| 0 <= k < tile@.len() ==> #[trigger] tile@[k] == want[k],
        {
            let off = plan.read_offset(&b, i);
            let mut row = src.read_elems_at(off, b.bj);
            let ghost before = tile@;
            let ghost added = row@;
            tile.append(&mut row);
            proof {
                lemma_mul_is_distributive_add_other_way(b.bj as int, i as int, 1);
                lemma_mul_inequality(i + 1, b.bi as int, b.bj as int);
                assert forall|k: int| 0 <= k < tile@.len() implies #[trigger] tile@[k]
                    == want[k] by {
                    if k >= before.len() {
                        let j = k - before.len();
                        lemma_cell(i as int, j, b.bi as int, b.bj as int);
                        assert(tile@[k] == added[j]);
                    }
                }
            }
        }
        assert(tile@ =~= want);
        let ghost start = dst@;
        proof {
            lemma_columns_len(start, want, rows as int, b, 0);
        }
        for j in 0..b.bj
            invariant
                dst.wf(),
                plan.wf(),
                plan.rows == rows,
                plan.cols == cols,
                b == plan.next_block(),
                plan.i0 < rows,
                tile@.len() == b.bi * b.bj,
                tile@ == want,
                start.len() == rows * cols,
                dst@ == columns_written(start, want, rows as int, b, j as nat),
        {
            proof {
                lemma_columns_len(start, want, rows as int, b, j as nat);
            }
            let column = column_of(tile.as_slice(), b.bi, b.bj, j);
            let off = plan.write_offset(&b, j);
            dst.write_elems_at(off, column.as_slice());
        }
        proof {
            law_transpose_step(plan, src@, start);
        }
        plan.advance();
    }
    proof {
        law_transpose_done(plan, src@, dst@);
    }
}

proof fn lemma_columns_len(
    dst: Seq<Fr>,
    block: Seq<Fr>,
    rows: int,
    b: super::fft::Block,
    n: nat,
)
    ensures
        columns_written(dst, block, rows, b, n).len() == dst.len(),
    decreases n,
{
    if n > 0 {
        lemma_columns_len(dst, block, rows, b, (n - 1) as nat);
    }
}

/// Transform every row of the matrix in a file, a batch of rows at a time.
pub fn fft_rows(
    f: &mut Scratch,
    num_rows: usize,
    row_len: usize,
    log_row_len: u32,
    sub_omega: Fr,
    twiddle: Option<Fr>,
)
    requires
        old(f).wf(),
        canonical_all(old(f)@),
        num_rows > 0,
        row_len == pow2(log_row_len as nat),
        num_rows * row_len <= usize::MAX,
        old(f)@.len() == num_rows * row_len,
        canonical(sub_omega),
        primitive_root(val(sub_omega), row_len as int),
        twiddle is Some ==> canonical(twiddle->0),
    ensures
        final(f).wf(),
        canonical_all(final(f)@),
        vals(final(f)@) == rows_transformed(
            vals(old(f)@),
            num_rows as int,
            row_len as int,
            val(sub_omega),
            val_opt(twiddle),
        ),
{
    let ghost x = vals(f@);
    let ghost w = val(sub_omega);
    let ghost tw = val_opt(twiddle);
    proof {
        lemma_pow2_pos(log_row_len as nat);
    }
    let mut plan = RowsPlan::new(num_rows, row_len);
    proof {
        law_rows_start_and_done(plan, f@, x, w, tw);
    }
    while plan.r0 < num_rows
        invariant
            f.wf(),
            plan.wf(),
            plan.num_rows == num_rows,
            plan.row_len == row_len,
            row_len == pow2(log_row_len as nat),
                canonical(sub_omega),
            primitive_root(val(sub_omega), row_len as int),
            twiddle is Some ==> canonical(twiddle->0),
            w == val(sub_omega),
            tw == val_opt(twiddle),
            plan.progress(x, f@, w, tw),
        decreases num_rows - plan.r0,
    {
        let (off, count) = match plan.current() {
            Some(run) => run,
            None => {
                return;
            },
        };
        let mut rows = f.read_elems_at(off, count);
        proof {
            lemma_mod_multiples_basic(plan.next_rows(), row_len as int);
            lemma_div_by_multiple(plan.next_rows(), row_len as int);
            assert forall|k: int| 0 <= k < rows@.len() implies #[trigger] canonical(rows@[k]) by {
                assert(canonical(f@[off + k]));
            }
        }
        let ghost before = rows@;
        transform_rows(rows.as_mut_slice(), row_len, sub_omega, log_row_len, twiddle, plan.r0);
        let ghost file = f@;
        f.write_elems_at(off, rows.as_slice());
        proof {
            law_rows_step(plan, x, file, rows@, w, tw);
        }
        plan.advance();
    }
    proof {
        law_rows_start_and_done(plan, f@, x, w, tw);
    }
}

/// The five out-of-core steps, on files of which `a` holds the input in natural order. They
/// leave the result in `a`, in natural order.
pub fn four_step_files(
    a: &mut Scratch,
    b: &mut Scratch,
    c: &mut Scratch,
    omega: Fr,
    log_n: usize,
    block: usize,
)
    requires
        old(a).wf(),
        old(b).wf(),
        old(c).wf(),
        canonical_all(old(a)@),
        block > 0,
        pow2(log_n as nat) <= usize::MAX,
        old(a)@.len() == pow2(log_n as nat),
        old(b)@.len() == pow2(log_n as nat),
        old(c)@.len() == pow2(log_n as nat),
        canonical(omega),
        primitive_root(val(omega), pow2(log_n as nat) as int),
    ensures
        final(a).wf(),
        canonical_all(final(a)@),
        vals(final(a)@) == dft(vals(old(a)@), val(omega)),
{
    let steps = FourStep::new(omega, log_n);
    let n1 = steps.n1;
    let n2 = steps.n2;
    let ghost x = vals(a@);
    let ghost w = val(omega);
    proof {
        let (k1, k2) = (steps.log_n1 as nat, steps.log_n2 as nat);
        lemma_pow2_adds(k1, k2);
        lemma_pow2_pos(k1);
        lemma_pow2_pos(k2);
        lemma_mul_is_commutative(n1 as int, n2 as int);
        lemma_sub_roots(w, k1, k2);
        lemma_mul_inequality(1, n2 as int, n1 as int);
        lemma_mul_inequality(1, n1 as int, n2 as int);
        law_five_steps(x, w, k1, k2);
        law_transposed_vals(a@, n2 as int, n1 as int);
    }
    transpose(a, b, n2, n1, block);
    fft_rows(b, n1, n2, steps.log_n2, steps.omega_row, Some(omega));
    proof {
        assert(vals(b@).len() == b@.len());
        law_transposed_vals(b@, n1 as int, n2 as int);
    }
    transpose(b, c, n1, n2, block);
    fft_rows(c, n2, n1, steps.log_n1, steps.omega_col, None);
    proof {
        assert(vals(c@).len() == c@.len());
        law_transposed_vals(c@, n2 as int, n1 as int);
    }
    transpose(c, a, n2, n1, block);
}

/// Out-of-core forward transform: the values `four_step` and a direct transform compute.
pub fn four_step_ooc(input: &[Fr], omega: Fr, log_n: usize, block: usize) -> (r: Vec<Fr>)
    requires
        canonical_all(input@),
        block > 0,
        pow2(log_n as nat) * FR_SZ <= usize::MAX,
        input@.len() == pow2(log_n as nat),
        canonical(omega),
        primitive_root(val(omega), pow2(log_n as nat) as int),
    ensures
        canonical_all(r@),
        vals(r@) == dft(vals(input@), val(omega)),
{
    let n = input.len();
    let mut a = Scratch::new(n);
    let mut b = Scratch::new(n);
    let mut c = Scratch::new(n);
    a.write_elems_at(0, input);
    assert(a@ =~= input@);
    four_step_files(&mut a, &mut b, &mut c, omega, log_n, block);
    proof {
        assert(vals(a@).len() == a@.len());
    }
    let out = a.read_elems_at(0, n);
    assert(out@ =~= a@);
    out
}

/// Out-of-core `coeff_to_extended`: the extended-size values are left in the file that is
/// returned. Only the `2^k` coefficients, and the transform's working set, are resident; the
/// padding is the zeros of a fresh file.
pub fn coeff_to_extended_ooc(
    coeffs: &[Fr],
    zeta: Fr,
    extended_omega: Fr,
    k: usize,
    extended_k: usize,
    block: usize,
) -> (r: Scratch)
    requires
        canonical_all(coeffs@),
        canonical(zeta),
        canonical(extended_omega),
        block > 0,
        k <= extended_k,
        pow2(extended_k as nat) * FR_SZ <= usize::MAX,
        coeffs@.len() == pow2(k as nat),
        primitive_root(val(extended_omega), pow2(extended_k as nat) as int),
    ensures
        r.wf(),
        canonical_all(r@),
        vals(r@) == extended(
            vals(coeffs@),
            val(zeta),
            val(extended_omega),
            pow2(extended_k as nat),
        ),
{
    let shifted_coeffs = distribute_powers_zeta(coeffs, zeta);
    let len = two_to(extended_k);
    let ghost shift = shifted(vals(coeffs@), val(zeta));
    proof {
        assert(vals(shifted_coeffs@).len() == shifted_coeffs@.len());
        if k < extended_k {
            lemma_pow2_strictly_increases(k as nat, extended_k as nat);
        }
    }
    let mut a = Scratch::new(len);
    let mut b = Scratch::new(len);
    let mut c = Scratch::new(len);
    let ghost fresh = a@;
    a.write_elems_at(0, shifted_coeffs.as_slice());
    proof {
        assert forall|i: int| 0 <= i < len implies #[trigger] canonical(a@[i]) && vals(a@)[i]
            == padded(shift, len as nat)[i] by {
            if i < shift.len() {
                assert(canonical(shifted_coeffs@[i]));
                assert(vals(shifted_coeffs@)[i] == shift[i]);
            } else {
                assert(canonical(fresh[i]));
                assert(val(fresh[i]) == 0);
            }
        }
        assert(vals(a@) =~= padded(shift, len as nat));
    }
    four_step_files(&mut a, &mut b, &mut c, extended_omega, extended_k, block);
    a
}

/// The first `len` elements of a file of raw records. Nothing if it is too short.
pub fn read_to_vec(bytes: &[u8], len: usize) -> (r: Option<Vec<Fr>>)
    ensures
        r is Some <==> len * FR_SZ <= bytes@.len(),
        r matches Some(v) ==> is_raw_of(bytes@.take(len * FR_SZ), v@) && forall|s: Seq<Fr>|
            #[trigger] is_raw_of(bytes@.take(len * FR_SZ), s) ==> v@ == s,
{
    if len > bytes.len() / FR_SZ {
        return None;
    }
    let part = vstd::slice::slice_subrange(bytes, 0, len * FR_SZ);
    assert(part@ =~= bytes@.take(len * FR_SZ));
    Some(decode_raw(part))
}

} // verus!
