//! The quotient with its fresh cosets spilled to scratch records: the cosets are read back a
//! window at a time, and the values are streamed out a tile at a time.

use halo2curves::bn256::Fr;
use vstd::arithmetic::mul::*;
use vstd::prelude::*;

use crate::field::{canonical, canonical_all, fr_repr, val, vals, FR_SZ};

use crate::halo2::disk::{law_runs_read, runs_read, window_runs, Run};
use crate::halo2::fft::{written, zeros};
use crate::halo2::records::{decode_repr, encode_repr, is_repr_of, law_run_of_records, record};
use crate::halo2::tiled::{gather, window_rows, TileSpec};
use crate::plonk::circuit::{table_vals, Polynomial};
use crate::plonk::evaluate::{
    cosets_wf, evaluate_window, law_cursor_step, lemma_halo_nonneg, lemma_small_power,
    tile_rows, window, QuotientArgs, TileCursor,
};
use crate::plonk::evaluator::Evaluator;

verus! {

/// A coset of the extended domain spilled as canonical records, from which only windows are
/// read back.
pub struct ReprCoset {
    bytes: Vec<u8>,
    size: usize,
    /// The coset.
    held: Ghost<Seq<Fr>>,
}

impl ReprCoset {
    /// The coset.
    pub closed spec fn view(&self) -> Seq<Fr> {
        self.held@
    }

    /// The records spell the coset.
    pub closed spec fn wf(&self) -> bool {
        &&& self.size == self.held@.len()
        &&& canonical_all(self.held@)
        &&& is_repr_of(self.bytes@, self.held@)
    }

    /// Spill a coset.
    pub fn create(values: &[Fr]) -> (r: Self)
        requires
            canonical_all(values@),
        ensures
            r.wf(),
            r@ == values@,
    {
        let bytes = encode_repr(values);
        ReprCoset { bytes, size: values.len(), held: Ghost(values@) }
    }

    /// The window `[start - halo, start - halo + wl)`, taken around the domain.
    pub fn window(&self, start: usize, halo: usize, wl: usize) -> (r: Vec<Fr>)
        requires
            self.wf(),
            0 < self@.len() <= i64::MAX,
            start <= i64::MAX,
            halo <= i64::MAX,
        ensures
            r@ == gather(self@, window_rows(self@.len() as int, start as int, halo as int, wl as int)),
            canonical_all(r@),
            r@.len() == wl,
            forall|j: int|
                0 <= j < wl ==> #[trigger] r@[j] == self@[(start - halo + j) % (self@.len() as int)],
    {
        let runs = window_runs(self.size, start, halo, wl);
        let mut out: Vec<Fr> = Vec::with_capacity(wl);
        assert(runs@.take(0) =~= Seq::<Run>::empty());
        for j in 0..runs.len()
            invariant
                self.wf(),
                forall|i: int|
                    0 <= i < runs@.len() ==> 0 < (#[trigger] runs@[i]).count && runs@[i].off
                        + runs@[i].count <= self.size,
                canonical_all(out@),
                out@ == runs_read(self.held@, runs@.take(j as int)),
        {
            let run = runs[j];
            assert(runs@[j as int] == run);
            let mut part = read_records(&self.bytes, run.off, run.count, Ghost(self.held@));
            let ghost before = out@;
            let ghost added = part@;
            out.append(&mut part);
            proof {
                assert(runs@.take(j + 1).drop_last() =~= runs@.take(j as int));
                assert(out@ =~= before + added);
                assert forall|q: int| 0 <= q < out@.len() implies #[trigger] canonical(
                    out@[q],
                ) by {
                    if q < before.len() {
                        assert(canonical(before[q]));
                    } else {
                        assert(canonical(added[q - before.len()]));
                    }
                }
            }
        }
        proof {
            assert(runs@.take(runs@.len() as int) =~= runs@);
            law_runs_read(self.held@, runs@);
        }
        out
    }
}

/// Read a run of canonical records back.
fn read_records(bytes: &Vec<u8>, off: usize, count: usize, Ghost(held): Ghost<Seq<Fr>>) -> (r: Vec<
    Fr,
>)
    requires
        is_repr_of(bytes@, held),
        canonical_all(held),
        off + count <= held.len(),
    ensures
        r@ == held.subrange(off as int, off + count),
        canonical_all(r@),
{
    let all = bytes.as_slice();
    let size: usize = all.len();
    assert((off + count) * FR_SZ <= size);
    let part = vstd::slice::slice_subrange(all, off * FR_SZ, (off + count) * FR_SZ);
    proof {
        law_run_of_records(bytes@, held, off as int, count as int);
        let run = held.subrange(off as int, off + count);
        assert forall|q: int| 0 <= q < run.len() implies #[trigger] canonical(run[q]) by {
            assert(canonical(held[off + q]));
        }
        assert(is_repr_of(part@, run) && canonical_all(run));
    }
    match decode_repr(part) {
        Some(r) => r,
        None => {
            assert(false);
            Vec::new()
        },
    }
}

/// Overwrite a run of canonical records.
fn write_records(bytes: &mut Vec<u8>, run: &Vec<Fr>, off: usize, Ghost(held): Ghost<Seq<Fr>>)
    requires
        is_repr_of(old(bytes)@, held),
        off + run@.len() <= held.len(),
    ensures
        is_repr_of(
            final(bytes)@,
            written(held, off as int, run@),
        ),
{
    let part = encode_repr(run.as_slice());
    let ghost before = bytes@;
    let size: usize = bytes.len();
    let n = part.len();
    assert((off + run@.len()) * FR_SZ <= size);
    let at: usize = off * FR_SZ;
    for j in 0..n
        invariant
            n == part@.len(),
            size == bytes@.len(),
            before.len() == size,
            at + n <= size,
            forall|q: int| #![trigger bytes@[q]]
                0 <= q < size ==> bytes@[q] == (if at <= q < at + j {
                    part@[q - at]
                } else {
                    before[q]
                }),
    {
        bytes[at + j] = part[j];
    }
    proof {
        let next = written(held, off as int, run@);
        assert forall|i: int| 0 <= i < next.len() implies record(bytes@, i)
            == fr_repr(#[trigger] next[i]) by {
            if off <= i < off + run@.len() {
                assert(record(bytes@, i) =~= record(part@, i - off));
                assert(record(part@, i - off) == fr_repr(run@[i - off]));
            } else {
                assert(record(bytes@, i) =~= record(before, i));
                assert(record(before, i) == fr_repr(held[i]));
            }
        }
    }
}

/// The spilled cosets are the given ones, of `size` rows each.
pub open spec fn spilled(s: Seq<ReprCoset>, cosets: Seq<Seq<int>>, size: int) -> bool {
    &&& s.len() == cosets.len()
    &&& forall|j: int|
        0 <= j < s.len() ==> (#[trigger] s[j]).wf() && s[j]@.len() == size && vals(s[j]@)
            == cosets[j]
}

/// Extend and spill the polynomials of an instance whose cosets the key does not hold, one
/// after the other: only one of the cosets is resident at a time.
fn spill_instance(args: &QuotientArgs, i: usize) -> (r: Vec<ReprCoset>)
    requires
        args.pk.wf(),
        i < args.instances(),
        args.polys_wf(i as int),
    ensures
        spilled(r@, args.fresh_cosets(i as int), args.pk.vk.domain.size()),
{
    let domain = &args.pk.vk.domain;
    let mut r: Vec<ReprCoset> = Vec::new();
    let ghost polys = args.fresh_polys(i as int);
    let mut j: usize = 0;
    loop
        invariant
            *domain == args.pk.vk.domain,
            domain.wf(),
            i < args.instances(),
            args.polys_wf(i as int),
            polys == args.fresh_polys(i as int),
            j <= polys.len(),
            r@.len() == j,
            forall|q: int|
                0 <= q < j ==> (#[trigger] r@[q]).wf() && r@[q]@.len() == domain.size() && vals(
                    r@[q]@,
                ) == domain.extend(vals(polys[q].values@)),
        ensures
            j == polys.len(),
        decreases polys.len() - j,
    {
        match args.fresh_poly(i, j) {
            Some(p) => {
                let coset = domain.coeff_to_extended(p);
                r.push(ReprCoset::create(coset.values.as_slice()));
            },
            None => {
                break;
            },
        }
        j = r.len();
    }
    r
}

/// Windows of spilled cosets.
fn read_windows(
    cosets: &Vec<ReprCoset>,
    spec: &TileSpec,
    start: usize,
    len: usize,
    Ghost(full): Ghost<Seq<Seq<int>>>,
) -> (r: Vec<Polynomial>)
    requires
        spilled(cosets@, full, spec.size as int),
        0 < spec.size <= 0x4000_0000,
        start + len <= spec.size,
        len + 2 * spec.halo <= i32::MAX,
    ensures
        cosets_wf(r@, len + 2 * spec.halo),
        table_vals(r@) == window(*spec, start as int, len as int).of_all(full),
{
    let wl: usize = len + 2 * spec.halo;
    let ghost w = window(*spec, start as int, len as int);
    let mut r: Vec<Polynomial> = Vec::with_capacity(cosets.len());
    for i in 0..cosets.len()
        invariant
            spilled(cosets@, full, spec.size as int),
            0 < spec.size <= 0x4000_0000,
            start + len <= spec.size,
            wl == len + 2 * spec.halo,
            wl <= i32::MAX,
            w == window(*spec, start as int, len as int),
            r@.len() == i,
            cosets_wf(r@, wl as int),
            forall|j: int| 0 <= j < i ==> vals((#[trigger] r@[j]).values@) == w.of(full[j]),
    {
        assert(cosets@[i as int].wf());
        let values = cosets[i].window(start, spec.halo, wl);
        proof {
            let p = cosets@[i as int]@;
            assert(vals(p) == full[i as int]);
            assert forall|q: int| 0 <= q < wl implies vals(values@)[q] == w.of(vals(p))[q] by {
                vstd::arithmetic::div_mod::lemma_mod_bound(
                    start - spec.halo + q,
                    spec.size as int,
                );
            }
            assert(vals(values@) =~= w.of(vals(p)));
        }
        r.push(Polynomial { values });
    }
    assert(table_vals(r@) =~= w.of_all(full));
    r
}

/// The quotient over the whole domain with every fresh coset spilled: each tile is read back,
/// takes the terms of one instance, and is written out again.
pub fn quotient_spilled(ev: &Evaluator, args: &QuotientArgs, tile: usize) -> (r: Polynomial)
    requires
        args.wf(*ev),
        args.tiles_fit(*ev, tile as int),
    ensures
        canonical_all(r.values@),
        r.values@.len() == args.pk.vk.domain.size(),
        forall|row: int|
            0 <= row < r.values@.len() ==> val(#[trigger] r.values@[row]) == args.quotient(
                *ev,
                row,
                args.instances(),
            ),
{
    let n = args.count();
    proof {
        lemma_small_power(args.pk.vk.domain.extended_k as nat);
        lemma_halo_nonneg(*args, *ev);
    }
    if n == 0 {
        return Polynomial { values: zeros(args.pk.vk.domain.extended_len()) };
    }
    let spec = args.tiling(ev);
    let size = spec.size;
    let start_values = zeros(size);
    let mut out = encode_repr(start_values.as_slice());
    let mut held: Ghost<Seq<Fr>> = Ghost(start_values@);
    let mut cursor = TileCursor::new(size, tile, n);
    for i in 0..n
        invariant
            args.wf(*ev),
            n == args.instances(),
            args.is_tiling(*ev, spec),
            size == spec.size,
            0 < size <= 0x4000_0000,
            0 < tile,
            tile_rows(tile as int, size as int) + 2 * spec.halo <= i32::MAX,
            cursor.wf(),
            cursor == (TileCursor { size, tile, instances: n, instance: i, start: 0 }),
            held@.len() == size,
            canonical_all(held@),
            is_repr_of(out@, held@),
            forall|row: int|
                0 <= row < size ==> val(#[trigger] held@[row]) == args.quotient(
                    *ev,
                    row,
                    i as nat,
                ),
    {
        assert(args.instance_wf(*ev, i as int));
        let cosets = spill_instance(args, i);
        let ghost full = args.fresh_cosets(i as int);
        let mut s: usize = 0;
        while s < size
            invariant
                args.wf(*ev),
                i < n,
                n == args.instances(),
                args.is_tiling(*ev, spec),
                size == spec.size,
                0 < size <= 0x4000_0000,
                0 < tile,
                tile_rows(tile as int, size as int) + 2 * spec.halo <= i32::MAX,
                full == args.fresh_cosets(i as int),
                spilled(cosets@, full, size as int),
                s <= size,
                s < size ==> cursor == (TileCursor { size, tile, instances: n, instance: i, start: s }),
                s == size ==> cursor == (TileCursor {
                    size,
                    tile,
                    instances: n,
                    instance: (i + 1) as usize,
                    start: 0,
                }),
                cursor.wf(),
                held@.len() == size,
                canonical_all(held@),
                is_repr_of(out@, held@),
                forall|row: int|
                    0 <= row < size ==> val(#[trigger] held@[row]) == args.quotient(
                        *ev,
                        row,
                        cursor.passes(row),
                    ),
            decreases size - s,
        {
            let ghost before = cursor;
            let len = match cursor.current() {
                Some((_, _, len)) => len,
                None => 0,
            };
            let mut tv = read_records(&out, s, len, held);
            let list = read_windows(&cosets, &spec, s, len, Ghost(full));
            assert(table_vals(list@).len() == list@.len());
            let windows = args.gather(i, list);
            let ghost old_tv = tv@;
            evaluate_window(ev, args, i, &spec, &windows, &mut tv, s);
            let ghost old_held = held@;
            write_records(&mut out, &tv, s, held);
            held = Ghost(written(old_held, s as int, tv@));
            cursor.advance();
            s = s + len;
            proof {
                assert forall|row: int| 0 <= row < size implies #[trigger] canonical(
                    held@[row],
                ) by {
                    if before.start <= row < before.start + len {
                        assert(canonical(tv@[row - before.start]));
                    } else {
                        assert(canonical(old_held[row]));
                    }
                }
                assert forall|row: int| 0 <= row < size implies val(#[trigger] held@[row])
                    == args.quotient(*ev, row, cursor.passes(row)) by {
                    law_cursor_step(before, cursor, row);
                    assert(val(old_held[row]) == args.quotient(*ev, row, before.passes(row)));
                    if before.start <= row < before.start + len {
                        assert(old_tv[row - before.start] == old_held[row]);
                        assert(held@[row] == tv@[row - before.start]);
                    }
                }
            }
        }
    }
    let values = read_records(&out, 0, size, held);
    proof {
        assert(values@ =~= held@);
    }
    Polynomial { values }
}

} // verus!
