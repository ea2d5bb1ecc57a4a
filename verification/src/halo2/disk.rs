//! Disk-resident extended cosets: a window of a coset as runs of records on disk.
//!
//! The resident set is the window, not the domain: the window
//! `[start - halo, start - halo + wl)` (mod `size`) is read as contiguous runs, wrapping at
//! the domain boundary.

use halo2curves::bn256::Fr;
use vstd::arithmetic::div_mod::*;
use vstd::prelude::*;

use super::records::{decode_raw, encode_raw, is_raw_of, law_run_of_records, record};
use super::tiled::{gather, window_rows};
use crate::field::{fr_raw, FR_SZ};

verus! {

/// A contiguous run of records.
#[derive(Clone, Copy, Debug)]
pub struct Run {
    /// The first record.
    pub off: usize,
    /// How many.
    pub count: usize,
}

/// The records that runs cover, in order.
pub open spec fn runs_rows(runs: Seq<Run>) -> Seq<int>
    decreases runs.len(),
{
    if runs.len() == 0 {
        Seq::empty()
    } else {
        runs_rows(runs.drop_last()) + Seq::new(
            runs.last().count as nat,
            |k: int| runs.last().off + k,
        )
    }
}

/// What reading the runs of a file one after the other yields.
pub open spec fn runs_read<T>(file: Seq<T>, runs: Seq<Run>) -> Seq<T>
    decreases runs.len(),
{
    if runs.len() == 0 {
        Seq::empty()
    } else {
        runs_read(file, runs.drop_last()) + file.subrange(
            runs.last().off as int,
            runs.last().off + runs.last().count,
        )
    }
}

/// The runs of the window `[start - halo, start - halo + wl)` taken mod `size`. For a window
/// no longer than the domain they are at most two; a longer one wraps more than once.
pub fn window_runs(size: usize, start: usize, halo: usize, wl: usize) -> (runs: Vec<Run>)
    requires
        0 < size <= i64::MAX,
        start <= i64::MAX,
        halo <= i64::MAX,
    ensures
        runs_rows(runs@) == window_rows(size as int, start as int, halo as int, wl as int),
        forall|i: int|
            0 <= i < runs@.len() ==> 0 < (#[trigger] runs@[i]).count && runs@[i].off
                + runs@[i].count <= size,
        wl <= size ==> runs@.len() <= 2,
{
    let mut runs: Vec<Run> = Vec::new();
    let lo: i64 = start as i64 - halo as i64;
    let m: i64 = size as i64;
    proof {
        lemma_mod_bound(lo as int, m as int);
    }
    let first: usize = lo.checked_rem_euclid(m).unwrap() as usize;
    let mut cur: usize = first;
    let mut remaining: usize = wl;
    let ghost rows = window_rows(size as int, start as int, halo as int, wl as int);
    assert(runs_rows(runs@) =~= rows.take(0));
    while remaining > 0
        invariant
            0 < size,
            remaining <= wl,
            cur < size,
            first < size,
            rows == window_rows(size as int, start as int, halo as int, wl as int),
            lo == start - halo,
            first == lo as int % size as int,
            cur == (lo + (wl - remaining)) % (size as int),
            runs_rows(runs@) == rows.take(wl - remaining),
            forall|i: int|
                0 <= i < runs@.len() ==> 0 < (#[trigger] runs@[i]).count && runs@[i].off
                    + runs@[i].count <= size,
            runs@.len() == 0 ==> remaining == wl,
            runs@.len() == 1 ==> remaining == 0 || wl - remaining == size - first,
            runs@.len() == 2 ==> remaining == 0 || wl - remaining == 2 * size - first,
            runs@.len() > 2 ==> wl > size,
        decreases remaining,
    {
        let run: usize = if remaining < size - cur {
            remaining
        } else {
            size - cur
        };
        let ghost done = wl - remaining;
        let ghost before = runs@;
        proof {
            if before.len() == 1 {
                lemma_mod_step(lo as int, size as int, first as int, size - first);
            }
            if before.len() == 2 {
                lemma_mod_step(lo as int, size as int, first as int, 2 * size - first);
            }
            if before.len() >= 2 {
                assert(wl > size);
            }
        }
        runs.push(Run { off: cur, count: run });
        proof {
            let tail = Seq::new(run as nat, |k: int| cur + k);
            assert(runs@.drop_last() =~= before);
            assert forall|q: int| done <= q < done + run implies #[trigger] rows[q] == tail[q
                - done] by {
                lemma_mod_step(lo + done, size as int, cur as int, q - done);
                lemma_small_mod((cur + q - done) as nat, size as nat);
            }
            assert(runs_rows(runs@) == runs_rows(before) + tail);
            assert(rows.take(done + run) =~= rows.take(done) + tail);
            lemma_mod_step(lo + done, size as int, cur as int, run as int);
            if cur + run == size {
                lemma_mod_self_0(size as int);
            } else {
                lemma_small_mod((cur + run) as nat, size as nat);
            }
        }
        remaining = remaining - run;
        cur = cur + run;
        if cur == size {
            cur = 0;
        }
    }
    assert(rows.take(wl as int) =~= rows);
    runs
}

/// Moving on by `k` moves the remainder on by `k`.
proof fn lemma_mod_step(a: int, m: int, r: int, k: int)
    requires
        m > 0,
        a % m == r,
    ensures
        (a + k) % m == (r + k) % m,
{
    lemma_add_mod_noop(a, k, m);
    lemma_add_mod_noop(r, k, m);
    lemma_mod_twice(a, m);
}

/// Reading the runs of a file is gathering the records they cover.
pub proof fn law_runs_read<T>(file: Seq<T>, runs: Seq<Run>)
    requires
        forall|i: int|
            0 <= i < runs.len() ==> (#[trigger] runs[i]).off + runs[i].count <= file.len(),
    ensures
        runs_read(file, runs) == gather(file, runs_rows(runs)),
    decreases runs.len(),
{
    if runs.len() > 0 {
        let init = runs.drop_last();
        let last = runs.last();
        assert forall|i: int| 0 <= i < init.len() implies (#[trigger] init[i]).off + init[i].count
            <= file.len() by {
            assert(init[i] == runs[i]);
        }
        assert(last == runs[runs.len() - 1]);
        law_runs_read(file, init);
        let tail = Seq::new(last.count as nat, |k: int| last.off + k);
        assert(gather(file, runs_rows(init) + tail) =~= gather(file, runs_rows(init))
            + file.subrange(last.off as int, last.off + last.count));
    } else {
        assert(runs_read(file, runs) =~= gather(file, runs_rows(runs)));
    }
}

/// The rows of the first runs come first.
proof fn lemma_runs_prefix(runs: Seq<Run>, n: int)
    requires
        0 <= n <= runs.len(),
    ensures
        runs_rows(runs.take(n)).is_prefix_of(runs_rows(runs)),
    decreases runs.len() - n,
{
    if n < runs.len() {
        lemma_runs_prefix(runs, n + 1);
        assert(runs.take(n + 1).drop_last() =~= runs.take(n));
    } else {
        assert(runs.take(n) =~= runs);
    }
}

/// A file of raw records taken as a coset of `size` elements, from which windows are read on
/// demand.
pub struct DiskCoset {
    bytes: Vec<u8>,
    size: usize,
}

impl DiskCoset {
    /// The bytes of the file.
    pub closed spec fn file(&self) -> Seq<u8> {
        self.bytes@
    }

    /// The number of records.
    pub closed spec fn count(&self) -> nat {
        self.size as nat
    }

    /// The file holds the coset's records, and perhaps more.
    pub open spec fn holds(&self, coset: Seq<Fr>) -> bool {
        &&& coset.len() == self.count()
        &&& coset.len() * FR_SZ <= self.file().len()
        &&& is_raw_of(self.file().take(coset.len() * FR_SZ), coset)
    }

    /// The file goes on past a record.
    pub open spec fn has_record(&self, row: int) -> bool {
        (row + 1) * FR_SZ <= self.file().len()
    }

    /// Write a coset out as raw records.
    pub fn create(vals: &[Fr]) -> (r: Self)
        ensures
            r.count() == vals@.len(),
            is_raw_of(r.file(), vals@),
            r.holds(vals@),
    {
        let bytes = encode_raw(vals);
        let r = DiskCoset { bytes, size: vals.len() };
        assert(r.file().take(vals@.len() * FR_SZ) =~= bytes@);
        r
    }

    /// Take a file as a coset of `size` raw records. Whether it is long enough shows when they
    /// are read.
    pub fn open(bytes: Vec<u8>, size: usize) -> (r: Self)
        ensures
            r.count() == size,
            r.file() == bytes@,
    {
        DiskCoset { bytes, size }
    }

    /// The number of records.
    pub fn size(&self) -> (r: usize)
        ensures
            r == self.count(),
    {
        self.size
    }

    /// The window `[start - halo, start - halo + wl)`, taken around the domain: the elements
    /// whose raw bytes its records are. Nothing if the file ends before one of them.
    pub fn window(&self, start: usize, halo: usize, wl: usize) -> (r: Option<Vec<Fr>>)
        requires
            0 < self.count() <= i64::MAX,
            start <= i64::MAX,
            halo <= i64::MAX,
        ensures
            r is Some <==> forall|j: int|
                0 <= j < wl ==> self.has_record(
                    #[trigger] window_rows(
                        self.count() as int,
                        start as int,
                        halo as int,
                        wl as int,
                    )[j],
                ),
            r matches Some(v) ==> v@.len() == wl && forall|j: int| #![trigger v@[j]]
                0 <= j < wl ==> fr_raw(v@[j]) == record(
                    self.file(),
                    window_rows(self.count() as int, start as int, halo as int, wl as int)[j],
                ),
            r is Some <==> forall|j: int|
                0 <= j < wl ==> 32 * #[trigger] ((start - halo + j) % (self.count() as int)) + 32
                    <= self.file().len(),
            r matches Some(v) ==> forall|j: int| #![trigger v@[j]]
                0 <= j < wl ==> fr_raw(v@[j]) == self.file().subrange(
                    32 * ((start - halo + j) % (self.count() as int)),
                    32 * ((start - halo + j) % (self.count() as int)) + 32,
                ),
            forall|s: Seq<Fr>| #[trigger]
                self.holds(s) ==> r is Some && r->0@ == gather(
                    s,
                    window_rows(self.count() as int, start as int, halo as int, wl as int),
                ),
    {
        let runs = window_runs(self.size, start, halo, wl);
        let mut out: Vec<Fr> = Vec::with_capacity(wl);
        let all = self.bytes.as_slice();
        let held: usize = all.len() / FR_SZ;
        let ghost file = self.bytes@;
        let ghost rows = window_rows(self.size as int, start as int, halo as int, wl as int);
        assert(runs@.take(0) =~= Seq::<Run>::empty());
        for j in 0..runs.len()
            invariant
                file == self.bytes@,
                all@ == file,
                file.len() <= usize::MAX,
                held == file.len() / FR_SZ as nat,
                rows == window_rows(self.size as int, start as int, halo as int, wl as int),
                runs_rows(runs@) == rows,
                forall|i: int|
                    0 <= i < runs@.len() ==> 0 < (#[trigger] runs@[i]).count && runs@[i].off
                        + runs@[i].count <= self.size,
                out@.len() == runs_rows(runs@.take(j as int)).len(),
                forall|q: int|
                    0 <= q < out@.len() ==> self.has_record(#[trigger] rows[q]),
                forall|q: int| #![trigger out@[q]]
                    0 <= q < out@.len() ==> fr_raw(out@[q]) == record(file, rows[q]),
                forall|s: Seq<Fr>| #[trigger]
                    self.holds(s) ==> out@ == runs_read(s, runs@.take(j as int)),
        {
            let run = runs[j];
            let ghost tail = Seq::new(run.count as nat, |k: int| run.off + k);
            let ghost done = runs_rows(runs@.take(j as int));
            proof {
                assert(runs@[j as int] == run);
                assert(runs@.take(j + 1).drop_last() =~= runs@.take(j as int));
                assert(runs_rows(runs@.take(j + 1)) == done + tail);
                lemma_runs_prefix(runs@, j + 1);
                assert forall|q: int| done.len() <= q < done.len() + run.count implies
                    #[trigger] rows[q] == run.off + (q - done.len()) by {
                    assert((done + tail)[q] == tail[q - done.len()]);
                }
            }
            if run.off + run.count > held {
                proof {
                    let last = done.len() + run.count - 1;
                    assert(rows[last] == run.off + run.count - 1);
                    assert(!self.has_record(rows[last]));
                    assert((done + tail).len() <= rows.len());
                    assert forall|s: Seq<Fr>| #[trigger] self.holds(s) implies false by {}
                }
                return None;
            }
            let part = vstd::slice::slice_subrange(
                all,
                run.off * FR_SZ,
                (run.off + run.count) * FR_SZ,
            );
            let mut elems = decode_raw(part);
            let ghost before = out@;
            let ghost added = elems@;
            out.append(&mut elems);
            proof {
                assert(out@ =~= before + added);
                assert(added.len() == run.count);
                assert forall|q: int| 0 <= q < out@.len() implies self.has_record(
                    #[trigger] rows[q],
                ) by {
                    if q >= before.len() {
                        assert(rows[done.len() + (q - before.len())] == run.off + (q
                            - before.len()));
                    }
                }
                assert forall|q: int| #![trigger out@[q]]
                    0 <= q < out@.len() implies fr_raw(out@[q]) == record(file, rows[q]) by {
                    if q >= before.len() {
                        let k = q - before.len();
                        assert(rows[done.len() + k] == run.off + k);
                        assert(out@[q] == added[k]);
                        assert(record(part@, k) =~= record(file, run.off + k));
                    } else {
                        assert(out@[q] == before[q]);
                    }
                }
                assert forall|s: Seq<Fr>| #[trigger]
                    self.holds(s) implies out@ == runs_read(s, runs@.take(j + 1)) by {
                    let recs = file.take(s.len() * FR_SZ);
                    law_run_of_records(recs, s, run.off as int, run.count as int);
                    assert(part@ =~= recs.subrange(
                        run.off * FR_SZ,
                        (run.off + run.count) * FR_SZ,
                    ));
                    assert(is_raw_of(part@, s.subrange(run.off as int, run.off + run.count)));
                }
            }
        }
        proof {
            assert(runs@.take(runs@.len() as int) =~= runs@);
            assert forall|s: Seq<Fr>| #[trigger] self.holds(s) implies out@ == gather(s, rows) by {
                law_runs_read(s, runs@);
            }
            assert forall|j: int| 0 <= j < wl implies 32 * #[trigger] ((start - halo + j)
                % (self.count() as int)) + 32 <= self.file().len() by {
                assert(self.has_record(rows[j]));
            }
        }
        Some(out)
    }
}

} // verus!
