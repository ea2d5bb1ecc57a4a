//! Tiled, windowed access over the extended domain: the index arithmetic an out-of-core
//! quotient evaluator needs.
//!
//! A coset is read at `(idx + rot * rot_scale) mod size`: rotations wrap around the domain.
//! A tile `[s, s + len)` needs only the window `[s - halo, s + len + halo)` (mod `size`),
//! where `halo = max_rotation * rot_scale`. Inside the window no read wraps.

use halo2curves::bn256::Fr;
use vstd::arithmetic::div_mod::*;
use vstd::arithmetic::mul::*;
use vstd::prelude::*;

verus! {

/// The extended domain's tiling geometry.
#[derive(Clone, Copy, Debug)]
pub struct TileSpec {
    /// Extended-domain size.
    pub size: usize,
    /// Extension factor: one step of the circuit is this many extended-domain rows.
    pub rot_scale: i32,
    /// Window margin each side of a tile: the largest rotation times `rot_scale`.
    pub halo: usize,
}

/// The domain rows a window of `wl` rows from `start - halo` covers, wrapping at the
/// boundary.
pub open spec fn window_rows(size: int, start: int, halo: int, wl: int) -> Seq<int> {
    Seq::new(wl as nat, |j: int| (start - halo + j) % size)
}

/// The entries of `s` at the given places.
pub open spec fn gather<T>(s: Seq<T>, at: Seq<int>) -> Seq<T> {
    Seq::new(at.len(), |j: int| s[at[j]])
}

impl TileSpec {
    /// The geometry for a domain of `size` rows whose terms query rotations up to
    /// `max_abs_rotation` rows of the circuit either way.
    pub fn new(size: usize, rot_scale: i32, max_abs_rotation: usize) -> (r: Self)
        requires
            max_abs_rotation == 0 || (0 <= rot_scale && max_abs_rotation * rot_scale <= usize::MAX),
        ensures
            r.size == size,
            r.rot_scale == rot_scale,
            r.halo == max_abs_rotation * rot_scale,
    {
        proof {
            lemma_mul_basics(rot_scale as int);
            lemma_mul_basics((rot_scale as usize) as int);
        }
        TileSpec { size, rot_scale, halo: max_abs_rotation * rot_scale as usize }
    }

    /// The rotated index into the full extended coset.
    pub fn rotation_idx(&self, idx: usize, rot: i32) -> (r: usize)
        requires
            self.size as i32 != 0,
            i32::MIN <= rot * self.rot_scale <= i32::MAX,
            i32::MIN <= (idx as i32) + rot * self.rot_scale <= i32::MAX,
            self.size as i32 != -1 || i32::MIN < (idx as i32) + rot * self.rot_scale,
        ensures
            r == ((idx as i32) + rot * self.rot_scale) % (self.size as i32 as int),
    {
        let at: i32 = idx as i32 + rot * self.rot_scale;
        let m: i32 = self.size as i32;
        proof {
            lemma_mod_range(at as int, m as int);
        }
        at.checked_rem_euclid(m).unwrap() as usize
    }

    /// Number of records a tile of `len` rows needs resident.
    pub fn window_len(&self, len: usize) -> (r: usize)
        requires
            len + 2 * self.halo <= usize::MAX,
        ensures
            r == len + 2 * self.halo,
    {
        len + 2 * self.halo
    }

    /// The window `[start - halo, start + len + halo)` (mod `size`) of a coset in memory.
    pub fn window(&self, coset: &[Fr], start: usize, len: usize) -> (r: Vec<Fr>)
        requires
            0 < self.size <= coset@.len(),
            self.size <= i64::MAX,
            start <= i64::MAX,
            len + 2 * self.halo <= usize::MAX,
            len + 2 * self.halo <= i64::MAX,
            start + len + self.halo <= i64::MAX,
        ensures
            r@ == gather(
                coset@,
                window_rows(
                    self.size as int,
                    start as int,
                    self.halo as int,
                    len + 2 * self.halo,
                ),
            ),
            r@.len() == len + 2 * self.halo,
            forall|j: int|
                0 <= j < r@.len() ==> #[trigger] r@[j] == coset@[(start - self.halo + j)
                    % (self.size as int)],
    {
        let lo: i64 = start as i64 - self.halo as i64;
        let wl = self.window_len(len);
        let mut r: Vec<Fr> = Vec::new();
        let ghost rows = window_rows(self.size as int, start as int, self.halo as int, wl as int);
        for j in 0..wl
            invariant
                0 < self.size <= coset@.len(),
                self.size <= i64::MAX,
                lo == start - self.halo,
                lo + wl <= i64::MAX,
                wl <= i64::MAX,
                rows == window_rows(self.size as int, start as int, self.halo as int, wl as int),
                r@.len() == j,
                forall|k: int| 0 <= k < j ==> #[trigger] r@[k] == coset@[rows[k]],
        {
            let at: i64 = lo + j as i64;
            let m: i64 = self.size as i64;
            proof {
                lemma_mod_bound(at as int, m as int);
            }
            let idx: usize = at.checked_rem_euclid(m).unwrap() as usize;
            r.push(coset[idx]);
        }
        assert(r@ =~= gather(coset@, rows));
        r
    }

    /// Window-local position of row `i` of the tile under rotation `rot`: wrap-free as long
    /// as `|rot * rot_scale| <= halo`.
    pub fn local(&self, i: usize, rot: i32) -> (r: usize)
        requires
            i32::MIN <= rot * self.rot_scale <= i32::MAX,
            i32::MIN <= (self.halo as i32) + (i as i32) <= i32::MAX,
            i32::MIN <= (self.halo as i32) + (i as i32) + rot * self.rot_scale <= i32::MAX,
        ensures
            r == ((self.halo as i32) + (i as i32) + rot * self.rot_scale) as i32 as usize,
    {
        (self.halo as i32 + i as i32 + rot * self.rot_scale) as usize
    }
}

/// A remainder is non-negative and below the divisor's size, whatever the signs.
proof fn lemma_mod_range(a: int, m: int)
    requires
        m != 0,
    ensures
        0 <= a % m,
        a % m < m || a % m < -m,
{
    assert(0 <= a % m && (a % m < m || a % m < -m)) by (nonlinear_arith)
        requires
            m != 0,
    ;
}

/// Reading a tile through its window is reading the domain directly: the window's entry at
/// the local position of a rotated row is the coset's entry at the rotated index, for every
/// tile, wrapping or not, and every rotation the halo covers.
pub proof fn law_window_reads_rotations<T>(
    spec: TileSpec,
    coset: Seq<T>,
    start: int,
    len: int,
    i: int,
    rot: i32,
)
    requires
        0 < spec.size,
        spec.size == coset.len(),
        0 <= start,
        0 <= i < len,
        -spec.halo <= rot * spec.rot_scale <= spec.halo,
    ensures
        ({
            let rows = window_rows(spec.size as int, start, spec.halo as int, len + 2 * spec.halo);
            let local = spec.halo + i + rot * spec.rot_scale;
            &&& 0 <= local < len + 2 * spec.halo
            &&& gather(coset, rows)[local] == coset[(start + i + rot * spec.rot_scale)
                % spec.size as int]
        }),
{
}

} // verus!
