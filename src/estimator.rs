//! Count-Min Sketch of 8-bit saturating counters, and the TinyLFU oracle
//! that ages it over a window of observations.
use vstd::prelude::*;
use vstd::arithmetic::div_mod::lemma_fundamental_div_mod_converse;

verus! {

/// The largest value a counter of the sketch can hold.
pub const COUNTER_MAX: u8 = 255;

/// Numerator of the rational stand-in for Euler's number used to size the
/// sketch: the best continued-fraction convergent of e whose numerator fits
/// in 64 bits (it agrees with e to within 1e-38).
pub const E_NUM: u128 = 5739439214861417731;

/// Denominator of the rational stand-in for Euler's number.
pub const E_DEN: u128 = 2111421691000680031;

/// The value that t1ha's `T1haHasher`, started from `seed`, returns after
/// hashing the 64-bit `key`.
pub uninterp spec fn t1ha_digest(seed: u64, key: u64) -> u64;

/// Relies on t1ha's `T1haHasher::with_seed` and `finish`, fed the key
/// through `Hash for u64`: the digest is `t1ha0` of the key's bytes from the
/// seed. With t1ha's default features off there is no runtime CPU dispatch:
/// `t1ha0` is one fixed function for the build (the portable `t1ha1` on
/// 64-bit targets, `t1ha0_32` on 32-bit ones), so the digest depends on the
/// seed and the key alone.
#[verifier::external_body]
fn keyed_hash(seed: u64, key: u64) -> (r: u64)
    ensures
        r == t1ha_digest(seed, key),
{
    let mut hasher = t1ha::T1haHasher::with_seed(seed);
    std::hash::Hash::hash(&key, &mut hasher);
    std::hash::Hasher::finish(&hasher)
}

/// Relies on `fastrand::u64(..)`: some 64-bit value, nothing more is known.
#[verifier::external_body]
fn random_seed() -> (r: u64) {
    fastrand::u64(..)
}

/// Counter value after one saturating increment.
pub open spec fn sat_inc(v: u8) -> u8 {
    if v == COUNTER_MAX { v } else { (v + 1) as u8 }
}

pub open spec fn min_u8(a: u8, b: u8) -> u8 {
    if a <= b { a } else { b }
}

pub open spec fn min_nat(a: nat, b: nat) -> nat {
    if a <= b { a } else { b }
}

pub open spec fn max_nat(a: nat, b: nat) -> nat {
    if a >= b { a } else { b }
}

/// `ceil(a / b)` for `b > 0`.
pub open spec fn ceil_div(a: nat, b: nat) -> nat
    recommends b > 0,
{
    (a + b - 1) as nat / b
}

/// `ceil(log2(n))`, and 0 for `n <= 1`.
pub open spec fn ceil_log2(n: nat) -> nat
    decreases n,
{
    if n <= 1 { 0 } else { 1 + ceil_log2(ceil_div(n, 2)) }
}

/// Sketch width for `items` expected items: `max(16, ceil(e * items))`.
pub open spec fn optimal_width(items: nat) -> nat {
    max_nat(16, ceil_div(items * E_NUM as nat, E_DEN as nat))
}

/// Sketch depth for `items` expected items: `max(2, ceil(log2(items)))`,
/// which is `ceil(ln(1/items) / ln(0.5))`.
pub open spec fn optimal_depth(items: nat) -> nat {
    max_nat(2, ceil_log2(items))
}

/// The mathematical content of a sketch: one seed per row, the row width,
/// and the counters in row-major order.
pub ghost struct SketchModel {
    pub seeds: Seq<u64>,
    pub width: nat,
    pub cells: Seq<u8>,
}

impl SketchModel {
    pub open spec fn rows(self) -> nat {
        self.seeds.len()
    }

    pub open spec fn wf(self) -> bool {
        &&& self.width > 0
        &&& self.cells.len() == self.rows() * self.width
    }

    /// Column that `key` hashes to in row `i`.
    pub open spec fn slot(self, i: int, key: u64) -> int {
        t1ha_digest(self.seeds[i], key) as int % self.width as int
    }

    pub open spec fn counter(self, i: int, j: int) -> u8 {
        self.cells[i * self.width + j]
    }

    /// Minimum of the counters that `key` hashes to, over the first `n` rows
    /// (255 over no row).
    pub open spec fn min_over_rows(self, key: u64, n: nat) -> u8
        decreases n,
    {
        if n == 0 {
            COUNTER_MAX
        } else {
            min_u8(
                self.min_over_rows(key, (n - 1) as nat),
                self.counter(n - 1, self.slot(n - 1, key)),
            )
        }
    }

    /// Estimated frequency of `key`.
    pub open spec fn estimate(self, key: u64) -> u8 {
        self.min_over_rows(key, self.rows())
    }

    /// The sketch after one observation of `key`: in every row, the counter
    /// that `key` hashes to is incremented, saturating at 255.
    pub open spec fn incremented(self, key: u64) -> SketchModel {
        SketchModel {
            seeds: self.seeds,
            width: self.width,
            cells: Seq::new(
                self.cells.len(),
                |c: int|
                    if c % self.width as int == self.slot(c / self.width as int, key) {
                        sat_inc(self.cells[c])
                    } else {
                        self.cells[c]
                    },
            ),
        }
    }

    /// A sketch with the given seeds and width, every counter zero.
    pub open spec fn zeroed(seeds: Seq<u64>, width: nat) -> SketchModel {
        SketchModel { seeds, width, cells: Seq::new(seeds.len() * width, |c: int| 0u8) }
    }

    /// The sketch after aging: every counter shifted right by `shift` bits.
    pub open spec fn aged(self, shift: u8) -> SketchModel {
        SketchModel {
            seeds: self.seeds,
            width: self.width,
            cells: Seq::new(self.cells.len(), |c: int| (self.cells[c] >> shift) as u8),
        }
    }

    /// The sketch after observing each key of `keys` in turn.
    pub open spec fn incremented_all(self, keys: Seq<u64>) -> SketchModel
        decreases keys.len(),
    {
        if keys.len() == 0 {
            self
        } else {
            self.incremented_all(keys.drop_last()).incremented(keys.last())
        }
    }
}

/// Position of row `i`, column `j` in the row-major cells.
pub proof fn lemma_cell_index(i: int, j: int, rows: int, width: int)
    requires
        0 <= i < rows,
        0 <= j < width,
    ensures
        0 <= i * width + j < rows * width,
        (i * width + j) / width == i,
        (i * width + j) % width == j,
{
    assert(0 <= i * width + j < rows * width) by (nonlinear_arith)
        requires 0 <= i < rows, 0 <= j < width;
    lemma_fundamental_div_mod_converse(i * width + j, width, i, j);
}

/// One observation of `key` raises the estimate of any key `q` by at most
/// one, never past 255, and never lowers it.
pub proof fn lemma_increment_step(s: SketchModel, key: u64, q: u64)
    requires
        s.wf(),
    ensures
        s.estimate(q) <= s.incremented(key).estimate(q),
        s.incremented(key).estimate(q) as int <= min_nat(s.estimate(q) as nat + 1, 255),
{
    lemma_increment_step_rows(s, key, q, s.rows());
}

proof fn lemma_increment_step_rows(s: SketchModel, key: u64, q: u64, n: nat)
    requires
        s.wf(),
        n <= s.rows(),
    ensures
        s.min_over_rows(q, n) <= s.incremented(key).min_over_rows(q, n),
        s.incremented(key).min_over_rows(q, n) as int <= min_nat(s.min_over_rows(q, n) as nat + 1, 255),
    decreases n,
{
    if n > 0 {
        let t = s.incremented(key);
        let i = n - 1;
        lemma_increment_step_rows(s, key, q, (n - 1) as nat);
        let j = s.slot(i, q);
        assert(0 <= j < s.width) by {
            vstd::arithmetic::div_mod::lemma_mod_bound(t1ha_digest(s.seeds[i], q) as int, s.width as int);
        }
        lemma_cell_index(i, j, s.rows() as int, s.width as int);
    }
}

/// Monotonicity between agings: observing any keys never lowers the
/// estimate of `q`; and counting from a state where `q` was estimated `e`,
/// after `n` observations (of `q` or of any other key) with no aging in
/// between, the estimate of `q` is at most `min(e + n, 255)`. In particular
/// a key observed `n` times in a fresh sketch where nothing else is observed
/// is estimated at most `min(n, 255)`.
pub proof fn lemma_estimate_bounded_by_observations(s: SketchModel, keys: Seq<u64>, q: u64)
    requires
        s.wf(),
    ensures
        s.incremented_all(keys).wf(),
        s.incremented_all(keys).seeds == s.seeds,
        s.incremented_all(keys).width == s.width,
        s.estimate(q) <= s.incremented_all(keys).estimate(q),
        s.incremented_all(keys).estimate(q) as int <= min_nat(s.estimate(q) as nat + keys.len(), 255),
    decreases keys.len(),
{
    if keys.len() > 0 {
        let prev = s.incremented_all(keys.drop_last());
        lemma_estimate_bounded_by_observations(s, keys.drop_last(), q);
        lemma_increment_step(prev, keys.last(), q);
    }
}

/// Number of times `k` occurs in `keys`.
pub open spec fn count_of(keys: Seq<u64>, k: u64) -> nat
    decreases keys.len(),
{
    if keys.len() == 0 {
        0
    } else {
        count_of(keys.drop_last(), k) + if keys.last() == k { 1nat } else { 0nat }
    }
}

/// The estimate of `q` is at most its counter in any one row.
proof fn lemma_estimate_below_row(s: SketchModel, q: u64, n: nat, i: int)
    requires
        0 <= i < n,
    ensures
        s.min_over_rows(q, n) <= s.counter(i, s.slot(i, q)),
    decreases n,
{
    if i < n - 1 {
        lemma_estimate_below_row(s, q, (n - 1) as nat, i);
    }
}

/// The counter of `q` in row `i` grows only with the observations of `q`
/// when no other observed key shares its column in that row.
proof fn lemma_row_counter_bounded(s: SketchModel, keys: Seq<u64>, q: u64, i: int)
    requires
        s.wf(),
        0 <= i < s.rows(),
        forall|j: int| 0 <= j < keys.len() && keys[j] != q ==> s.slot(i, #[trigger] keys[j]) != s.slot(i, q),
    ensures
        s.incremented_all(keys).counter(i, s.slot(i, q)) as int <= min_nat(
            s.counter(i, s.slot(i, q)) as nat + count_of(keys, q),
            255,
        ),
    decreases keys.len(),
{
    if keys.len() > 0 {
        let init = keys.drop_last();
        assert forall|j: int| 0 <= j < init.len() && init[j] != q implies s.slot(i, #[trigger] init[j])
            != s.slot(i, q) by {
            assert(init[j] == keys[j]);
        }
        lemma_row_counter_bounded(s, init, q, i);
        lemma_estimate_bounded_by_observations(s, init, q);
        let prev = s.incremented_all(init);
        let x = keys.last();
        assert(keys[keys.len() - 1] == x);
        let j = s.slot(i, q);
        assert(0 <= j < s.width) by {
            vstd::arithmetic::div_mod::lemma_mod_bound(t1ha_digest(s.seeds[i], q) as int, s.width as int);
        }
        lemma_cell_index(i, j, s.rows() as int, s.width as int);
        assert(prev.slot(i, x) == s.slot(i, x));
        assert(prev.slot(i, q) == j);
    }
}

/// Count-Min bound for one key: when in some row `i` no other observed key
/// shares the column of `q`, observing `keys` (with no aging in between)
/// raises the estimate of `q` to at most that row's counter plus the number
/// of times `q` itself was observed, and never past 255. In a fresh sketch a
/// key observed `n` times is thus estimated at most `min(n, 255)`.
pub proof fn lemma_estimate_bounded_by_own_count(s: SketchModel, keys: Seq<u64>, q: u64, i: int)
    requires
        s.wf(),
        0 <= i < s.rows(),
        forall|j: int| 0 <= j < keys.len() && keys[j] != q ==> s.slot(i, #[trigger] keys[j]) != s.slot(i, q),
    ensures
        s.incremented_all(keys).estimate(q) as int <= min_nat(
            s.counter(i, s.slot(i, q)) as nat + count_of(keys, q),
            255,
        ),
{
    lemma_row_counter_bounded(s, keys, q, i);
    lemma_estimate_bounded_by_observations(s, keys, q);
    let t = s.incremented_all(keys);
    assert(t.slot(i, q) == s.slot(i, q));
    lemma_estimate_below_row(t, q, t.rows(), i);
}

/// The row of every cell lies below the number of rows.
pub proof fn lemma_row_of_cell(c: int, rows: int, width: int)
    requires
        0 <= c < rows * width,
        width > 0,
    ensures
        0 <= c / width < rows,
{
    vstd::arithmetic::div_mod::lemma_fundamental_div_mod(c, width);
    assert(0 <= c / width < rows) by (nonlinear_arith)
        requires
            0 <= c < rows * width,
            width > 0,
            c == width * (c / width) + c % width,
            0 <= c % width < width;
}

/// Stores estimated frequency of items in the cache.
///
/// Inner algorithm: Count-Min Sketch with counters limited to 8 bits.
pub struct Estimator {
    cells: Vec<u8>,
    seeds: Vec<u64>,
    width: usize,
}

impl View for Estimator {
    type V = SketchModel;

    closed spec fn view(&self) -> SketchModel {
        SketchModel { seeds: self.seeds@, width: self.width as nat, cells: self.cells@ }
    }
}

impl Estimator {
    pub open spec fn wf(&self) -> bool {
        &&& self@.wf()
        &&& self@.cells.len() <= usize::MAX
    }

    /// Find optimal parameters `(width, depth)` for a Count-Min Sketch that
    /// expects `items` items.
    pub fn optimal_params(items: usize) -> (r: (usize, usize))
        requires
            optimal_width(items as nat) <= usize::MAX,
        ensures
            r.0 == optimal_width(items as nat),
            r.1 == optimal_depth(items as nat),
    {
        let scaled: u128 = items as u128 * E_NUM;
        let w0: u128 = (scaled + (E_DEN - 1)) / E_DEN;
        let w: usize = if w0 < 16 { 16 } else { w0 as usize };
        let d0: usize = Self::ceil_log2(items);
        let d: usize = if d0 < 2 { 2 } else { d0 };
        (w, d)
    }

    /// Create a sketch with one row per seed of `seeds` and `slots` counters
    /// per row, all zero.
    pub fn with_seeds(seeds: Vec<u64>, slots: usize) -> (r: Self)
        requires
            slots > 0,
            seeds@.len() * slots <= usize::MAX,
        ensures
            r@ == SketchModel::zeroed(seeds@, slots as nat),
            r.wf(),
    {
        let total: usize = seeds.len() * slots;
        let mut cells: Vec<u8> = Vec::with_capacity(total);
        let mut c: usize = 0;
        while c < total
            invariant
                c <= total,
                cells@ == Seq::new(c as nat, |k: int| 0u8),
            decreases total - c,
        {
            cells.push(0);
            c += 1;
            assert(cells@ =~= Seq::new(c as nat, |k: int| 0u8));
        }
        Estimator { cells, seeds, width: slots }
    }

    /// Create a new Count-Min Sketch with `hashes` rows of `slots` counters,
    /// all zero, each row with its own random seed.
    pub fn new(hashes: usize, slots: usize) -> (r: Self)
        requires
            slots > 0,
            hashes * slots <= usize::MAX,
        ensures
            r.wf(),
            r@.rows() == hashes,
            r@.width == slots,
            r@ == SketchModel::zeroed(r@.seeds, slots as nat),
    {
        let mut seeds: Vec<u64> = Vec::with_capacity(hashes);
        let mut i: usize = 0;
        while i < hashes
            invariant
                i <= hashes,
                seeds@.len() == i,
            decreases hashes - i,
        {
            seeds.push(random_seed());
            i += 1;
        }
        Self::with_seeds(seeds, slots)
    }

    /// Create a new Count-Min Sketch with optimal parameters for `items`
    /// expected items.
    pub fn new_optimal(items: usize) -> (r: Self)
        requires
            optimal_depth(items as nat) * optimal_width(items as nat) <= usize::MAX,
        ensures
            r.wf(),
            r@.rows() == optimal_depth(items as nat),
            r@.width == optimal_width(items as nat),
            r@ == SketchModel::zeroed(r@.seeds, r@.width),
    {
        assert(optimal_width(items as nat) <= usize::MAX) by (nonlinear_arith)
            requires
                optimal_depth(items as nat) * optimal_width(items as nat) <= usize::MAX,
                optimal_depth(items as nat) >= 2;
        let (w, d) = Self::optimal_params(items);
        Self::new(d, w)
    }

    /// Column of row `i` that `key` hashes to.
    fn slot(&self, i: usize, key: u64) -> (j: usize)
        requires
            self.wf(),
            i < self@.rows(),
        ensures
            j == self@.slot(i as int, key),
            j < self@.width,
    {
        let h: u64 = keyed_hash(self.seeds[i], key);
        (h % (self.width as u64)) as usize
    }

    /// Get the estimated frequency of `key`: the minimum, over the rows, of
    /// the counter that `key` hashes to.
    pub fn get(&self, key: u64) -> (r: u8)
        requires
            self.wf(),
        ensures
            r == self@.estimate(key),
    {
        let mut min: u8 = COUNTER_MAX;
        let mut i: usize = 0;
        while i < self.seeds.len()
            invariant
                self.wf(),
                i <= self@.rows(),
                min == self@.min_over_rows(key, i as nat),
            decreases self@.rows() - i,
        {
            let j: usize = self.slot(i, key);
            proof {
                lemma_cell_index(i as int, j as int, self@.rows() as int, self.width as int);
            }
            let value: u8 = self.cells[i * self.width + j];
            if value < min {
                min = value;
            }
            i += 1;
        }
        min
    }

    /// Increment the frequency of `key` in every row, saturating at 255.
    ///
    /// Returns the minimum of the incremented counters.
    pub fn incr(&mut self, key: u64) -> (r: u8)
        requires
            old(self).wf(),
        ensures
            final(self).wf(),
            final(self)@ == old(self)@.incremented(key),
            r == final(self)@.estimate(key),
    {
        let ghost pre = self@;
        let ghost post = pre.incremented(key);
        let w: usize = self.width;
        let mut min: u8 = COUNTER_MAX;
        let mut i: usize = 0;
        while i < self.seeds.len()
            invariant
                self.wf(),
                self@.seeds == pre.seeds,
                self@.width == pre.width,
                w == self.width,
                pre.wf(),
                i <= pre.rows(),
                self.cells@.len() == pre.cells.len(),
                forall|c: int|
                    0 <= c < pre.cells.len() ==> #[trigger] self.cells@[c] == if c / (w as int) < i {
                        post.cells[c]
                    } else {
                        pre.cells[c]
                    },
                min == post.min_over_rows(key, i as nat),
                post == pre.incremented(key),
            decreases pre.rows() - i,
        {
            let j: usize = self.slot(i, key);
            proof {
                lemma_cell_index(i as int, j as int, pre.rows() as int, w as int);
            }
            let idx: usize = i * w + j;
            let ghost before = self.cells@;
            let mut value: u8 = self.cells[idx];
            let new_value: u8 = Self::incr_no_overflow(&mut value);
            self.cells.set(idx, value);
            if new_value < min {
                min = new_value;
            }
            proof {
                assert(idx as int / (w as int) == i && idx as int % (w as int) == j);
                assert(before[idx as int] == pre.cells[idx as int]);
                assert(post.cells[idx as int] == sat_inc(pre.cells[idx as int]));
                assert forall|c: int| 0 <= c < pre.cells.len() implies #[trigger] self.cells@[c]
                    == if c / (w as int) < i + 1 { post.cells[c] } else { pre.cells[c] } by {
                    if c != idx {
                        assert(self.cells@[c] == before[c]);
                        if c / (w as int) == i {
                            vstd::arithmetic::div_mod::lemma_fundamental_div_mod(c, w as int);
                            vstd::arithmetic::div_mod::lemma_fundamental_div_mod(idx as int, w as int);
                            assert(c % (w as int) != j);
                            assert(post.cells[c] == pre.cells[c]);
                        }
                    }
                }
                assert(post.counter(i as int, j as int) == new_value);
            }
            i += 1;
        }
        proof {
            assert forall|c: int| 0 <= c < pre.cells.len() implies #[trigger] self.cells@[c]
                == post.cells[c] by {
                lemma_row_of_cell(c, pre.rows() as int, w as int);
            }
            assert(self.cells@ =~= post.cells);
        }
        min
    }

    /// Age the sketch: shift every counter right by `shift` bits.
    pub fn age(&mut self, shift: u8)
        requires
            old(self).wf(),
            shift < 8,
        ensures
            final(self).wf(),
            final(self)@ == old(self)@.aged(shift),
    {
        let ghost pre = self@;
        let mut c: usize = 0;
        while c < self.cells.len()
            invariant
                self.wf(),
                shift < 8,
                self@.seeds == pre.seeds,
                self@.width == pre.width,
                c <= pre.cells.len(),
                self.cells@.len() == pre.cells.len(),
                forall|k: int|
                    0 <= k < pre.cells.len() ==> #[trigger] self.cells@[k] == if k < c {
                        pre.aged(shift).cells[k]
                    } else {
                        pre.cells[k]
                    },
            decreases pre.cells.len() - c,
        {
            let value: u8 = self.cells[c];
            self.cells.set(c, value >> shift);
            c += 1;
        }
        proof {
            assert(self.cells@ =~= pre.aged(shift).cells);
        }
    }

    /// Increment one counter without overflowing; returns the new value.
    fn incr_no_overflow(counter: &mut u8) -> (r: u8)
        ensures
            *final(counter) == sat_inc(*old(counter)),
            r == *final(counter),
    {
        if *counter < COUNTER_MAX {
            *counter = *counter + 1;
        }
        *counter
    }

    /// `ceil(log2(n))` by repeated halving, rounding up.
    fn ceil_log2(n: usize) -> (r: usize)
        ensures
            r == ceil_log2(n as nat),
        decreases n,
    {
        if n <= 1 {
            0
        } else {
            let half: usize = n / 2 + n % 2;
            assert(half as nat == ceil_div(n as nat, 2));
            let k: usize = Self::ceil_log2(half);
            assert(k < n) by {
                lemma_ceil_log2_below(half as nat);
            }
            1 + k
        }
    }
}

/// `ceil(log2(n)) <= n`, used to rule out overflow.
pub proof fn lemma_ceil_log2_below(n: nat)
    ensures
        ceil_log2(n) <= n,
    decreases n,
{
    if n > 1 {
        lemma_ceil_log2_below(ceil_div(n, 2));
    }
}

/// Frequency oracle without a doorkeeper: a sketch that is aged (halved)
/// once every `8 * cache_size` observations.
pub struct TinyLFU {
    estimator: Estimator,
    window_counter: usize,
    window_limit: usize,
}

impl TinyLFU {
    /// The frequencies the oracle holds.
    pub closed spec fn sketch(&self) -> SketchModel {
        self.estimator@
    }

    /// Observations since the last aging.
    pub closed spec fn window_counter(&self) -> nat {
        self.window_counter as nat
    }

    /// Number of observations after which the sketch is aged.
    pub closed spec fn window_limit(&self) -> nat {
        self.window_limit as nat
    }

    pub closed spec fn wf(&self) -> bool {
        &&& self.estimator.wf()
        &&& self.window_counter <= self.window_limit
        &&& self.window_limit < usize::MAX
    }

    /// `self` is `prev` after one observation of `key`: if the window was
    /// full the sketch is aged by one bit and a new window starts, then the
    /// key's counters are incremented.
    pub open spec fn observed(&self, prev: &TinyLFU, key: u64) -> bool {
        &&& self.wf()
        &&& self.window_limit() == prev.window_limit()
        &&& self.window_counter() == if prev.window_counter() >= prev.window_limit() {
            0
        } else {
            prev.window_counter() + 1
        }
        &&& self.sketch() == (if prev.window_counter() >= prev.window_limit() {
            prev.sketch().aged(1)
        } else {
            prev.sketch()
        }).incremented(key)
    }

    /// Create an oracle for a cache of `cache_size` entries, with an empty
    /// sketch of optimal parameters and an aging window of `8 * cache_size`.
    pub fn new(cache_size: usize) -> (r: Self)
        requires
            8 * cache_size <= usize::MAX,
            optimal_depth(cache_size as nat) * optimal_width(cache_size as nat) <= usize::MAX,
        ensures
            r.wf(),
            r.window_limit() == 8 * cache_size,
            r.window_counter() == 0,
            r.sketch().rows() == optimal_depth(cache_size as nat),
            r.sketch().width == optimal_width(cache_size as nat),
            r.sketch() == SketchModel::zeroed(r.sketch().seeds, r.sketch().width),
    {
        let estimator = Estimator::new_optimal(cache_size);
        Self::with_estimator(estimator, cache_size)
    }

    /// Create an oracle over the given sketch, with an aging window of
    /// `8 * cache_size` observations.
    pub fn with_estimator(estimator: Estimator, cache_size: usize) -> (r: Self)
        requires
            estimator.wf(),
            8 * cache_size <= usize::MAX,
        ensures
            r.wf(),
            r.window_limit() == 8 * cache_size,
            r.window_counter() == 0,
            r.sketch() == estimator@,
    {
        TinyLFU { estimator, window_counter: 0, window_limit: cache_size * 8 }
    }

    /// Estimated frequency of `key`.
    pub fn get(&mut self, key: u64) -> (r: u8)
        requires
            old(self).wf(),
        ensures
            *final(self) == *old(self),
            r == old(self).sketch().estimate(key),
    {
        self.estimator.get(key)
    }

    /// Observe `key`: age the sketch by one bit first if the window is full
    /// (and start a new window), then increment `key`'s counters. Returns the
    /// new estimate of `key`.
    pub fn incr(&mut self, key: u64) -> (r: u8)
        requires
            old(self).wf(),
        ensures
            final(self).observed(old(self), key),
            r == final(self).sketch().estimate(key),
    {
        let current_window_counter: usize = self.window_counter;
        self.window_counter = current_window_counter + 1;
        if current_window_counter >= self.window_limit {
            self.window_counter = 0;
            self.estimator.age(1);
        }
        self.estimator.incr(key)
    }
}

/// Aging on a full window: an observation of `x` made when the window is
/// full starts a new window and halves every counter before incrementing
/// `x`'s, so a key `q` whose column in row `i` `x` does not share is then
/// estimated at most half its counter there. A key counted once in such a
/// row is estimated 0 afterwards.
pub proof fn lemma_full_window_halves(prev: TinyLFU, next: TinyLFU, x: u64, q: u64, i: int)
    requires
        prev.wf(),
        next.observed(&prev, x),
        prev.window_counter() >= prev.window_limit(),
        0 <= i < prev.sketch().rows(),
        prev.sketch().slot(i, x) != prev.sketch().slot(i, q),
    ensures
        next.window_counter() == 0,
        next.sketch().estimate(q) <= (prev.sketch().counter(i, prev.sketch().slot(i, q)) >> 1u8),
{
    let s = prev.sketch();
    let a = s.aged(1);
    let t = next.sketch();
    let j = s.slot(i, q);
    assert(0 <= j < s.width) by {
        vstd::arithmetic::div_mod::lemma_mod_bound(t1ha_digest(s.seeds[i], q) as int, s.width as int);
    }
    lemma_cell_index(i, j, s.rows() as int, s.width as int);
    assert(t == a.incremented(x));
    assert(t.counter(i, j) == a.counter(i, j));
    assert(t.slot(i, q) == j);
    lemma_estimate_below_row(t, q, t.rows(), i);
}

} // verus!
