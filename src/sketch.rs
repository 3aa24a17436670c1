use vstd::multiset::Multiset;
use vstd::prelude::*;

verus! {

/// Euler's number to eighteen decimal places: `EULER_NUM / EULER_DEN`.
pub const EULER_NUM: u128 = 2718281828459045235;

pub const EULER_DEN: u128 = 1000000000000000000;

/// The largest `exponent` accepted for `epsilon = 10^-exponent`.
pub const MAX_EXPONENT: u32 = 9;

/// The prime modulus of the row hashes.
pub const HASH_MODULUS: u64 = 2147483647;

/// The multiplier of row 0; row `r` uses `HASH_BASE + 2 * r`.
pub const HASH_BASE: u64 = 1000003;

/// Why a sketch could not be configured.
#[derive(Debug, Clone, Copy, PartialEq, Eq, Structural)]
pub enum ConfigError {
    /// `epsilon = 10^-exponent` is below what a sketch can be sized for.
    Epsilon,
    /// The confidence, in percent, lies outside `(0, 100)`.
    Confidence,
    /// The sketch's `depth * width` counters do not fit in memory addresses.
    TooLarge,
}

pub open spec fn pow(b: nat, e: nat) -> nat
    decreases e,
{
    if e == 0 {
        1
    } else {
        b * pow(b, (e - 1) as nat)
    }
}

/// `ceil(e / epsilon)` for `epsilon = 10^-exponent`.
pub open spec fn width_for(exponent: nat) -> nat {
    ((EULER_NUM as int * pow(10, exponent) + EULER_DEN as int - 1) / EULER_DEN as int) as nat
}

/// `e^d >= 1 / (1 - confidence / 100)`, that is `d >= ln(1 / (1 - confidence / 100))`.
pub open spec fn depth_covers(confidence: nat, d: nat) -> bool {
    (100 - confidence) * pow(EULER_NUM as nat, d) >= 100 * pow(EULER_DEN as nat, d)
}

/// `d` is `ceil(ln(1 / (1 - confidence / 100)))`, and at least 1.
pub open spec fn is_depth_for(confidence: nat, d: nat) -> bool {
    &&& d >= 1
    &&& depth_covers(confidence, d)
    &&& forall|j: nat| 1 <= j < d ==> !depth_covers(confidence, j)
}

/// The hash of `key` in row `row`: a polynomial hash modulo a prime, with a
/// multiplier of its own for each row.
pub open spec fn row_hash(row: nat, key: Seq<u8>) -> nat
    decreases key.len(),
{
    if key.len() == 0 {
        ((row + 1) as int % HASH_MODULUS as int) as nat
    } else {
        ((row_hash(row, key.drop_last()) * (HASH_BASE + 2 * row) + key.last() + 1) as int
            % HASH_MODULUS as int) as nat
    }
}

pub open spec fn cell_of(counters: Seq<u64>, width: nat, r: int, c: int) -> u64 {
    counters[r * width + c]
}

pub open spec fn saturating_inc(x: u64) -> u64 {
    if x == u64::MAX {
        x
    } else {
        (x + 1) as u64
    }
}

pub open spec fn min_nat(a: nat, b: nat) -> nat {
    if a <= b {
        a
    } else {
        b
    }
}

/// What a sketch is: its dimensions, its counters row after row, and the keys
/// put into it so far.
pub struct SketchView {
    pub width: nat,
    pub depth: nat,
    pub counters: Seq<u64>,
    pub puts: Multiset<Seq<u8>>,
}

impl SketchView {
    pub open spec fn cell(self, r: int, c: int) -> u64 {
        cell_of(self.counters, self.width, r, c)
    }

    /// The column of `key` in row `r`.
    pub open spec fn column(self, r: nat, key: Seq<u8>) -> nat {
        row_hash(r, key) % self.width
    }

    /// The counter that row `r` keeps for `key`.
    pub open spec fn hit(self, r: nat, key: Seq<u8>) -> u64 {
        self.cell(r as int, self.column(r, key) as int)
    }

    /// The least of `key`'s counters over rows `0 .. n`.
    pub open spec fn min_hit(self, key: Seq<u8>, n: nat) -> u64
        decreases n,
    {
        if n <= 1 {
            self.hit(0, key)
        } else {
            let m = self.min_hit(key, (n - 1) as nat);
            let h = self.hit((n - 1) as nat, key);
            if h < m {
                h
            } else {
                m
            }
        }
    }

    /// What `get` answers: the least counter of `key` over all rows, absent
    /// when that is zero (some row proves that `key` was never put).
    pub open spec fn estimate(self, key: Seq<u8>) -> Option<u64> {
        let m = self.min_hit(key, self.depth);
        if m == 0 {
            None
        } else {
            Some(m)
        }
    }

    pub open spec fn wf(self) -> bool {
        &&& self.width >= 1
        &&& 1 <= self.depth <= 5
        &&& self.counters.len() == self.depth * self.width
        &&& forall|key: Seq<u8>, r: nat|
            r < self.depth ==> #[trigger] self.hit(r, key) >= min_nat(
                self.puts.count(key),
                u64::MAX as nat,
            )
    }
}

/// A count-min sketch: `depth` rows of `width` counters, each row with a hash
/// function of its own.
pub struct Sketch {
    width: usize,
    depth: usize,
    counters: Vec<u64>,
    puts: Ghost<Multiset<Seq<u8>>>,
}

impl View for Sketch {
    type V = SketchView;

    closed spec fn view(&self) -> SketchView {
        SketchView {
            width: self.width as nat,
            depth: self.depth as nat,
            counters: self.counters@,
            puts: self.puts@,
        }
    }
}

proof fn lemma_pow_mono(b: nat, i: nat, j: nat)
    requires
        b >= 1,
        i <= j,
    ensures
        pow(b, i) <= pow(b, j),
    decreases j,
{
    if i < j {
        lemma_pow_mono(b, i, (j - 1) as nat);
        assert(pow(b, (j - 1) as nat) <= b * pow(b, (j - 1) as nat)) by (nonlinear_arith)
            requires b >= 1;
    }
}

proof fn lemma_covers_values()
    ensures
        depth_covers(63, 1),
        !depth_covers(64, 1),
        depth_covers(86, 2),
        !depth_covers(87, 2),
        depth_covers(95, 3),
        !depth_covers(96, 3),
        depth_covers(98, 4),
        !depth_covers(99, 4),
        depth_covers(99, 5),
{
    reveal_with_fuel(pow, 6);
    let e = EULER_NUM as nat;
    let d = EULER_DEN as nat;
    assert(pow(e, 3) == e * e * e);
    assert(pow(d, 3) == d * d * d);
    assert(4 * (e * e * e) < 100 * (d * d * d));
}

proof fn lemma_covers_mono(c1: nat, c2: nat, d: nat)
    requires
        c1 <= c2 <= 100,
    ensures
        depth_covers(c2, d) ==> depth_covers(c1, d),
{
    let x = pow(EULER_NUM as nat, d);
    assert((100 - c1) * x >= (100 - c2) * x) by (nonlinear_arith)
        requires c1 <= c2 <= 100;
}

/// The depth for a confidence of `confidence` percent.
fn depth_for(confidence: u32) -> (d: usize)
    requires
        1 <= confidence <= 99,
    ensures
        is_depth_for(confidence as nat, d as nat),
        d <= 5,
{
    let ghost c = confidence as nat;
    proof {
        lemma_covers_values();
    }
    if confidence <= 63 {
        proof {
            lemma_covers_mono(c, 63, 1);
        }
        1
    } else if confidence <= 86 {
        proof {
            lemma_covers_mono(c, 86, 2);
            lemma_covers_mono(64, c, 1);
        }
        2
    } else if confidence <= 95 {
        proof {
            lemma_covers_mono(c, 95, 3);
            lemma_covers_mono(64, c, 1);
            lemma_covers_mono(87, c, 2);
        }
        3
    } else if confidence <= 98 {
        proof {
            lemma_covers_mono(c, 98, 4);
            lemma_covers_mono(64, c, 1);
            lemma_covers_mono(87, c, 2);
            lemma_covers_mono(96, c, 3);
        }
        4
    } else {
        proof {
            lemma_covers_mono(64, c, 1);
            lemma_covers_mono(87, c, 2);
            lemma_covers_mono(96, c, 3);
            lemma_covers_mono(99, c, 4);
        }
        5
    }
}

/// `10^exponent`.
pub fn pow10(exponent: u32) -> (p: u64)
    requires
        exponent <= MAX_EXPONENT,
    ensures
        p == pow(10, exponent as nat),
        1 <= p <= 1000000000,
{
    let mut p: u64 = 1;
    let mut i: u32 = 0;
    while i < exponent
        invariant
            i <= exponent <= MAX_EXPONENT,
            p as nat == pow(10, i as nat),
        decreases exponent - i,
    {
        proof {
            lemma_pow_mono(10, (i + 1) as nat, 9);
            reveal_with_fuel(pow, 10);
        }
        p = p * 10;
        i = i + 1;
    }
    proof {
        lemma_pow_mono(10, exponent as nat, 9);
        lemma_pow_mono(10, 0, exponent as nat);
        reveal_with_fuel(pow, 10);
    }
    p
}

/// The width for `epsilon = 10^-exponent`.
fn width_for_exponent(exponent: u32) -> (w: usize)
    requires
        exponent <= MAX_EXPONENT,
    ensures
        w as nat == width_for(exponent as nat),
        1 <= w <= 2718281829,
{
    let p = pow10(exponent) as u128;
    proof {
        lemma_pow_mono(10, exponent as nat, 9);
        lemma_pow_mono(10, 0, exponent as nat);
        reveal_with_fuel(pow, 10);
        assert(1 <= p <= 1000000000);
        let n = EULER_NUM as int;
        let d = EULER_DEN as int;
        let q = p as int;
        assert(n * q <= n * 1000000000) by (nonlinear_arith)
            requires q <= 1000000000, n >= 0;
        assert(n * q >= n) by (nonlinear_arith)
            requires q >= 1, n >= 0;
        assert((n * q + d - 1) / d <= (n * 1000000000 + d - 1) / d) by (nonlinear_arith)
            requires n * q <= n * 1000000000, d > 0;
        assert((n * q + d - 1) / d >= 1) by (nonlinear_arith)
            requires n * q >= n, n >= d, d > 0;
    }
    let w = (EULER_NUM * p + (EULER_DEN - 1)) / EULER_DEN;
    w as usize
}

proof fn lemma_cell_index(w: int, r1: int, c1: int, r2: int, c2: int)
    requires
        w >= 1,
        0 <= c1 < w,
        0 <= c2 < w,
        0 <= r1,
        0 <= r2,
    ensures
        r1 * w + c1 == r2 * w + c2 ==> r1 == r2 && c1 == c2,
{
    if r1 * w + c1 == r2 * w + c2 {
        if r1 < r2 {
            assert(r1 * w + c1 < r2 * w + c2) by (nonlinear_arith)
                requires r1 < r2, 0 <= c1 < w, 0 <= c2, w >= 1;
        } else if r2 < r1 {
            assert(r2 * w + c2 < r1 * w + c1) by (nonlinear_arith)
                requires r2 < r1, 0 <= c2 < w, 0 <= c1, w >= 1;
        }
    }
}

proof fn lemma_cell_in_bounds(w: int, d: int, r: int, c: int)
    requires
        0 <= r < d,
        0 <= c < w,
    ensures
        0 <= r * w + c < d * w,
{
    assert(0 <= r * w + c < d * w) by (nonlinear_arith)
        requires 0 <= r < d, 0 <= c < w;
}

impl Sketch {
    /// A sketch for `epsilon = 10^-exponent` and a confidence of `confidence`
    /// percent, with every counter at zero. `epsilon` is checked before the
    /// confidence.
    pub fn new(exponent: u32, confidence: u32) -> (r: Result<Sketch, ConfigError>)
        ensures
            r == Err::<Sketch, ConfigError>(ConfigError::Epsilon) <==> exponent > MAX_EXPONENT,
            r == Err::<Sketch, ConfigError>(ConfigError::Confidence) <==> exponent <= MAX_EXPONENT
                && !(0 < confidence < 100),
            r == Err::<Sketch, ConfigError>(ConfigError::TooLarge) <==> exponent <= MAX_EXPONENT
                && 0 < confidence < 100 && exists|d: nat|
                is_depth_for(confidence as nat, d) && d * width_for(exponent as nat) > usize::MAX,
            r matches Ok(s) ==> {
                &&& s@.wf()
                &&& s@.width == width_for(exponent as nat)
                &&& is_depth_for(confidence as nat, s@.depth)
                &&& s@.puts =~= Multiset::empty()
                &&& forall|i: int| 0 <= i < s@.counters.len() ==> s@.counters[i] == 0
                &&& forall|key: Seq<u8>| #[trigger] s@.estimate(key) is None
            },
    {
        if exponent > MAX_EXPONENT {
            return Err(ConfigError::Epsilon);
        }
        if !(0 < confidence && confidence < 100) {
            return Err(ConfigError::Confidence);
        }
        let width = width_for_exponent(exponent);
        let depth = depth_for(confidence);
        proof {
            lemma_depth_unique(confidence as nat, depth as nat);
        }
        let cells = match width.checked_mul(depth) {
            Some(n) => n,
            None => {
                return Err(ConfigError::TooLarge);
            },
        };
        let mut counters: Vec<u64> = Vec::new();
        let mut i: usize = 0;
        while i < cells
            invariant
                i <= cells,
                counters@.len() == i,
                forall|j: int| 0 <= j < i ==> counters@[j] == 0,
            decreases cells - i,
        {
            counters.push(0);
            i = i + 1;
        }
        assert(cells as int == depth * width) by (nonlinear_arith)
            requires cells as int == width * depth;
        let s = Sketch { width, depth, counters, puts: Ghost(Multiset::empty()) };
        assert forall|key: Seq<u8>, r: nat| r < s@.depth implies #[trigger] s@.hit(r, key)
            >= min_nat(s@.puts.count(key), u64::MAX as nat) by {
            assert(s@.puts.count(key) == 0);
        }
        assert forall|key: Seq<u8>| #[trigger] s@.estimate(key) is None by {
            lemma_min_hit_le_first(s@, key, s@.depth);
            lemma_cell_in_bounds(width as int, depth as int, 0, s@.column(0, key) as int);
        }
        Ok(s)
    }

    pub fn width(&self) -> (r: usize)
        ensures
            r == self@.width,
    {
        self.width
    }

    pub fn depth(&self) -> (r: usize)
        ensures
            r == self@.depth,
    {
        self.depth
    }

    /// The column of `key` in row `row`.
    fn column(&self, row: usize, key: &[u8]) -> (r: usize)
        requires
            self.width >= 1,
            row < 5,
        ensures
            r == self@.column(row as nat, key@),
            r < self@.width,
    {
        let m: u64 = HASH_BASE + 2 * (row as u64);
        let mut h: u64 = (row as u64) + 1;
        let mut i: usize = 0;
        while i < key.len()
            invariant
                row < 5,
                m == HASH_BASE + 2 * row,
                i <= key.len(),
                h as nat == row_hash(row as nat, key@.take(i as int)),
                h < HASH_MODULUS,
            decreases key.len() - i,
        {
            proof {
                assert(key@.take(i + 1).drop_last() =~= key@.take(i as int));
                assert(h * m <= 2147483647 * 1000011) by (nonlinear_arith)
                    requires h < 2147483647, m <= 1000011;
            }
            h = (h * m + (key[i] as u64) + 1) % HASH_MODULUS;
            i = i + 1;
        }
        assert(key@.take(i as int) =~= key@);
        (h % (self.width as u64)) as usize
    }

    /// Counts one more occurrence of `key`: one counter per row goes up by one
    /// (a counter at `u64::MAX` stays there). The dimensions never change.
    pub fn put(&mut self, key: &[u8])
        requires
            old(self)@.wf(),
        ensures
            final(self)@.wf(),
            final(self)@.width == old(self)@.width,
            final(self)@.depth == old(self)@.depth,
            final(self)@.counters.len() == old(self)@.counters.len(),
            final(self)@.puts == old(self)@.puts.insert(key@),
            forall|r: int, c: int|
                0 <= r < old(self)@.depth && 0 <= c < old(self)@.width ==> #[trigger] final(self)@.cell(r, c) == if c == old(self)@.column(r as nat, key@) {
                    saturating_inc(old(self)@.cell(r, c))
                } else {
                    old(self)@.cell(r, c)
                },
    {
        let ghost s0 = self@;
        let mut row: usize = 0;
        while row < self.depth
            invariant
                s0.wf(),
                self.width == s0.width,
                self.depth == s0.depth,
                self.puts@ == s0.puts,
                self.counters@.len() == s0.counters.len(),
                row <= self.depth,
                forall|r: int, c: int|
                    0 <= r < s0.depth && 0 <= c < s0.width ==> #[trigger] cell_of(
                        self.counters@,
                        s0.width,
                        r,
                        c,
                    ) == if r < row && c == s0.column(r as nat, key@) {
                        saturating_inc(s0.cell(r, c))
                    } else {
                        s0.cell(r, c)
                    },
            decreases self.depth - row,
        {
            let col = self.column(row, key);
            proof {
                lemma_cell_in_bounds(self.width as int, self.depth as int, row as int, col as int);
            }
            let len = self.counters.len();
            assert(row * self.width + col < len);
            assert(row * self.width <= row * self.width + col);
            let idx = row * self.width + col;
            let v = self.counters[idx];
            let nv = if v == u64::MAX {
                v
            } else {
                v + 1
            };
            let ghost before = self.counters@;
            self.counters.set(idx, nv);
            proof {
                assert forall|r: int, c: int|
                    0 <= r < s0.depth && 0 <= c < s0.width implies #[trigger] cell_of(
                    self.counters@,
                    s0.width,
                    r,
                    c,
                ) == if r < row + 1 && c == s0.column(r as nat, key@) {
                    saturating_inc(s0.cell(r, c))
                } else {
                    s0.cell(r, c)
                } by {
                    lemma_cell_index(s0.width as int, r, c, row as int, col as int);
                    lemma_cell_in_bounds(s0.width as int, s0.depth as int, r, c);
                    assert(cell_of(before, s0.width, r, c) == before[r * s0.width + c]);
                }
            }
            row = row + 1;
        }
        self.puts = Ghost(self.puts@.insert(key@));
        proof {
            let s1 = self@;
            assert forall|k: Seq<u8>, r: nat| r < s1.depth implies #[trigger] s1.hit(r, k)
                >= min_nat(s1.puts.count(k), u64::MAX as nat) by {
                assert(s0.hit(r, k) >= min_nat(s0.puts.count(k), u64::MAX as nat));
                assert(s1.column(r, k) == s0.column(r, k));
            }
            assert forall|r: int, c: int|
                0 <= r < s0.depth && 0 <= c < s0.width implies #[trigger] s1.cell(r, c) == if c
                == s0.column(r as nat, key@) {
                saturating_inc(s0.cell(r, c))
            } else {
                s0.cell(r, c)
            } by {
                assert(s1.cell(r, c) == cell_of(self.counters@, s0.width, r, c));
            }
        }
    }

    /// The estimated number of occurrences of `key`: the least of its counters
    /// over the rows, or `None` when that is zero.
    pub fn get(&self, key: &[u8]) -> (r: Option<u64>)
        requires
            self@.wf(),
        ensures
            r == self@.estimate(key@),
            self@.puts.count(key@) > 0 ==> (r matches Some(v) && v >= min_nat(
                self@.puts.count(key@),
                u64::MAX as nat,
            )),
    {
        let col0 = self.column(0, key);
        proof {
            lemma_cell_in_bounds(self.width as int, self.depth as int, 0, col0 as int);
        }
        let mut m = self.counters[col0];
        assert(m == self@.min_hit(key@, 1));
        let mut row: usize = 1;
        while row < self.depth
            invariant
                self@.wf(),
                1 <= row <= self@.depth,
                m == self@.min_hit(key@, row as nat),
            decreases self.depth - row,
        {
            let col = self.column(row, key);
            proof {
                lemma_cell_in_bounds(self.width as int, self.depth as int, row as int, col as int);
            }
            let len = self.counters.len();
            assert(row * self.width + col < len);
            assert(row * self.width <= row * self.width + col);
            let h = self.counters[row * self.width + col];
            if h < m {
                m = h;
            }
            row = row + 1;
        }
        proof {
            lemma_no_false_negative(self@, key@);
        }
        if m == 0 {
            None
        } else {
            Some(m)
        }
    }
}

proof fn lemma_depth_unique(confidence: nat, d: nat)
    requires
        is_depth_for(confidence, d),
    ensures
        forall|d2: nat| #[trigger] is_depth_for(confidence, d2) ==> d2 == d,
{
    assert forall|d2: nat| #[trigger] is_depth_for(confidence, d2) implies d2 == d by {
        if d2 < d {
            assert(!depth_covers(confidence, d2));
        } else if d < d2 {
            assert(!depth_covers(confidence, d));
        }
    }
}

proof fn lemma_min_hit_bound(s: SketchView, key: Seq<u8>, n: nat, b: nat)
    requires
        1 <= n,
        forall|r: nat| r < n ==> #[trigger] s.hit(r, key) >= b,
    ensures
        s.min_hit(key, n) >= b,
    decreases n,
{
    if n > 1 {
        lemma_min_hit_bound(s, key, (n - 1) as nat, b);
        assert(s.hit((n - 1) as nat, key) >= b);
    } else {
        assert(s.hit(0, key) >= b);
    }
}

proof fn lemma_min_hit_le_first(s: SketchView, key: Seq<u8>, n: nat)
    ensures
        s.min_hit(key, n) <= s.hit(0, key),
    decreases n,
{
    if n > 1 {
        lemma_min_hit_le_first(s, key, (n - 1) as nat);
    }
}

/// No false negatives: in a well-formed sketch, the estimate of a key that was
/// put `n` times is present and at least `n` (up to `u64::MAX`).
pub proof fn lemma_no_false_negative(s: SketchView, key: Seq<u8>)
    requires
        s.wf(),
    ensures
        s.puts.count(key) > 0 ==> (s.estimate(key) matches Some(v) && v >= min_nat(
            s.puts.count(key),
            u64::MAX as nat,
        )),
{
    let b = min_nat(s.puts.count(key), u64::MAX as nat);
    assert forall|r: nat| r < s.depth implies #[trigger] s.hit(r, key) >= b by {}
    lemma_min_hit_bound(s, key, s.depth, b);
}

} // verus!
