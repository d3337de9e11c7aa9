use vstd::prelude::*;

use vstd::slice::{slice_subrange, slice_to_vec};
use vstd::string::StringSliceAdditionalSpecFns;

use crate::kernel::StringSearch;
use crate::occurrence::{is_all_matches, is_first_match, lemma_matches_in_suffix, matches_at};

verus! {

/// The largest modulus used: `15 * 2^27 + 1`; field products of two residues fit in `u64`.
pub const MODULUS: u64 = 2013265921;

/// The largest transform size any field supports.
pub const OMEGA_POWER: u64 = 134217728;

/// A prime field for the number-theoretic transform: its modulus, a root of unity `omega` of
/// order `order` (a power of two, the largest transform size it supports), and its inverse.
#[derive(Clone, Copy)]
pub struct Field {
    pub modulus: u64,
    pub omega: u64,
    pub inv_omega: u64,
    pub order: u64,
}

/// `f` can carry a transform: a modulus above every squared byte and at most `MODULUS`, residues below it, and an order
/// that is a power of two of at most `2^27`.
pub open spec fn field_ok(f: Field) -> bool {
    &&& 65536 < f.modulus <= MODULUS
    &&& f.omega < f.modulus
    &&& f.inv_omega < f.modulus
    &&& is_pow2(f.order as nat)
    &&& 2 <= f.order <= OMEGA_POWER
}

/// The small field: `119 * 2^23 + 1`, with a root of order `2^23`.
pub fn small_field() -> (r: Field)
    ensures
        field_ok(r),
        r.order >= 64,
{
    assert(is_pow2(8388608)) by {
        reveal_with_fuel(is_pow2, 30);
    }
    Field { modulus: 998244353, omega: 15311432, inv_omega: 469870224, order: 8388608 }
}

/// The medium field: `7 * 2^26 + 1`, with a root of order `2^26`.
pub fn medium_field() -> (r: Field)
    ensures
        field_ok(r),
        r.order >= 128,
{
    assert(is_pow2(67108864)) by {
        reveal_with_fuel(is_pow2, 30);
    }
    Field { modulus: 469762049, omega: 2187, inv_omega: 410692747, order: 67108864 }
}

/// The large field: `15 * 2^27 + 1`, with a root of order `2^27`.
pub fn large_field() -> (r: Field)
    ensures
        field_ok(r),
        r.order == OMEGA_POWER,
{
    assert(is_pow2(134217728)) by {
        reveal_with_fuel(is_pow2, 30);
    }
    Field { modulus: 2013265921, omega: 1985266761, inv_omega: 1885204058, order: 134217728 }
}

/// `x` is a power of two.
pub open spec fn is_pow2(x: nat) -> bool
    decreases x,
{
    if x == 1 {
        true
    } else if x < 2 || x % 2 != 0 {
        false
    } else {
        is_pow2(x / 2)
    }
}

/// `a + b` in the field.
fn fadd(m: u64, a: u64, b: u64) -> (r: u64)
    requires
        2 <= m <= MODULUS,
        a < m,
        b < m,
    ensures
        r == (a + b) % (m as int),
        r < m,
{
    (a + b) % m
}

/// `a - b` in the field.
fn fsub(m: u64, a: u64, b: u64) -> (r: u64)
    requires
        2 <= m <= MODULUS,
        a < m,
        b < m,
    ensures
        r == (m + a - b) % (m as int),
        r < m,
{
    (m + a - b) % m
}

/// `a * b` in the field.
fn fmul(m: u64, a: u64, b: u64) -> (r: u64)
    requires
        2 <= m <= MODULUS,
        a < m,
        b < m,
    ensures
        r == (a * b) % (m as int),
        r < m,
{
    assert(a * b < 0x4000000000000000) by (nonlinear_arith)
        requires
            a < m,
            b < m,
            m <= 2013265921,
    ;
    (a * b) % m
}

/// `base ^ pw` in the field, by repeated squaring.
fn fast_pow(m: u64, base: u64, pw: u64) -> (r: u64)
    requires
        2 <= m <= MODULUS,
        base < m,
    ensures
        r < m,
{
    let mut res: u64 = 1;
    let mut b = base;
    let mut p = pw;
    while p != 0
        invariant
            2 <= m <= MODULUS,
            res < m,
            b < m,
        decreases p,
    {
        if p & 1 == 1 {
            res = fmul(m, b, res);
        }
        assert(p >> 1 < p) by (bit_vector)
            requires
                p != 0,
        ;
        p = p >> 1;
        b = fmul(m, b, b);
    }
    res
}

/// The powers `t^0, t^1, ..., t^(size - 1)`.
fn get_twiddles(m: u64, size: usize, t: u64) -> (r: Vec<u64>)
    requires
        2 <= m <= MODULUS,
        t < m,
    ensures
        r@.len() == size,
        forall|i: int| 0 <= i < size ==> #[trigger] r@[i] < m,
{
    let mut res: Vec<u64> = Vec::new();
    if size == 0 {
        return res;
    }
    res.push(1);
    let mut i: usize = 1;
    while i < size
        invariant
            1 <= i <= size,
            2 <= m <= MODULUS,
            t < m,
            res@.len() == i,
            forall|k: int| 0 <= k < i ==> #[trigger] res@[k] < m,
        decreases size - i,
    {
        let v = fmul(m, res[i - 1], t);
        res.push(v);
        i += 1;
    }
    res
}

/// The least power of two that is at least `value`.
fn pow2_at_least(value: u64) -> (r: u64)
    requires
        1 < value <= 0x100000000,
    ensures
        r >= value,
        is_pow2(r as nat),
        r / 2 < value,
{
    let mut p: u64 = 1;
    while p < value
        invariant
            1 < value <= 0x100000000,
            is_pow2(p as nat),
            p == 1 || p / 2 < value,
            p < 2 * value,
        decreases 2 * value - p,
    {
        assert(is_pow2((p * 2) as nat)) by {
            assert((p * 2) as nat / 2 == p as nat);
        }
        p = p * 2;
    }
    p
}

/// The number-theoretic transform of size `n`, with its twiddle factors.
pub struct Fft {
    n: usize,
    modulus: u64,
    twiddles: Vec<u64>,
    itwiddles: Vec<u64>,
}

impl Fft {
    pub closed spec fn wf(&self) -> bool {
        &&& is_pow2(self.n as nat)
        &&& 2 <= self.n <= OMEGA_POWER
        &&& 2 <= self.modulus <= MODULUS
        &&& self.twiddles@.len() == self.n
        &&& self.itwiddles@.len() == self.n
        &&& forall|i: int| 0 <= i < self.n ==> #[trigger] self.twiddles@[i] < self.modulus
        &&& forall|i: int| 0 <= i < self.n ==> #[trigger] self.itwiddles@[i] < self.modulus
    }

    pub closed spec fn size(&self) -> nat {
        self.n as nat
    }

    pub closed spec fn modulus_spec(&self) -> u64 {
        self.modulus
    }

    /// The transform of size `n` over `field`: its root of unity is `omega^(order / n)`.
    fn new(n: u64, field: Field) -> (r: Self)
        requires
            is_pow2(n as nat),
            2 <= n <= field.order,
            field_ok(field),
        ensures
            r.wf(),
            r.size() == n,
            r.modulus_spec() == field.modulus,
            r.modulus_spec() > 65536,
    {
        let m = field.modulus;
        let phi = fast_pow(m, field.omega, field.order / n);
        let iphi = fast_pow(m, field.inv_omega, field.order / n);
        let twiddles = get_twiddles(m, n as usize, phi);
        let itwiddles = get_twiddles(m, n as usize, iphi);
        Fft { n: n as usize, modulus: m, twiddles, itwiddles }
    }

    /// The forward transform in place, decimation in frequency.
    fn fft(&self, x: &mut Vec<u64>)
        requires
            self.wf(),
            old(x)@.len() == self.n,
            forall|i: int| 0 <= i < old(x)@.len() ==> #[trigger] old(x)@[i] < self.modulus,
        ensures
            final(x)@.len() == self.n,
            forall|i: int| 0 <= i < final(x)@.len() ==> #[trigger] final(x)@[i] < self.modulus,
    {
        let n = self.n;
        let mut l = n / 2;
        let mut blocks: usize = 1;
        while l >= 1
            invariant
                self.wf(),
                n == self.n,
                x@.len() == n,
                forall|i: int| 0 <= i < x@.len() ==> #[trigger] x@[i] < self.modulus,
                l * 2 * blocks == n || l == 0,
                l >= 1 ==> is_pow2(l as nat) || l == 1,
                blocks >= 1,
                blocks <= n,
            decreases l,
        {
            let mut i: usize = 0;
            while i < blocks
                invariant
                    self.wf(),
                    n == self.n,
                    x@.len() == n,
                    forall|q: int| 0 <= q < x@.len() ==> #[trigger] x@[q] < self.modulus,
                    l * 2 * blocks == n,
                    l >= 1,
                    i <= blocks,
                decreases blocks - i,
            {
                assert(i * (2 * l) + 2 * l <= n) by (nonlinear_arith)
                    requires
                        i < blocks,
                        l * 2 * blocks == n,
                ;
                let base = i * (2 * l);
                let mut k: usize = 0;
                while k < l
                    invariant
                        self.wf(),
                        n == self.n,
                        x@.len() == n,
                        forall|q: int| 0 <= q < x@.len() ==> #[trigger] x@[q] < self.modulus,
                        base + 2 * l <= n,
                        l * 2 * blocks == n,
                        k <= l,
                    decreases l - k,
                {
                    assert(k * blocks < n) by (nonlinear_arith)
                        requires
                            k < l,
                            l * 2 * blocks == n,
                            blocks >= 1,
                    ;
                    let w = self.twiddles[(k * blocks) % n];
                    let a = x[base + k];
                    let b = x[base + k + l];
                    x.set(base + k, fadd(self.modulus, a, b));
                    x.set(base + k + l, fmul(self.modulus, fsub(self.modulus, a, b), w));
                    k += 1;
                }
                i += 1;
            }
            if l == 1 {
                l = 0;
            } else {
                assert(l % 2 == 0) by {
                    assert(is_pow2(l as nat));
                }
                assert((l / 2) * 2 * (blocks * 2) == n) by (nonlinear_arith)
                    requires
                        l % 2 == 0,
                        l * 2 * blocks == n,
                ;
                assert(blocks * 2 <= n) by (nonlinear_arith)
                    requires
                        l * 2 * blocks == n,
                        l >= 2,
                ;
                l = l / 2;
                blocks = blocks * 2;
            }
        }
    }

    /// The inverse transform in place, decimation in time, without the division by `n`.
    fn ifft(&self, x: &mut Vec<u64>)
        requires
            self.wf(),
            old(x)@.len() == self.n,
            forall|i: int| 0 <= i < old(x)@.len() ==> #[trigger] old(x)@[i] < self.modulus,
        ensures
            final(x)@.len() == self.n,
            forall|i: int| 0 <= i < final(x)@.len() ==> #[trigger] final(x)@[i] < self.modulus,
    {
        let n = self.n;
        let mut l: usize = 1;
        let mut blocks: usize = n / 2;
        assert(is_pow2(n as nat) && n >= 2 ==> n % 2 == 0);
        while l < n
            invariant
                self.wf(),
                n == self.n,
                x@.len() == n,
                forall|i: int| 0 <= i < x@.len() ==> #[trigger] x@[i] < self.modulus,
                l * 2 * blocks == n || l == n,
                l >= 1,
                l < n ==> blocks >= 1 && is_pow2(blocks as nat),
                l <= n,
            decreases n - l,
        {
            let mut i: usize = 0;
            while i < blocks
                invariant
                    self.wf(),
                    n == self.n,
                    x@.len() == n,
                    forall|q: int| 0 <= q < x@.len() ==> #[trigger] x@[q] < self.modulus,
                    l * 2 * blocks == n,
                    l >= 1,
                    i <= blocks,
                decreases blocks - i,
            {
                assert(i * (2 * l) + 2 * l <= n) by (nonlinear_arith)
                    requires
                        i < blocks,
                        l * 2 * blocks == n,
                ;
                let base = i * (2 * l);
                let mut k: usize = 0;
                while k < l
                    invariant
                        self.wf(),
                        n == self.n,
                        x@.len() == n,
                        forall|q: int| 0 <= q < x@.len() ==> #[trigger] x@[q] < self.modulus,
                        base + 2 * l <= n,
                        l * 2 * blocks == n,
                        k <= l,
                    decreases l - k,
                {
                    assert(k * blocks < n) by (nonlinear_arith)
                        requires
                            k < l,
                            l * 2 * blocks == n,
                            blocks >= 1,
                    ;
                    let w = self.itwiddles[(k * blocks) % n];
                    let a = x[base + k];
                    let b = fmul(self.modulus, x[base + k + l], w);
                    x.set(base + k, fadd(self.modulus, a, b));
                    x.set(base + k + l, fsub(self.modulus, a, b));
                    k += 1;
                }
                i += 1;
            }
            if blocks == 1 {
                assert(l * 2 == n);
                l = n;
            } else {
                assert(blocks % 2 == 0) by {
                    assert(is_pow2(blocks as nat));
                }
                assert((l * 2) * 2 * (blocks / 2) == n) by (nonlinear_arith)
                    requires
                        blocks % 2 == 0,
                        l * 2 * blocks == n,
                ;
                assert(l * 2 < n) by (nonlinear_arith)
                    requires
                        l * 2 * blocks == n,
                        blocks >= 2,
                        l >= 1,
                ;
                l = l * 2;
                blocks = blocks / 2;
            }
        }
    }
}

/// A pattern for the convolution kernels, with its wildcard byte `_`.
#[derive(Debug, Clone)]
pub struct FftConfig {
    pattern: Vec<u8>,
    wildcard: u8,
}

impl FftConfig {
    pub closed spec fn pattern_spec(&self) -> Seq<u8> {
        self.pattern@
    }

    pub closed spec fn wildcard_spec(&self) -> u8 {
        self.wildcard
    }

    /// The configuration for `pattern`; `_` is the wildcard.
    pub fn new(pattern: &[u8]) -> (r: Self)
        ensures
            r.pattern_spec() == pattern@,
            r.wildcard_spec() == 0x5fu8,
    {
        FftConfig { pattern: slice_to_vec(pattern), wildcard: 0x5fu8 }
    }

    /// The configuration for the bytes of `pattern`.
    pub fn from_str(pattern: &str) -> (r: Self)
        ensures
            r.pattern_spec() == pattern.spec_bytes(),
            r.wildcard_spec() == 0x5fu8,
    {
        Self::new(pattern.as_bytes())
    }

    pub fn pattern(&self) -> (r: &[u8])
        ensures
            r@ == self.pattern_spec(),
    {
        self.pattern.as_slice()
    }

    pub fn wildcard(&self) -> (r: u8)
        ensures
            r == self.wildcard_spec(),
    {
        self.wildcard
    }
}

/// The transformed images of a pattern: prefix sums of `n * p^2` over its active bytes, and
/// the transforms of the reversed activity mask and of the reversed active bytes.
pub struct ImplActual {
    pattern: Vec<u8>,
    n: usize,
    p0: Vec<u64>,
    p1: Vec<u64>,
    p2: Vec<u64>,
    fft: Fft,
}

impl ImplActual {
    pub closed spec fn wf(&self) -> bool {
        &&& self.fft.wf()
        &&& self.fft.size() == self.n
        &&& 65536 < self.fft.modulus <= MODULUS
        &&& 1 <= self.pattern@.len()
        &&& 3 * self.pattern@.len() <= self.n
        &&& self.p0@.len() == self.n
        &&& self.p1@.len() == self.n
        &&& self.p2@.len() == self.n
        &&& forall|i: int| 0 <= i < self.n ==> #[trigger] self.p0@[i] < self.fft.modulus
        &&& forall|i: int| 0 <= i < self.n ==> #[trigger] self.p1@[i] < self.fft.modulus
        &&& forall|i: int| 0 <= i < self.n ==> #[trigger] self.p2@[i] < self.fft.modulus
    }

    pub closed spec fn pattern_spec(&self) -> Seq<u8> {
        self.pattern@
    }

    /// The images of `pattern` for transforms of size `n`; bytes equal to `wildcard` are
    /// inactive.
    fn new(n: u64, field: Field, pattern: &[u8], wildcard: u8) -> (r: Self)
        requires
            is_pow2(n as nat),
            2 <= n <= field.order,
            field_ok(field),
            1 <= pattern@.len(),
            3 * pattern@.len() <= n,
        ensures
            r.wf(),
            r.pattern_spec() == pattern@,
    {
        let size = n as usize;
        let m = pattern.len();
        let q = field.modulus;
        let fft = Fft::new(n, field);
        let mut p0: Vec<u64> = vec![0u64; size];
        let mut p1: Vec<u64> = vec![0u64; size];
        let mut p2: Vec<u64> = vec![0u64; size];
        let mut i: usize = 0;
        while i < m
            invariant
                m == pattern@.len(),
                3 * m <= size,
                size == n,
                n <= OMEGA_POWER,
                65536 < q <= MODULUS,
                i <= m,
                p0@.len() == size,
                forall|j: int| 0 <= j < size ==> #[trigger] p0@[j] < q,
            decreases m - i,
        {
            let c = pattern[i] as u64;
            assert(c * c <= 255 * 255) by (nonlinear_arith)
                requires
                    c <= 255,
            ;
            let active: u64 = if pattern[i] != wildcard {
                1
            } else {
                0
            };
            assert(c <= 255);
            let cc = c * c;
            assert(cc * active * n <= 255 * 255 * 134217728) by (nonlinear_arith)
                requires
                    cc <= 255 * 255,
                    active <= 1,
                    n <= 134217728,
            ;
            assert(cc * active <= 255 * 255) by (nonlinear_arith)
                requires
                    cc <= 255 * 255,
                    active <= 1,
            ;
            let value = (cc * active * n) % q;
            let v = fadd(q, p0[i], value);
            p0.set(i + 1, v);
            i += 1;
        }
        i = 0;
        while i < m
            invariant
                m == pattern@.len(),
                3 * m <= size,
                i <= m,
                65536 < q <= MODULUS,
                p1@.len() == size,
                p2@.len() == size,
                forall|j: int| 0 <= j < size ==> #[trigger] p1@[j] < q,
                forall|j: int| 0 <= j < size ==> #[trigger] p2@[j] < q,
            decreases m - i,
        {
            let c = pattern[m - i - 1];
            let active: u64 = if c != wildcard {
                1
            } else {
                0
            };
            p1.set(i, active);
            p2.set(i, (c as u64) * active);
            i += 1;
        }
        fft.fft(&mut p1);
        fft.fft(&mut p2);
        ImplActual { pattern: slice_to_vec(pattern), n: size, p0, p1, p2, fft }
    }

    /// The correlations of text block `tt` with the pattern images: the inverse transforms of
    /// `F(t^2) * F(mask)` and of `F(t) * F(p)`.
    fn compute(&self, tt: &[u8]) -> (r: (Vec<u64>, Vec<u64>))
        requires
            self.wf(),
            tt@.len() <= self.n,
        ensures
            r.0@.len() == self.n,
            r.1@.len() == self.n,
            forall|i: int| 0 <= i < self.n ==> #[trigger] r.0@[i] < self.fft.modulus,
            forall|i: int| 0 <= i < self.n ==> #[trigger] r.1@[i] < self.fft.modulus,
    {
        let n = self.n;
        let mut t1: Vec<u64> = vec![0u64; n];
        let mut t2: Vec<u64> = vec![0u64; n];
        let mut idx: usize = 0;
        while idx < tt.len()
            invariant
                self.wf(),
                n == self.n,
                tt@.len() <= n,
                idx <= tt@.len(),
                t1@.len() == n,
                t2@.len() == n,
                forall|q: int| 0 <= q < n ==> #[trigger] t1@[q] < self.fft.modulus,
                forall|q: int| 0 <= q < n ==> #[trigger] t2@[q] < self.fft.modulus,
            decreases tt@.len() - idx,
        {
            let v = tt[idx] as u64;
            assert(v * v <= 255 * 255) by (nonlinear_arith)
                requires
                    v <= 255,
            ;
            t1.set(idx, v * v);
            t2.set(idx, v);
            idx += 1;
        }
        self.fft.fft(&mut t1);
        self.fft.fft(&mut t2);
        let mut i: usize = 0;
        while i < n
            invariant
                self.wf(),
                n == self.n,
                i <= n,
                t1@.len() == n,
                t2@.len() == n,
                forall|q: int| 0 <= q < n ==> #[trigger] t1@[q] < self.fft.modulus,
                forall|q: int| 0 <= q < n ==> #[trigger] t2@[q] < self.fft.modulus,
            decreases n - i,
        {
            let a = fmul(self.fft.modulus, t1[i], self.p1[i]);
            let b = fmul(self.fft.modulus, t2[i], self.p2[i]);
            t1.set(i, a);
            t2.set(i, b);
            i += 1;
        }
        self.fft.ifft(&mut t1);
        self.fft.ifft(&mut t2);
        (t1, t2)
    }

    /// Whether the pattern matches `text` at `pos`, an `_` matching any byte.
    fn confirm(&self, text: &[u8], pos: usize) -> (r: bool)
        ensures
            r == matches_at(text@, self.pattern@, true, pos as int),
    {
        let m = self.pattern.len();
        let n = text.len();
        if pos > n || m > n - pos {
            return false;
        }
        let mut k: usize = 0;
        while k < m
            invariant
                m == self.pattern@.len(),
                n == text@.len(),
                pos + m <= n,
                k <= m,
                forall|j: int| 0 <= j < k ==> #[trigger] text@[pos + j] == self.pattern@[j] || self.pattern@[j] == 0x5fu8,
            decreases m - k,
        {
            if self.pattern[k] != 0x5fu8 && text[pos + k] != self.pattern[k] {
                return false;
            }
            k += 1;
        }
        true
    }

    /// The first position where the convolution sums of the pattern against `text` vanish and
    /// the bytes agree, block by block: blocks of `n + 1 - m` bytes that overlap by `m - 1`.
    fn find_first(&self, text: &[u8]) -> (r: Option<usize>)
        requires
            self.wf(),
        ensures
            r matches Some(i) ==> matches_at(text@, self.pattern@, true, i as int),
    {
        let m = self.pattern.len();
        let n = self.n;
        let len = text.len();
        if len < m {
            return None;
        }
        let ts = n + 1 - m;
        let match_start = m - 1;
        let matchable = ts - m + 1;
        let limit = len - m + 1;
        let mut offset: usize = 0;
        while offset < limit
            invariant
                self.wf(),
                m == self.pattern@.len(),
                n == self.n,
                len == text@.len(),
                ts == n + 1 - m,
                match_start == m - 1,
                matchable == ts - m + 1,
                matchable >= 1,
                limit == len - m + 1,
            decreases limit - offset,
        {
            let end = if ts > len - offset {
                len
            } else {
                offset + ts
            };
            let tt = slice_subrange(text, offset, end);
            let (t1, t2) = self.compute(tt);
            let remaining = if tt.len() >= m {
                tt.len() - m + 1
            } else {
                1
            };
            let max_j = if matchable < remaining {
                matchable
            } else {
                remaining
            };
            let mut j: usize = 0;
            while j < max_j
                invariant
                    self.wf(),
                    m == self.pattern@.len(),
                    n == self.n,
                    len == text@.len(),
                    t1@.len() == n,
                    t2@.len() == n,
                    forall|q: int| 0 <= q < n ==> #[trigger] t1@[q] < self.fft.modulus,
                    forall|q: int| 0 <= q < n ==> #[trigger] t2@[q] < self.fft.modulus,
                    max_j <= matchable,
                    matchable == n + 2 - 2 * m,
                    match_start == m - 1,
                    offset < limit,
                    limit == len - m + 1,
                    tt@.len() <= n,
                    m <= tt@.len() <= len - offset,
                    max_j <= tt@.len() - m + 1,
                decreases max_j - j,
            {
                let idx = j + match_start;
                let lhs = (t1[idx] + 2 * self.fft.modulus - 2 * t2[idx]) % self.fft.modulus;
                let rest = tt.len() - j;
                let p0_idx = if rest < m {
                    rest
                } else {
                    m
                };
                let rhs = self.fft.modulus - self.p0[p0_idx];
                if lhs == rhs && offset + j <= len && self.confirm(text, offset + j) {
                    return Some(offset + j);
                }
                j += 1;
            }
            if matchable > limit - offset {
                return None;
            }
            offset += matchable;
        }
        None
    }
}

/// The patterns that the small convolution kernel takes: transforms of at most 128 points.
pub open spec fn fits_small(p: Seq<u8>) -> bool {
    1 <= p.len() && 3 * p.len() <= 128
}

/// The patterns that the large convolution kernel takes: transforms of at most `2^27` points.
pub open spec fn fits_large(p: Seq<u8>) -> bool {
    1 <= p.len() && 3 * p.len() <= OMEGA_POWER
}

/// The state of the small convolution kernel.
pub struct FftState0 {
    inner: ImplActual,
}

/// The state of the large convolution kernel.
pub struct FftState1 {
    inner: ImplActual,
}

impl FftState0 {
    pub closed spec fn built_for(&self, p: Seq<u8>) -> bool {
        self.inner.wf() && self.inner.pattern_spec() == p
    }
}

impl FftState1 {
    pub closed spec fn built_for(&self, p: Seq<u8>) -> bool {
        self.inner.wf() && self.inner.pattern_spec() == p
    }
}

/// The convolution kernel for short patterns.
#[derive(Debug, Clone, Copy, Default)]
pub struct FftStr0;

/// The convolution kernel for long patterns.
#[derive(Debug, Clone, Copy, Default)]
pub struct FftStr1;

/// The transform size for `m` pattern bytes: the least power of two of at least `3 * m` points.
fn transform_size(m: usize) -> (r: u64)
    requires
        1 <= m,
        3 * m <= OMEGA_POWER,
    ensures
        is_pow2(r as nat),
        2 <= r <= OMEGA_POWER,
        r >= 3 * m,
        r / 2 < 3 * m,
{
    let r = pow2_at_least((3 * m) as u64);
    assert(r <= OMEGA_POWER) by {
        reveal_with_fuel(is_pow2, 30);
        assert(is_pow2(134217728));
        lemma_pow2_le(r as nat, OMEGA_POWER as nat);
    }
    assert(r >= 2);
    r
}

proof fn lemma_pow2_le(r: nat, cap: nat)
    requires
        is_pow2(r),
        is_pow2(cap),
        r / 2 < cap,
    ensures
        r <= cap,
    decreases cap,
{
    if r > cap {
        if cap == 1 {
            assert(r >= 2);
        } else {
            assert(r % 2 == 0);
            lemma_pow2_le(r / 2, cap / 2);
        }
    }
}

/// The first position where `pat` matches `text`, `_` matching any byte, by direct comparison.
fn wild_find(text: &[u8], pat: &[u8]) -> (r: Option<usize>)
    ensures
        is_first_match(text@, pat@, true, r),
{
    let n = text.len();
    let m = pat.len();
    if m > n {
        return None;
    }
    let mut i: usize = 0;
    while i <= n - m
        invariant
            n == text@.len(),
            m == pat@.len(),
            m <= n,
            i <= n - m + 1,
            forall|j: int| 0 <= j < i ==> !matches_at(text@, pat@, true, j),
        decreases n - m + 1 - i,
    {
        let mut k: usize = 0;
        let mut ok = true;
        while k < m
            invariant
                n == text@.len(),
                m == pat@.len(),
                i + m <= n,
                k <= m,
                ok == forall|j: int| 0 <= j < k ==> #[trigger] text@[i + j] == pat@[j] || pat@[j] == 0x5fu8,
            decreases m - k,
        {
            if pat[k] != 0x5fu8 && text[i + k] != pat[k] {
                ok = false;
            }
            k += 1;
        }
        if ok {
            return Some(i);
        }
        i += 1;
    }
    None
}

/// The first wildcard match of the pattern in `text`: the transform finds a candidate, and the
/// text up to the end of that candidate is then compared directly, so that no earlier match is
/// missed.
fn exact_first(inner: &ImplActual, text: &[u8]) -> (r: Option<usize>)
    requires
        inner.wf(),
    ensures
        is_first_match(text@, inner.pattern_spec(), true, r),
{
    let m = inner.pattern.len();
    let n = text.len();
    let found = inner.find_first(text);
    let limit = match found {
        Some(c) => c + m,
        None => n,
    };
    let prefix = slice_subrange(text, 0, limit);
    let r = wild_find(prefix, inner.pattern.as_slice());
    proof {
        let p = inner.pattern_spec();
        assert forall|j: int| #[trigger] matches_at(prefix@, p, true, j) <==> (matches_at(text@, p, true, j) && j + p.len()
            <= limit) by {
            if matches_at(prefix@, p, true, j) {
                assert forall|x: int| 0 <= x < p.len() implies #[trigger] text@[j + x] == p[x] || p[x] == 0x5fu8 by {
                    assert(prefix@[j + x] == text@[j + x]);
                }
            }
            if matches_at(text@, p, true, j) && j + p.len() <= limit {
                assert forall|x: int| 0 <= x < p.len() implies #[trigger] prefix@[j + x] == p[x] || p[x] == 0x5fu8 by {
                    assert(prefix@[j + x] == text@[j + x]);
                }
            }
        }
        if let Some(c) = found {
            assert(matches_at(text@, p, true, c as int));
            assert(matches_at(prefix@, p, true, c as int));
        }
        match r {
            Some(i) => {
                assert forall|j: int| 0 <= j < i implies !matches_at(text@, p, true, j) by {
                    if matches_at(text@, p, true, j) {
                        if let Some(c) = found {
                            assert(i <= c);
                        }
                        assert(matches_at(prefix@, p, true, j));
                    }
                }
            },
            None => {
                assert(found is None);
                assert forall|j: int| !matches_at(text@, p, true, j) by {
                    if matches_at(text@, p, true, j) {
                        assert(matches_at(prefix@, p, true, j));
                    }
                }
            },
        }
    }
    r
}

/// Every wildcard match of the pattern in `text`, by the first match on ever shorter suffixes.
fn exact_all(inner: &ImplActual, text: &[u8]) -> (r: Vec<usize>)
    requires
        inner.wf(),
    ensures
        is_all_matches(text@, inner.pattern_spec(), true, r@),
{
    let ghost pat = inner.pattern_spec();
    let n = text.len();
    let mut result: Vec<usize> = Vec::new();
    let mut pos: usize = 0;
    while pos <= n
        invariant
            inner.wf(),
            pat == inner.pattern_spec(),
            n == text@.len(),
            pos <= n + 1,
            forall|a: int, b: int| 0 <= a < b < result@.len() ==> result@[a] < result@[b],
            forall|a: int| 0 <= a < result@.len() ==> result@[a] < pos,
            forall|a: int| 0 <= a < result@.len() ==> matches_at(text@, pat, true, #[trigger] result@[a] as int),
            forall|j: int|
                0 <= j < pos && matches_at(text@, pat, true, j) ==> exists|a: int| 0 <= a < result@.len() && result@[a] == j,
        decreases n + 1 - pos,
    {
        match exact_first(inner, slice_subrange(text, pos, n)) {
            Some(off) => {
                proof {
                    lemma_matches_in_suffix(text@, pat, true, pos as int, off as int);
                }
                let hit = pos + off;
                let ghost old_result = result@;
                result.push(hit);
                assert forall|j: int| 0 <= j < hit + 1 && matches_at(text@, pat, true, j) implies exists|a: int|
                    0 <= a < result@.len() && result@[a] == j by {
                    if j < pos {
                        let a = choose|a: int| 0 <= a < old_result.len() && old_result[a] == j;
                        assert(result@[a] == j);
                    } else if j < hit {
                        lemma_matches_in_suffix(text@, pat, true, pos as int, j - pos);
                    } else {
                        assert(result@[result@.len() - 1] == j);
                    }
                }
                if hit == n {
                    assert forall|j: int| matches_at(text@, pat, true, j) implies exists|a: int|
                        0 <= a < result@.len() && result@[a] == j by {
                    }
                    return result;
                }
                pos = hit + 1;
            },
            None => {
                assert forall|j: int| matches_at(text@, pat, true, j) implies exists|a: int|
                    0 <= a < result@.len() && result@[a] == j by {
                    if j >= pos {
                        lemma_matches_in_suffix(text@, pat, true, pos as int, j - pos);
                    }
                }
                return result;
            },
        }
    }
    assert forall|j: int| matches_at(text@, pat, true, j) implies exists|a: int|
        0 <= a < result@.len() && result@[a] == j by {
    }
    result
}

impl StringSearch for FftStr0 {
    type Config = FftConfig;

    type State = FftState0;

    open spec fn pattern_of(config: &FftConfig) -> Seq<u8> {
        config.pattern_spec()
    }

    open spec fn underscore_wild() -> bool {
        true
    }

    open spec fn accepts(pattern: Seq<u8>) -> bool {
        fits_small(pattern)
    }

    open spec fn state_ok(config: &FftConfig, state: &FftState0) -> bool {
        state.built_for(config.pattern_spec())
    }

    fn config_for(literal: &[u8]) -> (r: FftConfig) {
        FftConfig::new(literal)
    }

    /// The images of the configured pattern, over transforms of at most 128 points: in the small
    /// field up to 64 points, in the medium one above.
    fn build(config: &FftConfig) -> (r: FftState0) {
        let n = transform_size(config.pattern.len());
        assert(n <= 128) by {
            reveal_with_fuel(is_pow2, 10);
            assert(is_pow2(128));
            lemma_pow2_le(n as nat, 128);
        }
        let field = if n <= 64 {
            small_field()
        } else {
            medium_field()
        };
        FftState0 { inner: ImplActual::new(n, field, config.pattern.as_slice(), config.wildcard) }
    }

    fn find_bytes(config: &FftConfig, state: &FftState0, text: &[u8]) -> (r: Option<usize>) {
        exact_first(&state.inner, text)
    }

    fn find_all_bytes(config: &FftConfig, state: &FftState0, text: &[u8]) -> (r: Vec<usize>) {
        exact_all(&state.inner, text)
    }
}

impl StringSearch for FftStr1 {
    type Config = FftConfig;

    type State = FftState1;

    open spec fn pattern_of(config: &FftConfig) -> Seq<u8> {
        config.pattern_spec()
    }

    open spec fn underscore_wild() -> bool {
        true
    }

    open spec fn accepts(pattern: Seq<u8>) -> bool {
        fits_large(pattern)
    }

    open spec fn state_ok(config: &FftConfig, state: &FftState1) -> bool {
        state.built_for(config.pattern_spec())
    }

    fn config_for(literal: &[u8]) -> (r: FftConfig) {
        FftConfig::new(literal)
    }

    /// The images of the configured pattern, over transforms of up to `2^27` points in the large
    /// field.
    fn build(config: &FftConfig) -> (r: FftState1) {
        let n = transform_size(config.pattern.len());
        FftState1 { inner: ImplActual::new(n, large_field(), config.pattern.as_slice(), config.wildcard) }
    }

    fn find_bytes(config: &FftConfig, state: &FftState1, text: &[u8]) -> (r: Option<usize>) {
        exact_first(&state.inner, text)
    }

    fn find_all_bytes(config: &FftConfig, state: &FftState1, text: &[u8]) -> (r: Vec<usize>) {
        exact_all(&state.inner, text)
    }
}

impl FftStr0 {
    /// The first match in the bytes of `text`.
    pub fn find_str(config: &FftConfig, state: &FftState0, text: &str) -> (r: Option<usize>)
        requires
            state.built_for(config.pattern_spec()),
        ensures
            is_first_match(text.spec_bytes(), config.pattern_spec(), true, r),
    {
        exact_first(&state.inner, text.as_bytes())
    }
}

impl FftStr1 {
    /// The first match in the bytes of `text`.
    pub fn find_str(config: &FftConfig, state: &FftState1, text: &str) -> (r: Option<usize>)
        requires
            state.built_for(config.pattern_spec()),
        ensures
            is_first_match(text.spec_bytes(), config.pattern_spec(), true, r),
    {
        exact_first(&state.inner, text.as_bytes())
    }
}

} // verus!
