use vstd::prelude::*;
use vstd::arithmetic::div_mod::{
    lemma_add_mod_noop_right, lemma_mod_add_multiples_vanish, lemma_mod_twice,
    lemma_mul_mod_noop_left, lemma_mul_mod_noop_right, lemma_sub_mod_noop_right,
};

verus! {

/// Offset folded into the checksum for every byte in the window, so that
/// windows full of zero bytes of different lengths still hash apart.
pub const CHAR_OFFSET: u16 = 31;

/// Reduction of an unbounded integer into the 16-bit wrapping domain in
/// which both accumulators live.
pub open spec fn w16(x: int) -> u16 {
    (x % 0x10000) as u16
}

/// Sum of the bytes of `b`.
pub open spec fn sum1(b: Seq<u8>) -> int
    decreases b.len(),
{
    if b.len() == 0 {
        0
    } else {
        sum1(b.drop_last()) + b.last()
    }
}

/// Sum of the sums of all non-empty prefixes of `b`.
pub open spec fn sum2(b: Seq<u8>) -> int
    decreases b.len(),
{
    if b.len() == 0 {
        0
    } else {
        sum2(b.drop_last()) + sum1(b)
    }
}

/// The triangular number `n * (n + 1) / 2`, written recursively so that
/// proofs can unfold it one step at a time.
pub open spec fn tri(n: int) -> int
    decreases n,
{
    if n <= 0 {
        0
    } else {
        tri(n - 1) + n
    }
}

/// Rolling checksum state: two 16-bit wrapping accumulators and the number
/// of bytes currently represented, also wrapping at 16 bits.
#[derive(Debug, Copy, Clone)]
pub struct Window {
    pub count: u16,
    pub s1: u16,
    pub s2: u16,
}

/// The state with nothing in the window.
pub open spec fn zero_window() -> Window {
    Window { count: 0, s1: 0, s2: 0 }
}

/// Effect of appending one byte at the tail of the window.
pub open spec fn spec_roll_in(w: Window, c_in: u8) -> Window {
    let s1 = w16(w.s1 + CHAR_OFFSET + c_in);
    Window { count: w16(w.count + 1), s1, s2: w16(w.s2 + s1) }
}

/// Effect of removing the oldest byte, `c_out`, from the head of the window.
pub open spec fn spec_roll_out(w: Window, c_out: u8) -> Window {
    Window {
        count: w16(w.count - 1),
        s1: w16(w.s1 - (c_out + CHAR_OFFSET)),
        s2: w16(w.s2 - w.count * (c_out + CHAR_OFFSET)),
    }
}

/// Effect of sliding a fixed-size window one byte: the oldest byte `c_out`
/// leaves, `c_in` enters, and the count is unchanged.
pub open spec fn spec_rotate(w: Window, c_out: u8, c_in: u8) -> Window {
    let s1 = w16(w.s1 + c_in - c_out);
    Window { count: w.count, s1, s2: w16(w.s2 + s1 - w.count * (c_out + CHAR_OFFSET)) }
}

/// Effect of adding a whole buffer into the accumulators in one pass.
pub open spec fn spec_update(w: Window, b: Seq<u8>) -> Window {
    Window {
        count: w16(w.count + b.len()),
        s1: w16(w.s1 + sum1(b) + b.len() * CHAR_OFFSET),
        s2: w16(w.s2 + b.len() * w.s1 + sum2(b) + tri(b.len() as int) * CHAR_OFFSET),
    }
}

/// The state a fresh window reaches after one whole-buffer update over `b`.
pub open spec fn win_state(b: Seq<u8>) -> Window {
    spec_update(zero_window(), b)
}

/// The 32-bit digest: `s2` in the high half, `s1` in the low half.
pub open spec fn spec_digest(w: Window) -> u32 {
    (w.s2 * 0x10000 + w.s1) as u32
}

impl Default for Window {
    /// The zero state: an empty window.
    fn default() -> (w: Window)
        ensures
            w == zero_window(),
    {
        Window { count: 0, s1: 0, s2: 0 }
    }
}

impl Window {
    /// A fresh, zeroed rolling checksum.
    pub fn new() -> (w: Window)
        ensures
            w == zero_window(),
    {
        Window::default()
    }
}

/// A checksum over a sliding window of bytes: cheap to compute over a whole
/// buffer and cheap to slide one byte at a time.
pub trait Rollsum: Sized {
    /// The accumulator state that the implementation currently holds.
    spec fn state(&self) -> Window;

    /// Pack the current state into the 32-bit wire digest.
    fn digest(&self) -> (d: u32)
        ensures
            d == spec_digest(self.state()),
            d == ((self.state().s2 as u32) << 16u32) | (self.state().s1 as u32);

    /// Append one byte at the tail of the window.
    fn roll_in(&mut self, c_in: u8)
        ensures
            final(self).state() == spec_roll_in(old(self).state(), c_in);

    /// Remove the oldest byte from the head of the window. The caller must
    /// pass the byte that actually entered first; this is not checked here.
    fn roll_out(&mut self, c_out: u8)
        ensures
            final(self).state() == spec_roll_out(old(self).state(), c_out);

    /// Slide a fixed-size window one byte: `c_out` leaves, `c_in` enters.
    fn rotate(&mut self, c_out: u8, c_in: u8)
        ensures
            final(self).state() == spec_rotate(old(self).state(), c_out, c_in);

    /// Add a whole buffer into the accumulators. This is additive: a caller
    /// that wants the digest of `buf` alone must start from a zero state.
    fn update(&mut self, buf: &[u8])
        ensures
            final(self).state() == spec_update(old(self).state(), buf@);
}

proof fn lemma_w16_wadd(a: u16, b: u16)
    ensures
        a.wrapping_add(b) == w16(a + b),
{
    if a + b > u16::MAX {
        lemma_mod_add_multiples_vanish(a + b - 0x10000, 0x10000);
    }
}

proof fn lemma_w16_wsub(a: u16, b: u16)
    ensures
        a.wrapping_sub(b) == w16(a - b),
{
    if a - b < 0 {
        lemma_mod_add_multiples_vanish(a - b, 0x10000);
    }
}

proof fn lemma_w16_wmul(a: u16, b: u16)
    ensures
        a.wrapping_mul(b) == w16(a * b),
{
}

/// Adding an already-reduced term reduces the same as adding the raw term.
proof fn lemma_w16_add_noop(x: int, y: int)
    ensures
        w16(x + w16(y)) == w16(x + y),
{
    lemma_add_mod_noop_right(x, y, 0x10000);
    lemma_mod_twice(y, 0x10000);
    lemma_add_mod_noop_right(x, y % 0x10000, 0x10000);
}

/// Subtracting an already-reduced term reduces the same as the raw term.
proof fn lemma_w16_sub_noop(x: int, y: int)
    ensures
        w16(x - w16(y)) == w16(x - y),
{
    lemma_sub_mod_noop_right(x, y, 0x10000);
    lemma_mod_twice(y, 0x10000);
    lemma_sub_mod_noop_right(x, y % 0x10000, 0x10000);
}

/// A product with one reduced factor reduces the same as the raw product,
/// also when it stands inside a larger sum.
proof fn lemma_w16_addmul_noop(x: int, m: int, y: int)
    ensures
        w16(x + m * w16(y)) == w16(x + m * y),
        w16(x - w16(m) * y) == w16(x - m * y),
{
    lemma_mod_twice(y, 0x10000);
    lemma_mul_mod_noop_right(m, y, 0x10000);
    lemma_add_mod_noop_right(x, m * (y % 0x10000), 0x10000);
    lemma_add_mod_noop_right(x, m * y, 0x10000);
    lemma_mod_twice(m, 0x10000);
    lemma_mul_mod_noop_left(m, y, 0x10000);
    lemma_sub_mod_noop_right(x, (m % 0x10000) * y, 0x10000);
    lemma_sub_mod_noop_right(x, m * y, 0x10000);
}

impl Rollsum for Window {
    open spec fn state(&self) -> Window {
        *self
    }

    fn digest(&self) -> (d: u32) {
        let d = ((self.s2 as u32) << 16u32) | (self.s1 as u32);
        proof {
            let s1 = self.s1;
            let s2 = self.s2;
            assert(((s2 as u32) << 16u32) | (s1 as u32) == (s2 as u32) * 0x10000 + (s1 as u32))
                by (bit_vector);
        }
        d
    }

    fn roll_in(&mut self, c_in: u8) {
        let off = CHAR_OFFSET + c_in as u16;
        self.s1 = self.s1.wrapping_add(off);
        self.s2 = self.s2.wrapping_add(self.s1);
        self.count = self.count.wrapping_add(1);
        proof {
            lemma_w16_wadd(old(self).s1, off);
            lemma_w16_wadd(old(self).s2, self.s1);
            lemma_w16_wadd(old(self).count, 1);
        }
    }

    fn roll_out(&mut self, c_out: u8) {
        let off = c_out as u16 + CHAR_OFFSET;
        self.s1 = self.s1.wrapping_sub(off);
        self.s2 = self.s2.wrapping_sub(self.count.wrapping_mul(off));
        self.count = self.count.wrapping_sub(1);
        proof {
            lemma_w16_wsub(old(self).s1, off);
            lemma_w16_wmul(old(self).count, off);
            lemma_w16_wsub(old(self).s2, old(self).count.wrapping_mul(off));
            lemma_w16_sub_noop(old(self).s2 as int, old(self).count * off);
            lemma_w16_wsub(old(self).count, 1);
        }
    }

    fn rotate(&mut self, c_out: u8, c_in: u8) {
        let off = c_out as u16 + CHAR_OFFSET;
        self.s1 = self.s1.wrapping_add(c_in as u16).wrapping_sub(c_out as u16);
        self.s2 = self.s2.wrapping_add(self.s1).wrapping_sub(self.count.wrapping_mul(off));
        proof {
            lemma_w16_wadd(old(self).s1, c_in as u16);
            lemma_w16_wsub(old(self).s1.wrapping_add(c_in as u16), c_out as u16);
            lemma_w16_add_noop(-(c_out as int), old(self).s1 + c_in);
            lemma_w16_wadd(old(self).s2, self.s1);
            lemma_w16_wmul(old(self).count, off);
            lemma_w16_wsub(
                old(self).s2.wrapping_add(self.s1),
                old(self).count.wrapping_mul(off),
            );
            lemma_w16_add_noop(old(self).s2 as int, old(self).s1 + c_in - c_out);
            lemma_w16_sub_noop(old(self).s2 + self.s1, old(self).count * off);
        }
    }

    fn update(&mut self, buf: &[u8]) {
        let ghost w0 = *self;
        let mut s1 = self.s1;
        let mut s2 = self.s2;
        let mut i: usize = 0;
        while i < buf.len()
            invariant
                0 <= i <= buf@.len(),
                s1 == w16(w0.s1 + sum1(buf@.take(i as int)) + i * CHAR_OFFSET),
                s2 == w16(
                    w0.s2 + i * w0.s1 + sum2(buf@.take(i as int)) + tri(i as int) * CHAR_OFFSET,
                ),
            decreases buf@.len() - i,
        {
            let c = buf[i];
            let off = CHAR_OFFSET + c as u16;
            let s1_prev = s1;
            let s2_prev = s2;
            s1 = s1.wrapping_add(off);
            s2 = s2.wrapping_add(s1);
            proof {
                lemma_sum_take_succ(buf@, i as int);
                lemma_w16_wadd(s1_prev, off);
                lemma_w16_add_noop(
                    (CHAR_OFFSET + c) as int,
                    w0.s1 + sum1(buf@.take(i as int)) + i * CHAR_OFFSET,
                );
                assert((CHAR_OFFSET + c) + (w0.s1 + sum1(buf@.take(i as int)) + i * CHAR_OFFSET)
                    == w0.s1 + sum1(buf@.take(i + 1)) + (i + 1) * CHAR_OFFSET);
                lemma_w16_wadd(s2_prev, s1);
                lemma_w16_add_noop(
                    w0.s2 + i * w0.s1 + sum2(buf@.take(i as int)) + tri(i as int) * CHAR_OFFSET,
                    w0.s1 + sum1(buf@.take(i + 1)) + (i + 1) * CHAR_OFFSET,
                );
                assert((i + 1) * w0.s1 == i * w0.s1 + w0.s1) by (nonlinear_arith);
                assert(w0.s2 + i * w0.s1 + sum2(buf@.take(i as int)) + tri(i as int) * CHAR_OFFSET
                    + (w0.s1 + sum1(buf@.take(i + 1)) + (i + 1) * CHAR_OFFSET) == w0.s2 + (i + 1)
                    * w0.s1 + sum2(buf@.take(i + 1)) + tri(i + 1) * CHAR_OFFSET);
            }
            i = i + 1;
        }
        let ll: u16 = (buf.len() % 0x10000) as u16;
        self.s1 = s1;
        self.s2 = s2;
        self.count = self.count.wrapping_add(ll);
        proof {
            assert(buf@.take(buf@.len() as int) =~= buf@);
            lemma_w16_wadd(w0.count, ll);
            lemma_w16_add_noop(w0.count as int, buf@.len() as int);
            assert(w16(w0.count + w16(buf@.len() as int)) == w16(w0.count + buf@.len()));
        }
    }
}

/// The byte sums split over a concatenation: the second part's prefixes
/// each carry the whole first part in front of them.
proof fn lemma_sum_concat(a: Seq<u8>, d: Seq<u8>)
    ensures
        sum1(a + d) == sum1(a) + sum1(d),
        sum2(a + d) == sum2(a) + d.len() * sum1(a) + sum2(d),
    decreases d.len(),
{
    if d.len() == 0 {
        assert(a + d =~= a);
    } else {
        assert((a + d).drop_last() =~= a + d.drop_last());
        lemma_sum_concat(a, d.drop_last());
        assert((a + d).last() == d.last());
        assert(d.len() * sum1(a) == (d.len() - 1) * sum1(a) + sum1(a)) by (nonlinear_arith);
    }
}

/// Triangular numbers split over a sum of lengths.
proof fn lemma_tri_add(k: int, m: int)
    requires
        k >= 0,
        m >= 0,
    ensures
        tri(k + m) == tri(k) + k * m + tri(m),
    decreases m,
{
    if m > 0 {
        lemma_tri_add(k, m - 1);
        assert(k * m == k * (m - 1) + k) by (nonlinear_arith);
    } else {
        assert(k * m == 0) by (nonlinear_arith)
            requires
                m == 0,
        ;
    }
}

/// Removing the head byte takes it out of every prefix sum at once.
proof fn lemma_sum_skip_first(b: Seq<u8>)
    requires
        b.len() >= 1,
    ensures
        sum1(b.skip(1)) == sum1(b) - b[0],
        sum2(b.skip(1)) == sum2(b) - b.len() * b[0],
    decreases b.len(),
{
    if b.len() == 1 {
        assert(b.skip(1) =~= Seq::<u8>::empty());
        assert(b.drop_last() =~= Seq::<u8>::empty());
    } else {
        assert(b.skip(1).drop_last() =~= b.drop_last().skip(1));
        lemma_sum_skip_first(b.drop_last());
        assert(b.skip(1).last() == b.last());
        assert(b.drop_last()[0] == b[0]);
        assert(b.len() * b[0] == (b.len() - 1) * b[0] + b[0]) by (nonlinear_arith);
    }
}

/// One step of the whole-buffer sums: extending the prefix by one byte.
proof fn lemma_sum_take_succ(b: Seq<u8>, i: int)
    requires
        0 <= i < b.len(),
    ensures
        sum1(b.take(i + 1)) == sum1(b.take(i)) + b[i],
        sum2(b.take(i + 1)) == sum2(b.take(i)) + sum1(b.take(i + 1)),
{
    assert(b.take(i + 1).drop_last() =~= b.take(i));
    assert(b.take(i + 1).last() == b[i]);
}

/// Whole-buffer additivity: feeding a buffer in one `update` leaves the
/// accumulator exactly where feeding any front part and then the rest in
/// two successive `update`s does, so both give the same digest.
pub proof fn lemma_update_additive(w: Window, b: Seq<u8>, k: int)
    requires
        0 <= k <= b.len(),
    ensures
        spec_update(spec_update(w, b.take(k)), b.skip(k)) == spec_update(w, b),
        spec_digest(spec_update(spec_update(w, b.take(k)), b.skip(k))) == spec_digest(
            spec_update(w, b),
        ),
{
    let a = b.take(k);
    let d = b.skip(k);
    let m = d.len() as int;
    assert(a + d =~= b);
    lemma_sum_concat(a, d);
    lemma_tri_add(k, m);
    let w1 = spec_update(w, a);
    let s1a = w.s1 + sum1(a) + k * CHAR_OFFSET;
    let s2a = w.s2 + k * w.s1 + sum2(a) + tri(k) * CHAR_OFFSET;
    lemma_w16_add_noop(m as int, w.count + k);
    lemma_w16_add_noop(sum1(d) + m * CHAR_OFFSET, s1a);
    lemma_w16_add_noop(m * w16(s1a) + sum2(d) + tri(m) * CHAR_OFFSET, s2a);
    lemma_w16_addmul_noop(s2a + sum2(d) + tri(m) * CHAR_OFFSET, m, s1a);
    assert(m * (w.s1 + sum1(a) + k * CHAR_OFFSET) == m * w.s1 + m * sum1(a) + (k * m)
        * CHAR_OFFSET) by (nonlinear_arith);
    assert((k + m) * w.s1 == k * w.s1 + m * w.s1) by (nonlinear_arith);
    assert(s2a + m * s1a + sum2(d) + tri(m) * CHAR_OFFSET == w.s2 + (k + m) * w.s1 + sum2(b)
        + tri(k + m) * CHAR_OFFSET);
}

/// Rolling one byte in and the same byte straight out always restores the
/// count and `s1`; it restores `s2` too whenever `s1` stands in the relation
/// that any window whose bytes all equal `c` satisfies — in particular from
/// the zero state. For other states the pair of calls moves `s2`, because
/// `roll_out` removes at the head what `roll_in` added at the tail.
#[verifier::rlimit(50)]
pub proof fn lemma_roll_in_roll_out(w: Window, c: u8)
    ensures
        spec_roll_out(spec_roll_in(w, c), c).count == w.count,
        spec_roll_out(spec_roll_in(w, c), c).s1 == w.s1,
        w.s1 == w16(w.count * (c + CHAR_OFFSET)) ==> spec_roll_out(spec_roll_in(w, c), c) == w,
{
    let w1 = spec_roll_in(w, c);
    lemma_w16_add_noop(-1, w.count + 1);
    lemma_w16_add_noop(-((c + CHAR_OFFSET) as int), w.s1 + CHAR_OFFSET + c);
    lemma_w16_addmul_noop(w1.s2 as int, w.count + 1, c + CHAR_OFFSET);
    lemma_w16_add_noop(-((w.count + 1) * (c + CHAR_OFFSET)), w.s2 + w1.s1);
    lemma_w16_add_noop(w.s2 - (w.count + 1) * (c + CHAR_OFFSET), w.s1 + CHAR_OFFSET + c);
    assert((w.count + 1) * (c + CHAR_OFFSET) == w.count * (c + CHAR_OFFSET) + (c + CHAR_OFFSET))
        by (nonlinear_arith);
    assert(spec_roll_out(w1, c).s2 == w16(w.s2 + w.s1 - w.count * (c + CHAR_OFFSET)));
    if w.s1 == w16(w.count * (c + CHAR_OFFSET)) {
        lemma_w16_add_noop(w.s2 - w.count * (c + CHAR_OFFSET), w.count * (c + CHAR_OFFSET));
        assert(w16(w.s2 + w.s1 - w.count * (c + CHAR_OFFSET)) == w16(w.s2 as int));
    }
}

/// A `rotate` reaches the same final state as a `roll_out` of the head byte
/// followed by a `roll_in` of the new byte; only the intermediate count
/// differs, since `rotate` never lets the window shrink.
proof fn lemma_rotate_as_rolls(w: Window, c_out: u8, c_in: u8)
    ensures
        spec_rotate(w, c_out, c_in) == spec_roll_in(spec_roll_out(w, c_out), c_in),
{
    let wo = spec_roll_out(w, c_out);
    lemma_w16_add_noop(1, w.count - 1);
    lemma_w16_add_noop((CHAR_OFFSET + c_in) as int, w.s1 - (c_out + CHAR_OFFSET));
    assert(spec_roll_in(wo, c_in).s1 == w16(w.s1 + c_in - c_out));
    lemma_w16_add_noop(spec_roll_in(wo, c_in).s1 as int, w.s2 - w.count * (c_out + CHAR_OFFSET));
}

/// Removing the window's oldest byte by `roll_out` lands on exactly the
/// state that a from-scratch whole-buffer computation over the remaining
/// bytes produces.
pub proof fn lemma_roll_out_head(b: Seq<u8>)
    requires
        b.len() >= 1,
    ensures
        spec_roll_out(win_state(b), b[0]) == win_state(b.skip(1)),
{
    let n = b.len() as int;
    lemma_sum_skip_first(b);
    let w = win_state(b);
    assert(n * (0 as u16) == 0) by (nonlinear_arith);
    assert((n - 1) * (0 as u16) == 0) by (nonlinear_arith);
    lemma_w16_add_noop(-1, 0 + n);
    lemma_w16_add_noop(-((b[0] + CHAR_OFFSET) as int), sum1(b) + n * CHAR_OFFSET);
    lemma_w16_addmul_noop(w.s2 as int, 0 + n, b[0] + CHAR_OFFSET);
    lemma_w16_add_noop(-(n * (b[0] + CHAR_OFFSET)), sum2(b) + tri(n) * CHAR_OFFSET);
    assert(n * (b[0] + CHAR_OFFSET) == n * b[0] + n * CHAR_OFFSET) by (nonlinear_arith);
}

/// Appending one byte by `roll_in` lands on exactly the state that a
/// from-scratch whole-buffer computation over the extended bytes produces.
pub proof fn lemma_roll_in_append(b: Seq<u8>, c: u8)
    ensures
        spec_roll_in(win_state(b), c) == win_state(b.push(c)),
{
    let n = b.len() as int;
    assert(b.push(c).drop_last() =~= b);
    assert(sum1(b.push(c)) == sum1(b) + c);
    let w = win_state(b);
    assert(n * (0 as u16) == 0) by (nonlinear_arith);
    assert((n + 1) * (0 as u16) == 0) by (nonlinear_arith);
    lemma_w16_add_noop(1, 0 + n);
    lemma_w16_add_noop((CHAR_OFFSET + c) as int, sum1(b) + n * CHAR_OFFSET);
    let s1new = spec_roll_in(w, c).s1;
    lemma_w16_add_noop(s1new as int, sum2(b) + tri(n) * CHAR_OFFSET);
    lemma_w16_add_noop(sum2(b) + tri(n) * CHAR_OFFSET, sum1(b) + c + (n + 1) * CHAR_OFFSET);
}

/// Rotate equivalence: for a window holding the bytes `b`, one `rotate`
/// that retires the oldest byte and admits `c_in` reaches the same state —
/// and so the same digest — as recomputing from scratch over the slid
/// window contents.
pub proof fn lemma_rotate_recompute(b: Seq<u8>, c_in: u8)
    requires
        b.len() >= 1,
    ensures
        spec_rotate(win_state(b), b[0], c_in) == win_state(b.skip(1).push(c_in)),
        spec_digest(spec_rotate(win_state(b), b[0], c_in)) == spec_digest(
            win_state(b.skip(1).push(c_in)),
        ),
{
    lemma_rotate_as_rolls(win_state(b), b[0], c_in);
    lemma_roll_out_head(b);
    lemma_roll_in_append(b.skip(1), c_in);
}

} // verus!
