//! Adler-style rolling hash over a fixed-size window.
//!
//! The hash combines two modular sums: `sum_a` adds every byte of the window,
//! `sum_b` weights each byte by its distance from the window's end.  Both can
//! be updated in O(1) when the window slides forward by one byte, and the
//! contracts here prove that sliding agrees exactly with reseeding over the
//! slid window.

use vstd::arithmetic::div_mod::{
    lemma_add_mod_noop, lemma_add_mod_noop_right, lemma_mod_add_multiples_vanish,
    lemma_mod_division_less_than_divisor, lemma_mul_mod_noop_left, lemma_small_mod,
    lemma_sub_mod_noop,
};
use vstd::prelude::*;

verus! {

/// Modulus for both running sums: a prime close to 2^16.
pub const MODULUS: u32 = 65521;

/// Sum of all bytes of `s`.
pub open spec fn byte_sum(s: Seq<u8>) -> int
    decreases s.len(),
{
    if s.len() == 0 {
        0
    } else {
        s[0] + byte_sum(s.drop_first())
    }
}

/// Sum of the bytes of `s`, the byte at index `i` weighted by `w - i`.
pub open spec fn weighted_sum(s: Seq<u8>, w: int) -> int
    decreases s.len(),
{
    if s.len() == 0 {
        0
    } else {
        weighted_sum(s.drop_last(), w) + (w - (s.len() - 1)) * s.last()
    }
}

/// The 32-bit window hash of `s`: the weighted sum in the high half-word,
/// the plain sum in the low one, both reduced mod `MODULUS`.
pub open spec fn weak_hash(s: Seq<u8>) -> u32 {
    (((weighted_sum(s, s.len() as int) % (MODULUS as int)) as u32) << 16u32) | ((byte_sum(s) % (
    MODULUS as int)) as u32)
}

/// Appending a byte adds it to the plain sum.
pub proof fn lemma_byte_sum_push(s: Seq<u8>, x: u8)
    ensures
        byte_sum(s.push(x)) == byte_sum(s) + x,
    decreases s.len(),
{
    let p = s.push(x);
    if s.len() == 0 {
        assert(p[0] == x);
        assert(p.drop_first() =~= Seq::<u8>::empty());
        assert(byte_sum(p) == x + byte_sum(p.drop_first()));
    } else {
        assert(p[0] == s[0]);
        assert(p.drop_first() =~= s.drop_first().push(x));
        lemma_byte_sum_push(s.drop_first(), x);
        assert(byte_sum(p) == p[0] + byte_sum(p.drop_first()));
        assert(byte_sum(s) == s[0] + byte_sum(s.drop_first()));
    }
}

/// The plain sum split at the last byte.
pub proof fn lemma_byte_sum_drop_last(s: Seq<u8>)
    requires
        s.len() >= 1,
    ensures
        byte_sum(s) == byte_sum(s.drop_last()) + s.last(),
{
    assert(s.drop_last().push(s.last()) =~= s);
    lemma_byte_sum_push(s.drop_last(), s.last());
}

/// Appending a byte adds it with the weight that its index carries.
pub proof fn lemma_weighted_sum_push(s: Seq<u8>, w: int, x: u8)
    ensures
        weighted_sum(s.push(x), w) == weighted_sum(s, w) + (w - s.len()) * x,
{
    let p = s.push(x);
    assert(p.drop_last() =~= s);
    assert(p.last() == x);
    assert(weighted_sum(p, w) == weighted_sum(p.drop_last(), w) + (w - (p.len() - 1)) * p.last());
}

/// Raising every weight by one adds the plain sum once.
pub proof fn lemma_weighted_sum_shift(s: Seq<u8>, w: int)
    ensures
        weighted_sum(s, w + 1) == weighted_sum(s, w) + byte_sum(s),
    decreases s.len(),
{
    if s.len() == 0 {
    } else {
        lemma_weighted_sum_shift(s.drop_last(), w);
        lemma_byte_sum_drop_last(s);
        assert(weighted_sum(s, w + 1) == weighted_sum(s.drop_last(), w + 1) + ((w + 1) - (s.len()
            - 1)) * s.last());
        assert(weighted_sum(s, w) == weighted_sum(s.drop_last(), w) + (w - (s.len() - 1))
            * s.last());
        assert(((w + 1) - (s.len() - 1)) * s.last() == (w - (s.len() - 1)) * s.last() + s.last())
            by (nonlinear_arith);
    }
}

/// The weighted sum split at the first byte, which carries weight `w`.
pub proof fn lemma_weighted_sum_drop_first(s: Seq<u8>, w: int)
    requires
        s.len() >= 1,
    ensures
        weighted_sum(s, w) == w * s[0] + weighted_sum(s.drop_first(), w - 1),
    decreases s.len(),
{
    if s.len() == 1 {
        assert(s.drop_last() =~= Seq::<u8>::empty());
        assert(s.drop_first() =~= Seq::<u8>::empty());
        assert(weighted_sum(s, w) == weighted_sum(s.drop_last(), w) + (w - 0) * s.last());
        assert(s.last() == s[0]);
    } else {
        let d = s.drop_last();
        lemma_weighted_sum_drop_first(d, w);
        assert(d.drop_first() =~= s.drop_first().drop_last());
        assert(weighted_sum(s, w) == weighted_sum(d, w) + (w - (s.len() - 1)) * s.last());
        let t = s.drop_first();
        assert(t.last() == s.last());
        assert(t.len() == s.len() - 1);
        assert(weighted_sum(t, w - 1) == weighted_sum(t.drop_last(), w - 1) + ((w - 1) - (t.len()
            - 1)) * t.last());
        assert(d[0] == s[0]);
        assert((w - (s.len() - 1)) * s.last() == ((w - 1) - (t.len() - 1)) * t.last());
    }
}

/// Sliding the window: dropping the first byte and appending a new one moves
/// the plain sum by their difference, and the weighted sum by the window
/// width times the dropped byte plus the new plain sum.
pub proof fn lemma_roll_window(w: Seq<u8>, x: u8)
    requires
        w.len() >= 1,
    ensures
        byte_sum(w.drop_first().push(x)) == byte_sum(w) - w[0] + x,
        weighted_sum(w.drop_first().push(x), w.len() as int) == weighted_sum(w, w.len() as int)
            - w.len() * w[0] + byte_sum(w.drop_first().push(x)),
{
    let t = w.drop_first();
    let len = w.len() as int;
    assert(byte_sum(w) == w[0] + byte_sum(t));
    lemma_byte_sum_push(t, x);
    lemma_weighted_sum_push(t, len, x);
    assert((len - t.len()) * x == x) by (nonlinear_arith)
        requires len - t.len() == 1;
    lemma_weighted_sum_shift(t, len - 1);
    lemma_weighted_sum_drop_first(w, len);
}

/// Rolling hash over a window of `window_size` bytes.
///
/// `hash_chunk` seeds the state from a whole window; `roll` slides the window
/// one byte in O(1).  The ghost window records which bytes the sums cover.
pub struct RollingHash {
    sum_a: u32,
    sum_b: u32,
    window_size: usize,
    win: Ghost<Seq<u8>>,
}

impl RollingHash {
    /// The bytes the current sums were computed over: empty before the first
    /// `hash_chunk`, exactly one window afterwards.
    pub closed spec fn window(self) -> Seq<u8> {
        self.win@
    }

    /// The window size this hasher was created with.
    pub closed spec fn width(self) -> nat {
        self.window_size as nat
    }

    /// The sums always equal the modular sums of the recorded window.
    pub closed spec fn wf(self) -> bool {
        &&& self.window_size >= 1
        &&& self.win@.len() == 0 || self.win@.len() == self.window_size
        &&& self.sum_a == byte_sum(self.win@) % (MODULUS as int)
        &&& self.sum_b == weighted_sum(self.win@, self.window_size as int) % (MODULUS as int)
    }

    /// A fresh hasher with both sums zero and an empty window.
    pub fn new(window_size: usize) -> (r: Self)
        requires
            window_size >= 1,
        ensures
            r.wf(),
            r.width() == window_size,
            r.window() == Seq::<u8>::empty(),
    {
        proof {
            lemma_small_mod(0nat, MODULUS as nat);
        }
        RollingHash { sum_a: 0, sum_b: 0, window_size, win: Ghost(Seq::empty()) }
    }

    /// Seed the sums from a complete window of data.
    pub fn hash_chunk(&mut self, data: &[u8]) -> (r: u32)
        requires
            old(self).wf(),
            data@.len() == old(self).width(),
        ensures
            final(self).wf(),
            final(self).width() == old(self).width(),
            final(self).window() == data@,
            r == weak_hash(data@),
    {
        self.sum_a = 0;
        self.sum_b = 0;
        let ghost len = data@.len() as int;
        let mut i: usize = 0;
        proof {
            assert(data@.take(0) =~= Seq::<u8>::empty());
            lemma_small_mod(0nat, MODULUS as nat);
        }
        while i < data.len()
            invariant
                i <= data.len(),
                data@.len() == self.window_size,
                self.window_size >= 1,
                self.sum_a == byte_sum(data@.take(i as int)) % (MODULUS as int),
                self.sum_b == weighted_sum(data@.take(i as int), self.window_size as int) % (
                MODULUS as int),
            decreases data.len() - i,
        {
            let ghost prefix = data@.take(i as int);
            let byte = data[i];
            let ghost ws = self.window_size as int;
            proof {
                assert(data@.take(i + 1) =~= prefix.push(byte));
                lemma_byte_sum_push(prefix, byte);
                lemma_weighted_sum_push(prefix, ws, byte);
                lemma_mod_division_less_than_divisor(byte_sum(prefix), MODULUS as int);
                lemma_mod_division_less_than_divisor(
                    weighted_sum(prefix, ws),
                    MODULUS as int,
                );
                lemma_small_mod(byte as nat, MODULUS as nat);
                lemma_add_mod_noop(byte_sum(prefix), byte as int, MODULUS as int);
            }
            self.sum_a = (self.sum_a + byte as u32) % MODULUS;
            let weight: u64 = ((self.window_size - i) as u64) % (MODULUS as u64);
            proof {
                assert(weight * (byte as u64) <= 65520 * 255) by (nonlinear_arith)
                    requires
                        weight <= 65520,
                        byte as u64 <= 255,
                ;
            }
            let prod: u64 = (weight * (byte as u64)) % (MODULUS as u64);
            proof {
                lemma_mul_mod_noop_left(ws - i, byte as int, MODULUS as int);
                lemma_mod_division_less_than_divisor((ws - i) * (byte as int), MODULUS as int);
                lemma_add_mod_noop(
                    weighted_sum(prefix, ws),
                    (ws - i) * (byte as int),
                    MODULUS as int,
                );
                lemma_mod_division_less_than_divisor(
                    (ws - i) * (byte as int) % (MODULUS as int),
                    MODULUS as int,
                );
                lemma_small_mod(((ws - i) * (byte as int) % (MODULUS as int)) as nat, MODULUS as nat);
            }
            self.sum_b = (self.sum_b + prod as u32) % MODULUS;
            i = i + 1;
        }
        proof {
            assert(data@.take(data@.len() as int) =~= data@);
        }
        self.win = Ghost(data@);
        self.digest()
    }

    /// Slide the window by one byte: `old_byte` leaves at the front,
    /// `new_byte` enters at the back.  The resulting digest equals the one a
    /// fresh seed over the slid window would give.
    pub fn roll(&mut self, old_byte: u8, new_byte: u8) -> (r: u32)
        requires
            old(self).wf(),
            old(self).window().len() == old(self).width(),
            old_byte == old(self).window()[0],
        ensures
            final(self).wf(),
            final(self).width() == old(self).width(),
            final(self).window() == old(self).window().drop_first().push(new_byte),
            r == weak_hash(final(self).window()),
    {
        let ghost w = self.win@;
        let ghost ws = self.window_size as int;
        let ghost a0 = byte_sum(w);
        let ghost b0 = weighted_sum(w, ws);
        let ghost w2 = w.drop_first().push(new_byte);
        proof {
            lemma_roll_window(w, new_byte);
            lemma_mod_division_less_than_divisor(a0, MODULUS as int);
            lemma_mod_division_less_than_divisor(b0, MODULUS as int);
            // The updated plain sum modulo MODULUS.
            lemma_mod_add_multiples_vanish(
                a0 % (MODULUS as int) - old_byte + new_byte,
                MODULUS as int,
            );
            lemma_add_mod_noop_right(
                new_byte - old_byte,
                a0,
                MODULUS as int,
            );
        }
        let old_b = old_byte as u32;
        let new_b = new_byte as u32;
        self.sum_a = (self.sum_a + MODULUS - old_b + new_b) % MODULUS;
        let ghost a2 = byte_sum(w2);
        assert(self.sum_a == a2 % (MODULUS as int));
        let lw: u64 = (self.window_size as u64) % (MODULUS as u64);
        proof {
            assert(lw * (old_byte as u64) <= 65520 * 255) by (nonlinear_arith)
                requires
                    lw <= 65520,
                    old_byte as u64 <= 255,
            ;
        }
        let prod: u64 = (lw * (old_byte as u64)) % (MODULUS as u64);
        proof {
            lemma_mul_mod_noop_left(ws, old_byte as int, MODULUS as int);
            lemma_mod_division_less_than_divisor(ws * old_byte, MODULUS as int);
            lemma_mod_division_less_than_divisor(a2, MODULUS as int);
            // The updated weighted sum modulo MODULUS.
            lemma_mod_add_multiples_vanish(
                b0 % (MODULUS as int) - (ws * old_byte) % (MODULUS as int) + a2 % (MODULUS as int),
                MODULUS as int,
            );
            lemma_add_mod_noop_right(
                a2 % (MODULUS as int),
                b0 % (MODULUS as int) - (ws * old_byte) % (MODULUS as int),
                MODULUS as int,
            );
            lemma_sub_mod_noop(b0, ws * old_byte, MODULUS as int);
            lemma_add_mod_noop(b0 - ws * old_byte, a2, MODULUS as int);
        }
        self.sum_b = (self.sum_b + MODULUS - prod as u32 + self.sum_a) % MODULUS;
        assert(self.sum_b == weighted_sum(w2, ws) % (MODULUS as int));
        self.win = Ghost(w2);
        self.digest()
    }

    /// Combine the two sums into the 32-bit digest.
    pub fn digest(&self) -> (r: u32)
        requires
            self.wf(),
        ensures
            r == weak_hash(self.window()),
    {
        proof {
            if self.win@.len() == 0 {
            } else {
                assert(self.win@.len() == self.width());
            }
        }
        (self.sum_b << 16u32) | self.sum_a
    }

    /// The current plain sum.
    pub fn sum_a(&self) -> (r: u32)
        requires
            self.wf(),
        ensures
            r == byte_sum(self.window()) % (MODULUS as int),
    {
        self.sum_a
    }

    /// The current weighted sum.
    pub fn sum_b(&self) -> (r: u32)
        requires
            self.wf(),
        ensures
            r == weighted_sum(self.window(), self.width() as int) % (MODULUS as int),
    {
        self.sum_b
    }
}

} // verus!
