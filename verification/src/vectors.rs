//! The test-vector corpus: message specs, the messages they stand for, and
//! the differential fixtures drawn from RustCrypto's BLAKE2b.
//!
//! A message spec is one of `kat:<n>` (the bytes 0, 1, 2, ... modulo 256),
//! `zero:<n>`, `ff:<n>`, `rep:<hex pattern>:<n>` (the pattern repeated) and
//! `rng:<seed>:<n>` (the little-endian output words of SplitMix64 from
//! `seed`), each `n` bytes long.
use vstd::prelude::*;

use vstd::arithmetic::div_mod::{
    lemma_fundamental_div_mod, lemma_fundamental_div_mod_converse, lemma_mod_multiples_vanish,
    lemma_mul_mod_noop_left,
};
use vstd::string::StringSliceAdditionalSpecFns;

use crate::spec::{wadd, word_modulus};

verus! {

/// The SplitMix64 increment.
pub const SPLITMIX_GAMMA: u64 = 0x9E37_79B9_7F4A_7C15u64;

/// Multiplication of two words modulo 2^64.
pub open spec fn wmul(x: u64, y: u64) -> u64 {
    ((x as int * y as int) % word_modulus()) as u64
}

/// The SplitMix64 output function applied to a state word.
pub open spec fn splitmix_finish(x: u64) -> u64 {
    let z1 = wmul(x ^ (x >> 30u64), 0xBF58_476D_1CE4_E5B9u64);
    let z2 = wmul(z1 ^ (z1 >> 27u64), 0x94D0_49BB_1331_11EBu64);
    z2 ^ (z2 >> 31u64)
}

/// The SplitMix64 state after `k` steps from `seed`.
pub open spec fn splitmix_state(seed: u64, k: nat) -> u64
    decreases k,
{
    if k == 0 {
        seed
    } else {
        wadd(splitmix_state(seed, (k - 1) as nat), SPLITMIX_GAMMA)
    }
}

/// Output number `k` (from 0) of SplitMix64 seeded with `seed`.
pub open spec fn splitmix_output(seed: u64, k: nat) -> u64 {
    splitmix_finish(splitmix_state(seed, k + 1))
}

/// The SplitMix64 pseudo-random generator.
pub struct SplitMix64 {
    x: u64,
}

impl View for SplitMix64 {
    type V = u64;

    /// The state word.
    closed spec fn view(&self) -> u64 {
        self.x
    }
}

impl SplitMix64 {
    /// A generator with state `seed`.
    pub fn new(seed: u64) -> (r: Self)
        ensures
            r@ == seed,
    {
        SplitMix64 { x: seed }
    }

    /// Advances the state by the increment and returns the mixed new state.
    pub fn next_u64(&mut self) -> (r: u64)
        ensures
            final(self)@ == wadd(old(self)@, SPLITMIX_GAMMA),
            r == splitmix_finish(final(self)@),
    {
        self.x = self.x.wrapping_add(SPLITMIX_GAMMA);
        let mut z = self.x;
        z = (z ^ (z >> 30u64)).wrapping_mul(0xBF58_476D_1CE4_E5B9u64);
        z = (z ^ (z >> 27u64)).wrapping_mul(0x94D0_49BB_1331_11EBu64);
        z ^ (z >> 31u64)
    }
}

/// Multiplying by `c` modulo 2^64 is undone by multiplying by `d` when
/// `c * d = 1 + k * 2^64`.
proof fn lemma_wmul_undo(x: u64, c: u64, d: u64, k: int)
    requires
        c as int * d as int == 1 + k * word_modulus(),
        k >= 0,
    ensures
        wmul(wmul(x, c), d) == x,
{
    let m = word_modulus();
    lemma_mul_mod_noop_left(x as int * c as int, d as int, m);
    assert(x as int * c as int * d as int == m * (x as int * k) + x as int) by (nonlinear_arith)
        requires
            c as int * d as int == 1 + k * m,
    ;
    lemma_mod_multiples_vanish(x as int * k, x as int, m);
    lemma_fundamental_div_mod_converse(x as int, m, 0, x as int);
}

/// The SplitMix64 output function is one-to-one: each of its steps (an
/// xor with a right shift of itself, a multiplication by an odd constant
/// modulo 2^64) can be undone.
pub proof fn law_splitmix_finish_injective(x: u64, y: u64)
    requires
        x != y,
    ensures
        splitmix_finish(x) != splitmix_finish(y),
{
    let a1 = x ^ (x >> 30u64);
    let b1 = y ^ (y >> 30u64);
    assert(a1 != b1) by (bit_vector)
        requires
            x != y,
            a1 == x ^ (x >> 30u64),
            b1 == y ^ (y >> 30u64),
    ;
    let c1 = 0xBF58_476D_1CE4_E5B9u64;
    let d1 = 0x96de_1b17_3f11_9089u64;
    lemma_wmul_undo(a1, c1, d1, 8125545580553827436);
    lemma_wmul_undo(b1, c1, d1, 8125545580553827436);
    let a2 = wmul(a1, c1);
    let b2 = wmul(b1, c1);
    assert(a2 != b2);
    let a3 = a2 ^ (a2 >> 27u64);
    let b3 = b2 ^ (b2 >> 27u64);
    assert(a3 != b3) by (bit_vector)
        requires
            a2 != b2,
            a3 == a2 ^ (a2 >> 27u64),
            b3 == b2 ^ (b2 >> 27u64),
    ;
    let c2 = 0x94D0_49BB_1331_11EBu64;
    let d2 = 0x3196_42b2_d24d_8ec3u64;
    lemma_wmul_undo(a3, c2, d2, 2077064247507883091);
    lemma_wmul_undo(b3, c2, d2, 2077064247507883091);
    let a4 = wmul(a3, c2);
    let b4 = wmul(b3, c2);
    assert(a4 != b4);
    let a5 = a4 ^ (a4 >> 31u64);
    let b5 = b4 ^ (b4 >> 31u64);
    assert(a5 != b5) by (bit_vector)
        requires
            a4 != b4,
            a5 == a4 ^ (a4 >> 31u64),
            b5 == b4 ^ (b4 >> 31u64),
    ;
}

/// Generators in different states give different next outputs: the state
/// advances by the same increment modulo 2^64, and the output function is
/// one-to-one.
pub proof fn law_splitmix_distinct_states_distinct_outputs(x1: u64, x2: u64)
    requires
        x1 != x2,
    ensures
        wadd(x1, SPLITMIX_GAMMA) != wadd(x2, SPLITMIX_GAMMA),
        splitmix_finish(wadd(x1, SPLITMIX_GAMMA)) != splitmix_finish(wadd(x2, SPLITMIX_GAMMA)),
{
    let m = word_modulus();
    let s1 = x1 as int + SPLITMIX_GAMMA as int;
    let s2 = x2 as int + SPLITMIX_GAMMA as int;
    lemma_fundamental_div_mod_converse(s1, m, if s1 >= m { 1 } else { 0 }, if s1 >= m { s1 - m } else { s1 });
    lemma_fundamental_div_mod_converse(s2, m, if s2 >= m { 1 } else { 0 }, if s2 >= m { s2 - m } else { s2 });
    law_splitmix_finish_injective(wadd(x1, SPLITMIX_GAMMA), wadd(x2, SPLITMIX_GAMMA));
}

/// An ASCII decimal digit.
pub open spec fn is_digit(c: u8) -> bool {
    48 <= c <= 57
}

/// The value of a string of decimal digits (a non-digit counts as 0).
pub open spec fn decimal_value(s: Seq<u8>) -> nat
    decreases s.len(),
{
    if s.len() == 0 {
        0
    } else {
        decimal_value(s.drop_last()) * 10 + if is_digit(s.last()) {
            (s.last() - 48) as nat
        } else {
            0
        }
    }
}

/// Every byte is a decimal digit.
pub open spec fn all_digits(d: Seq<u8>) -> bool {
    forall|i: int| 0 <= i < d.len() ==> is_digit(#[trigger] d[i])
}

/// The digits of an unsigned integer's text: without a leading `+`.
pub open spec fn unsigned_digits(s: Seq<u8>) -> Seq<u8> {
    if s.len() > 0 && s[0] == 43 {
        s.drop_first()
    } else {
        s
    }
}

/// How Rust parses an unsigned integer no larger than `max` from text: an
/// optional `+`, then one or more decimal digits whose value is at most
/// `max`; anything else is an error (`None`).
pub open spec fn parse_unsigned(s: Seq<u8>, max: nat) -> Option<nat> {
    let d = unsigned_digits(s);
    if d.len() > 0 && all_digits(d) && decimal_value(d) <= max {
        Some(decimal_value(d))
    } else {
        None
    }
}

/// A prefix of a string of digits has at most its value.
proof fn lemma_decimal_prefix(s: Seq<u8>, k: int)
    requires
        0 <= k <= s.len(),
    ensures
        decimal_value(s.take(k)) <= decimal_value(s),
    decreases s.len(),
{
    if k < s.len() {
        lemma_decimal_prefix(s.drop_last(), k);
        assert(s.drop_last().take(k) =~= s.take(k));
    } else {
        assert(s.take(k) =~= s);
    }
}

/// Parses `s[lo..hi]` as an unsigned integer of at most `u64::MAX`.
fn parse_u64(s: &[u8], lo: usize, hi: usize) -> (r: Option<u64>)
    requires
        lo <= hi <= s.len(),
    ensures
        match parse_unsigned(s@.subrange(lo as int, hi as int), u64::MAX as nat) {
            Some(v) => r == Some(v as u64),
            None => r is None,
        },
{
    let ghost t = s@.subrange(lo as int, hi as int);
    let mut start = lo;
    if lo < hi && s[lo] == 43u8 {
        start = lo + 1;
    }
    let ghost digits = s@.subrange(start as int, hi as int);
    assert(digits == unsigned_digits(t));
    if start == hi {
        return None;
    }
    let mut acc: u64 = 0;
    let mut i = start;
    while i < hi
        invariant
            lo <= start < hi <= s.len(),
            start <= i <= hi,
            digits == s@.subrange(start as int, hi as int),
            t == s@.subrange(lo as int, hi as int),
            digits == unsigned_digits(t),
            forall|k: int| 0 <= k < i - start ==> is_digit(#[trigger] digits[k]),
            acc == decimal_value(digits.take(i - start)),
        decreases hi - i,
    {
        let c = s[i];
        assert(digits.take(i - start + 1).drop_last() =~= digits.take(i - start));
        if c < 48u8 || c > 57u8 {
            assert(!is_digit(digits[i - start]));

            return None;
        }
        let d = (c - 48u8) as u64;
        let next = match acc.checked_mul(10) {
            Some(a) => a.checked_add(d),
            None => None,
        };
        match next {
            Some(v) => {
                acc = v;
            },
            None => {
                proof {
                    let k = i - start + 1;
                    assert(digits.take(k).last() == c);
                    assert(decimal_value(digits.take(k)) == acc * 10 + d);
                    lemma_decimal_prefix(digits, k);
                    assert(decimal_value(digits) > u64::MAX);
                }
                return None;
            },
        }
        i = i + 1;
    }
    assert(digits.take(hi - start) =~= digits);
    Some(acc)
}

/// The value of an ASCII hexadecimal digit of either case.
pub open spec fn hex_value(c: u8) -> Option<u8> {
    if 48 <= c <= 57 {
        Some((c - 48) as u8)
    } else if 97 <= c <= 102 {
        Some((c - 87) as u8)
    } else if 65 <= c <= 70 {
        Some((c - 55) as u8)
    } else {
        None
    }
}

/// How `u8::from_str_radix(text, 16)` reads a two-byte text: a `+` and one
/// hexadecimal digit, or two hexadecimal digits.
pub open spec fn hex_pair(a: u8, b: u8) -> Option<u8> {
    if a == 43 {
        hex_value(b)
    } else {
        match (hex_value(a), hex_value(b)) {
            (Some(x), Some(y)) => Some((x * 16 + y) as u8),
            _ => None,
        }
    }
}

/// Byte `k` of a hexadecimal pattern, read from characters `2k` and `2k + 1`.
pub open spec fn pattern_byte(p: Seq<u8>, k: int) -> Option<u8> {
    hex_pair(p[2 * k], p[2 * k + 1])
}

/// The bytes of a hexadecimal pattern, two characters per byte; `None`
/// when the length is odd or a pair of characters is not a byte.
pub open spec fn hex_pattern(p: Seq<u8>) -> Option<Seq<u8>> {
    if p.len() % 2 == 0 && forall|k: int|
        0 <= k < p.len() / 2 ==> #[trigger] pattern_byte(p, k) is Some {
        Some(Seq::new(p.len() / 2, |k: int| pattern_byte(p, k)->0))
    } else {
        None
    }
}

/// `n` bytes of `p` repeated; nothing when `p` is empty.
pub open spec fn cycle_bytes(p: Seq<u8>, n: nat) -> Seq<u8> {
    if p.len() == 0 {
        Seq::empty()
    } else {
        Seq::new(n, |i: int| p[i % p.len() as int])
    }
}

/// The bytes 0, 1, 2, ... (modulo 256), `n` of them.
pub open spec fn kat_bytes(n: nat) -> Seq<u8> {
    Seq::new(n, |i: int| i as u8)
}

/// `n` copies of the byte `b`.
pub open spec fn fill_bytes(b: u8, n: nat) -> Seq<u8> {
    Seq::new(n, |i: int| b)
}

/// The first `n` bytes of the little-endian output words of SplitMix64
/// seeded with `seed`.
pub open spec fn rng_bytes(seed: u64, n: nat) -> Seq<u8> {
    Seq::new(n, |j: int| (splitmix_output(seed, (j / 8) as nat) >> ((8 * (j % 8)) as u64)) as u8)
}

/// The index of the first byte `c` in `s` at or after `from`, or `s.len()`
/// when there is none.
pub open spec fn next_byte(s: Seq<u8>, from: int, c: u8) -> int
    decreases s.len() - from,
{
    if from >= s.len() {
        s.len() as int
    } else if s[from] == c {
        from
    } else {
        next_byte(s, from + 1, c)
    }
}

/// The byte `:` that separates the fields of a message spec.
pub open spec fn colon() -> u8 {
    58
}

/// The message a spec stands for, or `None` when the spec is malformed.
///
/// The spec is split at every `:`; the first field names the kind. `kat`,
/// `zero` and `ff` take one more field, the length; `rep` takes a
/// hexadecimal pattern and the length; `rng` takes a decimal `u64` seed and
/// the length. Lengths are decimal `usize` values.
pub open spec fn corpus_message(s: Seq<u8>) -> Option<Seq<u8>> {
    let c1 = next_byte(s, 0, colon());
    if c1 >= s.len() {
        None
    } else {
        let tag = s.take(c1);
        let c2 = next_byte(s, c1 + 1, colon());
        if c2 >= s.len() {
            match parse_unsigned(s.skip(c1 + 1), usize::MAX as nat) {
                Some(n) => if tag == seq![107u8, 97u8, 116u8] {
                    Some(kat_bytes(n))
                } else if tag == seq![122u8, 101u8, 114u8, 111u8] {
                    Some(fill_bytes(0, n))
                } else if tag == seq![102u8, 102u8] {
                    Some(fill_bytes(0xff, n))
                } else {
                    None
                },
                None => None,
            }
        } else {
            let c3 = next_byte(s, c2 + 1, colon());
            if c3 < s.len() {
                None
            } else {
                let middle = s.subrange(c1 + 1, c2);
                match parse_unsigned(s.skip(c2 + 1), usize::MAX as nat) {
                    Some(n) => if tag == seq![114u8, 101u8, 112u8] {
                        match hex_pattern(middle) {
                            Some(p) => Some(cycle_bytes(p, n)),
                            None => None,
                        }
                    } else if tag == seq![114u8, 110u8, 103u8] {
                        match parse_unsigned(middle, u64::MAX as nat) {
                            Some(seed) => Some(rng_bytes(seed as u64, n)),
                            None => None,
                        }
                    } else {
                        None
                    },
                    None => None,
                }
            }
        }
    }
}

/// Finds the first byte `c` of `s[..end]` at or after `from`.
fn find_byte(s: &[u8], from: usize, end: usize, c: u8) -> (r: usize)
    requires
        from <= end <= s.len(),
    ensures
        r == next_byte(s@.take(end as int), from as int, c),
        from <= r <= end,
{
    let ghost sp = s@.take(end as int);
    let mut i = from;
    while i < end && s[i] != c
        invariant
            from <= i <= end <= s.len(),
            sp == s@.take(end as int),
            next_byte(sp, i as int, c) == next_byte(sp, from as int, c),
        decreases end - i,
    {
        i = i + 1;
    }
    i
}

/// Parses `s[lo..hi]` as an unsigned integer of at most `usize::MAX`.
fn parse_usize(s: &[u8], lo: usize, hi: usize) -> (r: Option<usize>)
    requires
        lo <= hi <= s.len(),
    ensures
        match parse_unsigned(s@.subrange(lo as int, hi as int), usize::MAX as nat) {
            Some(v) => r == Some(v as usize),
            None => r is None,
        },
{
    match parse_u64(s, lo, hi) {
        Some(v) => {
            if v <= usize::MAX as u64 {
                Some(v as usize)
            } else {
                None
            }
        },
        None => None,
    }
}

/// Reads the hexadecimal pattern `s[lo..hi]`.
fn decode_pattern(s: &[u8], lo: usize, hi: usize) -> (r: Option<Vec<u8>>)
    requires
        lo <= hi <= s.len(),
    ensures
        match hex_pattern(s@.subrange(lo as int, hi as int)) {
            Some(p) => r matches Some(v) && v@ == p,
            None => r is None,
        },
{
    let ghost p = s@.subrange(lo as int, hi as int);
    if (hi - lo) % 2 != 0 {
        return None;
    }
    let half = (hi - lo) / 2;
    let mut out: Vec<u8> = Vec::new();
    let mut k: usize = 0;
    while k < half
        invariant
            lo <= hi <= s.len(),
            p == s@.subrange(lo as int, hi as int),
            p.len() % 2 == 0,
            half == p.len() / 2,
            k <= half,
            out@.len() == k,
            forall|j: int| 0 <= j < k ==> #[trigger] pattern_byte(p, j) == Some(out@[j]),
        decreases half - k,
    {
        let a = s[lo + 2 * k];
        let b = s[lo + 2 * k + 1];
        let pa = hex_digit_value(a);
        let pb = hex_digit_value(b);
        let byte = if a == 43u8 {
            pb
        } else {
            match (pa, pb) {
                (Some(x), Some(y)) => Some(x * 16 + y),
                _ => None,
            }
        };
        assert(pattern_byte(p, k as int) == hex_pair(a, b));
        match byte {
            Some(v) => {
                out.push(v);
            },
            None => {
                return None;
            },
        }
        k = k + 1;
    }
    assert(out@ =~= Seq::new(p.len() / 2, |j: int| pattern_byte(p, j)->0));
    Some(out)
}

/// The value of an ASCII hexadecimal digit of either case.
fn hex_digit_value(c: u8) -> (r: Option<u8>)
    ensures
        r == hex_value(c),
{
    if 48u8 <= c && c <= 57u8 {
        Some(c - 48)
    } else if 97u8 <= c && c <= 102u8 {
        Some(c - 87)
    } else if 65u8 <= c && c <= 70u8 {
        Some(c - 55)
    } else {
        None
    }
}

/// The bytes 0, 1, 2, ... (modulo 256), `n` of them.
fn kat_message(n: usize) -> (v: Vec<u8>)
    ensures
        v@ == kat_bytes(n as nat),
{
    let mut v: Vec<u8> = Vec::new();
    let mut i: usize = 0;
    while i < n
        invariant
            i <= n,
            v@ =~= kat_bytes(i as nat),
        decreases n - i,
    {
        v.push(i as u8);
        i = i + 1;
    }
    v
}

/// `n` copies of `b`.
fn fill_message(b: u8, n: usize) -> (v: Vec<u8>)
    ensures
        v@ == fill_bytes(b, n as nat),
{
    let mut v: Vec<u8> = Vec::new();
    let mut i: usize = 0;
    while i < n
        invariant
            i <= n,
            v@ =~= fill_bytes(b, i as nat),
        decreases n - i,
    {
        v.push(b);
        i = i + 1;
    }
    v
}

/// `n` bytes of `p` repeated; nothing when `p` is empty.
fn cycle_message(p: &Vec<u8>, n: usize) -> (v: Vec<u8>)
    ensures
        v@ == cycle_bytes(p@, n as nat),
{
    let mut v: Vec<u8> = Vec::new();
    if p.len() == 0 {
        return v;
    }
    let mut i: usize = 0;
    while i < n
        invariant
            p.len() > 0,
            i <= n,
            v@ =~= Seq::new(i as nat, |k: int| p@[k % p@.len() as int]),
        decreases n - i,
    {
        v.push(p[i % p.len()]);
        i = i + 1;
    }
    v
}

/// The first `n` bytes of the little-endian output words of SplitMix64
/// seeded with `seed`.
fn rng_message(seed: u64, n: usize) -> (v: Vec<u8>)
    ensures
        v@ == rng_bytes(seed, n as nat),
{
    let mut rng = SplitMix64::new(seed);
    let mut out: Vec<u8> = Vec::new();
    let mut w: usize = 0;
    while out.len() < n
        invariant
            out@.len() <= n,
            out@.len() < n ==> out@.len() == 8 * w,
            rng@ == splitmix_state(seed, w as nat),
            forall|j: int| 0 <= j < out@.len() ==> #[trigger] out@[j] == rng_bytes(seed, n as nat)[j],
        decreases n - out@.len(),
    {
        let word = rng.next_u64();
        assert(word == splitmix_output(seed, w as nat));
        let mut b: usize = 0;
        while b < 8
            invariant
                b <= 8,
                out@.len() <= n,
                out@.len() < n ==> out@.len() == 8 * w + b,
                out@.len() == n || b == 0 || out@.len() == 8 * w + b,
                word == splitmix_output(seed, w as nat),
                forall|j: int| 0 <= j < out@.len() ==> #[trigger] out@[j] == rng_bytes(seed, n as nat)[j],
            decreases 8 - b,
        {
            if out.len() < n {
                let j = out.len();
                out.push((word >> (8 * b as u64)) as u8);
                proof {
                    lemma_fundamental_div_mod_converse(j as int, 8, w as int, b as int);
                }
            }
            b = b + 1;
        }
        w = w + 1;
    }
    assert(out@ =~= rng_bytes(seed, n as nat));
    out
}

/// Whether `s[..end]` is exactly the given tag.
fn tag_is(s: &[u8], end: usize, tag: &[u8]) -> (r: bool)
    requires
        end <= s.len(),
    ensures
        r == (s@.take(end as int) == tag@),
{
    if end != tag.len() {
        assert(s@.take(end as int).len() != tag@.len());
        return false;
    }
    let mut i: usize = 0;
    while i < end
        invariant
            end <= s.len(),
            end == tag.len(),
            i <= end,
            forall|k: int| 0 <= k < i ==> s@[k] == tag@[k],
        decreases end - i,
    {
        if s[i] != tag[i] {
            assert(s@.take(end as int)[i as int] != tag@[i as int]);
            return false;
        }
        i = i + 1;
    }
    assert(s@.take(end as int) =~= tag@);
    true
}

/// The message that the spec `s[..end]` stands for.
fn message_of_prefix(s: &[u8], end: usize) -> (r: Option<Vec<u8>>)
    requires
        end <= s.len(),
    ensures
        match corpus_message(s@.take(end as int)) {
            Some(m) => r matches Some(v) && v@ == m,
            None => r is None,
        },
{
    let ghost sp = s@.take(end as int);
    let c1 = find_byte(s, 0, end, 58u8);
    if c1 >= end {
        return None;
    }
    assert(sp.take(c1 as int) =~= s@.take(c1 as int));
    let kat: [u8; 3] = [107u8, 97u8, 116u8];
    let zero: [u8; 4] = [122u8, 101u8, 114u8, 111u8];
    let ff: [u8; 2] = [102u8, 102u8];
    let rep: [u8; 3] = [114u8, 101u8, 112u8];
    let rng: [u8; 3] = [114u8, 110u8, 103u8];
    assert(kat@ =~= seq![107u8, 97u8, 116u8]);
    assert(zero@ =~= seq![122u8, 101u8, 114u8, 111u8]);
    assert(ff@ =~= seq![102u8, 102u8]);
    assert(rep@ =~= seq![114u8, 101u8, 112u8]);
    assert(rng@ =~= seq![114u8, 110u8, 103u8]);
    let c2 = find_byte(s, c1 + 1, end, 58u8);
    if c2 >= end {
        assert(sp.skip(c1 + 1) =~= s@.subrange(c1 + 1, end as int));
        let n = match parse_usize(s, c1 + 1, end) {
            Some(n) => n,
            None => {
                return None;
            },
        };
        if tag_is(s, c1, kat.as_slice()) {
            Some(kat_message(n))
        } else if tag_is(s, c1, zero.as_slice()) {
            Some(fill_message(0u8, n))
        } else if tag_is(s, c1, ff.as_slice()) {
            Some(fill_message(0xffu8, n))
        } else {
            None
        }
    } else {
        let c3 = find_byte(s, c2 + 1, end, 58u8);
        if c3 < end {
            return None;
        }
        assert(sp.skip(c2 + 1) =~= s@.subrange(c2 + 1, end as int));
        assert(sp.subrange(c1 + 1, c2 as int) =~= s@.subrange(c1 + 1, c2 as int));
        let n = match parse_usize(s, c2 + 1, end) {
            Some(n) => n,
            None => {
                return None;
            },
        };
        if tag_is(s, c1, rep.as_slice()) {
            match decode_pattern(s, c1 + 1, c2) {
                Some(p) => Some(cycle_message(&p, n)),
                None => None,
            }
        } else if tag_is(s, c1, rng.as_slice()) {
            match parse_u64(s, c1 + 1, c2) {
                Some(seed) => Some(rng_message(seed, n)),
                None => None,
            }
        } else {
            None
        }
    }
}

/// Rebuilds a corpus message from its spec (see [`corpus_message`] for the
/// grammar); `None` when the spec is malformed.
pub fn build_message(spec: &str) -> (r: Option<Vec<u8>>)
    ensures
        match corpus_message(spec.spec_bytes()) {
            Some(m) => r matches Some(v) && v@ == m,
            None => r is None,
        },
{
    let s = spec.as_bytes();
    assert(s@.take(s@.len() as int) =~= s@);
    message_of_prefix(s, s.len())
}

/// The lowercase ASCII hexadecimal digit for a value below 16.
pub open spec fn hex_digit(v: u8) -> u8 {
    if v < 10 {
        (48 + v) as u8
    } else {
        (87 + v) as u8
    }
}

/// Lowercase hexadecimal text of `b`, two digits per byte, high nibble
/// first.
pub open spec fn hex_lower(b: Seq<u8>) -> Seq<u8>
    decreases b.len(),
{
    if b.len() == 0 {
        Seq::empty()
    } else {
        hex_lower(b.drop_last()) + seq![hex_digit(b.last() >> 4u8), hex_digit(b.last() & 15u8)]
    }
}

/// The lowercase hexadecimal digit for a value below 16.
fn hex_digit_of(v: u8) -> (c: u8)
    requires
        v < 16,
    ensures
        c == hex_digit(v),
{
    if v < 10 {
        48 + v
    } else {
        87 + v
    }
}

/// Appends the lowercase hexadecimal text of `b` to `out`.
fn push_hex(out: &mut Vec<u8>, b: &[u8])
    ensures
        final(out)@ == old(out)@ + hex_lower(b@),
{
    let ghost start = out@;
    let mut i: usize = 0;
    while i < b.len()
        invariant
            i <= b.len(),
            out@ == start + hex_lower(b@.take(i as int)),
        decreases b.len() - i,
    {
        let x = b[i];
        assert(x >> 4u8 < 16 && x & 15u8 < 16) by (bit_vector);
        out.push(hex_digit_of(x >> 4u8));
        out.push(hex_digit_of(x & 15u8));
        proof {
            let t = b@.take(i + 1);
            assert(t.drop_last() =~= b@.take(i as int));
            assert(t.last() == x);
        }
        i = i + 1;
    }
    assert(b@.take(b.len() as int) =~= b@);
}

/// What RustCrypto's `Blake2b::<U24>::digest` returns for `msg`.
pub uninterp spec fn rustcrypto_blake2b192(msg: Seq<u8>) -> Seq<u8>;

/// Calls RustCrypto's `blake2::Blake2b::<U24>::digest` (through the
/// `Digest` trait) on `msg`. The contract claims only that the 24 bytes it
/// returns are a function of the message alone, named
/// `rustcrypto_blake2b192`; that they are BLAKE2b-192 is what the
/// differential tests check, not something proved here.
#[verifier::external_body]
fn rustcrypto_digest24(msg: &[u8]) -> (d: [u8; 24])
    ensures
        d@ == rustcrypto_blake2b192(msg@),
{
    <blake2::Blake2b<blake2::digest::consts::U24> as blake2::Digest>::digest(msg).into()
}

/// The differential fixture for one corpus line: the message spec (the
/// line up to its first space) and the RustCrypto digest of its message.
pub open spec fn fixture_for(line: Seq<u8>) -> Option<Seq<u8>> {
    let p = next_byte(line, 0, 32);
    if p >= line.len() {
        None
    } else {
        match corpus_message(line.take(p)) {
            Some(m) => Some(line.take(p) + seq![32u8] + hex_lower(rustcrypto_blake2b192(m))),
            None => None,
        }
    }
}

/// The differential fixture line `<spec> <hex digest>` for a corpus line
/// `<spec> <anything>`, with the digest computed by RustCrypto's BLAKE2b
/// with a 24-byte output; `None` when the line has no space or its spec is
/// malformed.
pub fn fixture_line(line: &str) -> (r: Option<Vec<u8>>)
    ensures
        match fixture_for(line.spec_bytes()) {
            Some(f) => r matches Some(v) && v@ == f,
            None => r is None,
        },
{
    let s = line.as_bytes();
    let p = find_byte(s, 0, s.len(), 32u8);
    assert(s@.take(s@.len() as int) =~= s@);
    if p >= s.len() {
        return None;
    }
    let msg = match message_of_prefix(s, p) {
        Some(m) => m,
        None => {
            return None;
        },
    };
    let digest = rustcrypto_digest24(msg.as_slice());
    let mut out: Vec<u8> = Vec::new();
    let mut i: usize = 0;
    while i < p
        invariant
            p < s.len(),
            i <= p,
            out@ =~= s@.take(i as int),
        decreases p - i,
    {
        out.push(s[i]);
        i = i + 1;
    }
    out.push(32u8);
    push_hex(&mut out, digest.as_slice());
    Some(out)
}

/// The repeated-pattern message starts with the pattern and repeats with
/// the pattern's length as its period, `n` bytes in all.
pub proof fn law_repeat_is_periodic(p: Seq<u8>, n: nat)
    requires
        p.len() > 0,
    ensures
        cycle_bytes(p, n).len() == n,
        forall|i: int| 0 <= i < n && i < p.len() ==> #[trigger] cycle_bytes(p, n)[i] == p[i],
        forall|i: int|
            0 <= i && i + p.len() < n ==> #[trigger] cycle_bytes(p, n)[i + p.len()] == cycle_bytes(
                p,
                n,
            )[i],
{
    let l = p.len() as int;
    assert forall|i: int| 0 <= i < n && i < p.len() implies #[trigger] cycle_bytes(p, n)[i]
        == p[i] by {
        lemma_fundamental_div_mod_converse(i, l, 0, i);
    }
    assert forall|i: int| 0 <= i && i + p.len() < n implies #[trigger] cycle_bytes(p, n)[i
        + p.len()] == cycle_bytes(p, n)[i] by {
        lemma_fundamental_div_mod(i, l);
        let q = i / l;
        let r = i % l;
        assert(i + l == (q + 1) * l + r) by (nonlinear_arith)
            requires
                i == l * q + r,
        ;
        lemma_fundamental_div_mod_converse(i + l, l, q + 1, r);
    }
}

/// No byte `c` in `s[from..to]`, and `to` is the end of `s` or holds `c`:
/// then the first `c` at or after `from` is at `to`.
proof fn lemma_next_byte_at(s: Seq<u8>, from: int, to: int, c: u8)
    requires
        0 <= from <= to <= s.len(),
        forall|i: int| from <= i < to ==> s[i] != c,
        to == s.len() || s[to] == c,
    ensures
        next_byte(s, from, c) == to,
    decreases to - from,
{
    if from < to {
        lemma_next_byte_at(s, from + 1, to, c);
    }
}

/// No byte `:` in `x`.
pub open spec fn colon_free(x: Seq<u8>) -> bool {
    forall|i: int| 0 <= i < x.len() ==> x[i] != colon()
}

/// The message of `rep:<p>:<d>` (no further colons), where `p` reads as a
/// non-empty hexadecimal pattern `q` and `d` as the length `n`, is `n`
/// bytes that start with `q` and repeat with period `q.len()`.
pub proof fn law_rep_message(p: Seq<u8>, d: Seq<u8>, q: Seq<u8>, n: nat)
    requires
        colon_free(p),
        colon_free(d),
        hex_pattern(p) == Some(q),
        q.len() > 0,
        parse_unsigned(d, usize::MAX as nat) == Some(n),
    ensures
        ({
            let s = seq![114u8, 101u8, 112u8, 58u8] + p + seq![58u8] + d;
            &&& corpus_message(s) matches Some(m)
            &&& m.len() == n
            &&& forall|i: int| 0 <= i < n && i < q.len() ==> #[trigger] m[i] == q[i]
            &&& forall|i: int| 0 <= i && i + q.len() < n ==> #[trigger] m[i + q.len()] == m[i]
        }),
{
    let s = seq![114u8, 101u8, 112u8, 58u8] + p + seq![58u8] + d;
    let lp = p.len() as int;
    assert forall|i: int| 0 <= i < 3 implies s[i] != colon() by {}
    lemma_next_byte_at(s, 0, 3, colon());
    assert forall|i: int| 4 <= i < 4 + lp implies s[i] != colon() by {
        assert(s[i] == p[i - 4]);
    }
    lemma_next_byte_at(s, 4, 4 + lp, colon());
    assert forall|i: int| 5 + lp <= i < s.len() implies s[i] != colon() by {
        assert(s[i] == d[i - 5 - lp]);
    }
    lemma_next_byte_at(s, 5 + lp, s.len() as int, colon());
    assert(s.take(3) =~= seq![114u8, 101u8, 112u8]);
    assert(s.subrange(4, 4 + lp) =~= p);
    assert(s.skip(5 + lp) =~= d);
    law_repeat_is_periodic(q, n);
}

/// The fixture for a line whose first space is at `sp` and whose spec (the
/// bytes before it) stands for message `m` is the spec, a space, and the
/// hexadecimal text of RustCrypto's digest of the whole of `m`.
pub proof fn law_fixture_digests_whole_message(line: Seq<u8>, sp: int, m: Seq<u8>)
    requires
        0 <= sp < line.len(),
        line[sp] == 32,
        forall|i: int| 0 <= i < sp ==> line[i] != 32,
        corpus_message(line.take(sp)) == Some(m),
    ensures
        fixture_for(line) == Some(line.take(sp) + seq![32u8] + hex_lower(rustcrypto_blake2b192(m))),
{
    lemma_next_byte_at(line, 0, sp, 32);
}

/// Lowercase hexadecimal text reads back as the bytes it encodes: two
/// characters per byte, each a digit or a lowercase letter `a` to `f`, the
/// high nibble first.
pub proof fn law_hex_lower_reads_back(b: Seq<u8>)
    ensures
        hex_lower(b).len() == 2 * b.len(),
        forall|i: int|
            0 <= i < b.len() ==> {
                &&& hex_value(#[trigger] hex_lower(b)[2 * i]) == Some((b[i] / 16) as u8)
                &&& hex_value(hex_lower(b)[2 * i + 1]) == Some((b[i] % 16) as u8)
                &&& !(65 <= hex_lower(b)[2 * i] <= 70)
                &&& !(65 <= hex_lower(b)[2 * i + 1] <= 70)
            },
    decreases b.len(),
{
    if b.len() > 0 {
        let a = b.drop_last();
        law_hex_lower_reads_back(a);
        let x = b.last();
        assert(x >> 4u8 == x / 16 && x & 15u8 == x % 16) by (bit_vector);
        assert forall|i: int| 0 <= i < b.len() implies {
            &&& hex_value(#[trigger] hex_lower(b)[2 * i]) == Some((b[i] / 16) as u8)
            &&& hex_value(hex_lower(b)[2 * i + 1]) == Some((b[i] % 16) as u8)
            &&& !(65 <= hex_lower(b)[2 * i] <= 70)
            &&& !(65 <= hex_lower(b)[2 * i + 1] <= 70)
        } by {
            if i < a.len() {
                assert(hex_lower(b)[2 * i] == hex_lower(a)[2 * i]);
                assert(hex_lower(b)[2 * i + 1] == hex_lower(a)[2 * i + 1]);
                assert(b[i] == a[i]);
            }
        }
    }
}

/// How a spec of two colon-free fields splits.
proof fn lemma_two_fields(tag: Seq<u8>, d: Seq<u8>)
    requires
        colon_free(tag),
        colon_free(d),
    ensures
        ({
            let s = tag + seq![58u8] + d;
            let c = tag.len() as int;
            &&& next_byte(s, 0, colon()) == c
            &&& next_byte(s, c + 1, colon()) == s.len()
            &&& s.take(c) == tag
            &&& s.skip(c + 1) == d
        }),
{
    let s = tag + seq![58u8] + d;
    let c = tag.len() as int;
    assert forall|i: int| 0 <= i < c implies s[i] != colon() by {
        assert(s[i] == tag[i]);
    }
    lemma_next_byte_at(s, 0, c, colon());
    assert forall|i: int| c + 1 <= i < s.len() implies s[i] != colon() by {
        assert(s[i] == d[i - c - 1]);
    }
    lemma_next_byte_at(s, c + 1, s.len() as int, colon());
    assert(s.take(c) =~= tag);
    assert(s.skip(c + 1) =~= d);
}

/// The byte-count field reads as `n`: then `kat:`, `zero:` and `ff:`
/// followed by it stand for `n` bytes that are, respectively, `i mod 256`
/// at position `i`, all zero, and all `0xff`.
pub proof fn law_count_messages(d: Seq<u8>, n: nat)
    requires
        colon_free(d),
        parse_unsigned(d, usize::MAX as nat) == Some(n),
    ensures
        corpus_message(seq![107u8, 97u8, 116u8] + seq![58u8] + d) matches Some(m) && m.len() == n && (
        forall|i: int| 0 <= i < n ==> #[trigger] m[i] as int == i % 256),
        corpus_message(seq![122u8, 101u8, 114u8, 111u8] + seq![58u8] + d) matches Some(m) && m.len() == n
            && (forall|i: int| 0 <= i < n ==> #[trigger] m[i] == 0),
        corpus_message(seq![102u8, 102u8] + seq![58u8] + d) matches Some(m) && m.len() == n && (forall|
            i: int,
        | 0 <= i < n ==> #[trigger] m[i] == 255),
{
    lemma_two_fields(seq![107u8, 97u8, 116u8], d);
    lemma_two_fields(seq![122u8, 101u8, 114u8, 111u8], d);
    lemma_two_fields(seq![102u8, 102u8], d);
    assert forall|i: int| 0 <= i < n implies #[trigger] kat_bytes(n)[i] as int == i % 256 by {
        let u = i as u64;
        assert(u as int == i);
        assert((u as u8) as int == (u as int) % 256) by (bit_vector);
    }
}

/// The SplitMix64 state after `k` steps from `seed` is `seed + k * gamma`
/// modulo 2^64.
pub proof fn law_splitmix_state_closed_form(seed: u64, k: nat)
    ensures
        splitmix_state(seed, k) as int == (seed as int + k * 0x9E37_79B9_7F4A_7C15int)
            % 0x1_0000_0000_0000_0000int,
    decreases k,
{
    let m = 0x1_0000_0000_0000_0000int;
    if k == 0 {
        lemma_fundamental_div_mod_converse(seed as int, m, 0, seed as int);
    } else {
        law_splitmix_state_closed_form(seed, (k - 1) as nat);
        let prev = splitmix_state(seed, (k - 1) as nat) as int;
        let g = 0x9E37_79B9_7F4A_7C15int;
        let x = seed as int + (k - 1) * g;
        // prev == x % m, and the new state is (prev + g) % m == (x + g) % m.
        lemma_fundamental_div_mod(x, m);
        let q = x / m;
        assert(x + g == m * q + (prev + g));
        lemma_mod_multiples_vanish(q, prev + g, m);
        assert(x + g == seed as int + k * g) by (nonlinear_arith)
            requires
                x == seed as int + (k - 1) * g,
        ;
    }
}

/// The message of `rng:<a>:<d>` (no further colons), where `a` reads as
/// the `u64` seed and `d` as the length `n`, is `n` bytes: byte `j` of
/// group `k` (position `8k + j`) is byte `j`, least significant first, of
/// the `k`-th output of SplitMix64 from `seed`, which mixes the state
/// `seed + (k + 1) * gamma` modulo 2^64.
pub proof fn law_rng_message(a: Seq<u8>, d: Seq<u8>, seed: nat, n: nat)
    requires
        colon_free(a),
        colon_free(d),
        parse_unsigned(a, u64::MAX as nat) == Some(seed),
        parse_unsigned(d, usize::MAX as nat) == Some(n),
    ensures
        ({
            let s = seq![114u8, 110u8, 103u8, 58u8] + a + seq![58u8] + d;
            &&& corpus_message(s) matches Some(m)
            &&& m.len() == n
            &&& forall|k: int, j: int|
                0 <= k && 0 <= j < 8 && 8 * k + j < n ==> #[trigger] m[8 * k + j] == (splitmix_finish(
                    ((seed + (k + 1) * 0x9E37_79B9_7F4A_7C15int) % 0x1_0000_0000_0000_0000int) as u64,
                ) >> ((8 * j) as u64)) as u8
        }),
{
    let s = seq![114u8, 110u8, 103u8, 58u8] + a + seq![58u8] + d;
    let la = a.len() as int;
    assert forall|i: int| 0 <= i < 3 implies s[i] != colon() by {}
    lemma_next_byte_at(s, 0, 3, colon());
    assert forall|i: int| 4 <= i < 4 + la implies s[i] != colon() by {
        assert(s[i] == a[i - 4]);
    }
    lemma_next_byte_at(s, 4, 4 + la, colon());
    assert forall|i: int| 5 + la <= i < s.len() implies s[i] != colon() by {
        assert(s[i] == d[i - 5 - la]);
    }
    lemma_next_byte_at(s, 5 + la, s.len() as int, colon());
    assert(s.take(3) =~= seq![114u8, 110u8, 103u8]);
    assert(s.subrange(4, 4 + la) =~= a);
    assert(s.skip(5 + la) =~= d);
    let m = rng_bytes(seed as u64, n);
    assert forall|k: int, j: int| 0 <= k && 0 <= j < 8 && 8 * k + j < n implies #[trigger] m[8
        * k + j] == (splitmix_finish(
        ((seed + (k + 1) * 0x9E37_79B9_7F4A_7C15int) % 0x1_0000_0000_0000_0000int) as u64,
    ) >> ((8 * j) as u64)) as u8 by {
        lemma_fundamental_div_mod_converse(8 * k + j, 8, k, j);
        law_splitmix_state_closed_form(seed as u64, (k + 1) as nat);
    }
}

} // verus!
