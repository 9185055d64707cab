//! Fixed-width little-endian integers, and copies of byte strings.

use vstd::prelude::*;

verus! {

/// The `n` low-order bytes of `x`, least significant first.
pub open spec fn le_bytes(x: nat, n: nat) -> Seq<u8>
    decreases n,
{
    if n == 0 {
        Seq::empty()
    } else {
        seq![(x % 256) as u8] + le_bytes(x / 256, (n - 1) as nat)
    }
}

/// The integer that a little-endian byte string denotes.
pub open spec fn le_value(s: Seq<u8>) -> nat
    decreases s.len(),
{
    if s.len() == 0 {
        0
    } else {
        s[0] as nat + 256 * le_value(s.skip(1))
    }
}

/// How many integers fit in `n` bytes.
pub open spec fn le_capacity(n: nat) -> nat
    decreases n,
{
    if n == 0 {
        1
    } else {
        256 * le_capacity((n - 1) as nat)
    }
}

pub proof fn lemma_capacities()
    ensures
        le_capacity(4) == 0x1_0000_0000,
        le_capacity(8) == 0x1_0000_0000_0000_0000,
{
    reveal_with_fuel(le_capacity, 9);
}

pub proof fn lemma_capacity_grows(m: nat, n: nat)
    requires
        m <= n,
    ensures
        0 < le_capacity(m) <= le_capacity(n),
    decreases n,
{
    if n > 0 {
        if m < n {
            lemma_capacity_grows(m, (n - 1) as nat);
        } else {
            lemma_capacity_grows((m - 1) as nat, (n - 1) as nat);
        }
    }
}

pub proof fn lemma_le_bytes_len(x: nat, n: nat)
    ensures
        le_bytes(x, n).len() == n,
    decreases n,
{
    if n > 0 {
        lemma_le_bytes_len(x / 256, (n - 1) as nat);
    }
}

/// Writing an integer that fits and reading it back gives the same integer.
pub proof fn lemma_le_value_of_bytes(x: nat, n: nat)
    requires
        x < le_capacity(n),
    ensures
        le_value(le_bytes(x, n)) == x,
    decreases n,
{
    if n > 0 {
        lemma_le_value_of_bytes(x / 256, (n - 1) as nat);
        lemma_le_bytes_len(x / 256, (n - 1) as nat);
        assert(le_bytes(x, n).skip(1) =~= le_bytes(x / 256, (n - 1) as nat));
    }
}

/// Reading a byte string as an integer and writing it back gives the same bytes.
pub proof fn lemma_le_bytes_of_value(s: Seq<u8>)
    ensures
        le_bytes(le_value(s), s.len()) == s,
    decreases s.len(),
{
    if s.len() > 0 {
        lemma_le_bytes_of_value(s.skip(1));
        let rest = le_value(s.skip(1));
        assert(le_value(s) % 256 == s[0] as nat);
        assert(le_value(s) / 256 == rest);
        assert(seq![s[0]] + s.skip(1) =~= s);
    } else {
        assert(s =~= Seq::<u8>::empty());
    }
}

pub proof fn lemma_le_value_bound(s: Seq<u8>)
    ensures
        le_value(s) < le_capacity(s.len()),
    decreases s.len(),
{
    if s.len() > 0 {
        lemma_le_value_bound(s.skip(1));
    }
}

/// Appends the `n` low-order bytes of `x`, least significant first.
pub fn push_le(out: &mut Vec<u8>, x: u64, n: usize)
    ensures
        final(out)@ == old(out)@ + le_bytes(x as nat, n as nat),
{
    let mut rest: u64 = x;
    let mut i: usize = 0;
    while i < n
        invariant
            i <= n,
            out@ + le_bytes(rest as nat, (n - i) as nat) == old(out)@ + le_bytes(
                x as nat,
                n as nat,
            ),
        decreases n - i,
    {
        proof {
            let tail = le_bytes((rest / 256) as nat, (n - i - 1) as nat);
            assert(out@ + (seq![(rest % 256) as u8] + tail) =~= out@.push((rest % 256) as u8)
                + tail);
        }
        out.push((rest % 256) as u8);
        rest = rest / 256;
        i = i + 1;
    }
    assert(out@ + le_bytes(rest as nat, 0) =~= out@);
}

/// Reads the `n` bytes of `s` that start at `at` as a little-endian integer.
pub fn read_le(s: &[u8], at: usize, n: usize) -> (x: u64)
    requires
        at + n <= s@.len(),
        n <= 8,
    ensures
        x == le_value(s@.subrange(at as int, at + n)),
{
    let mut x: u64 = 0;
    let mut i: usize = n;
    while i > 0
        invariant
            i <= n <= 8,
            at + n <= s.len(),
            x == le_value(s@.subrange(at + i, at + n)),
        decreases i,
    {
        i = i - 1;
        proof {
            let high = s@.subrange(at + i + 1, at + n);
            let wide = s@.subrange(at + i, at + n);
            assert(wide.skip(1) =~= high);
            lemma_le_value_bound(wide);
            lemma_capacity_grows(wide.len(), 8);
            lemma_capacities();
        }
        x = x * 256 + s[at + i] as u64;
    }
    x
}

/// Byte `i` of the stored form is digit `i` of the integer in base 256.
pub proof fn law_stored_bytes_are_digits(x: nat, n: nat, i: nat)
    requires
        i < n,
    ensures
        le_bytes(x, n).len() == n,
        le_bytes(x, n)[i as int] as int == (x as int / vstd::arithmetic::power::pow(256, i)) % 256,
    decreases n,
{
    lemma_le_bytes_len(x, n);
    lemma_le_bytes_len(x / 256, (n - 1) as nat);
    reveal(vstd::arithmetic::power::pow);
    if i > 0 {
        let j = (i - 1) as nat;
        law_stored_bytes_are_digits(x / 256, (n - 1) as nat, j);
        vstd::arithmetic::power::lemma_pow_positive(256, j);
        vstd::arithmetic::div_mod::lemma_div_denominator(
            x as int,
            256,
            vstd::arithmetic::power::pow(256, j),
        );
    }
}

/// The integer behind a byte string: no bytes are zero, and every further byte
/// counts 256 times as much as the one before it.
pub proof fn law_value_sums_up_digits(s: Seq<u8>, b: u8)
    ensures
        le_value(Seq::<u8>::empty()) == 0,
        le_value(s.push(b)) == le_value(s) + b * vstd::arithmetic::power::pow(256, s.len()),
    decreases s.len(),
{
    reveal(vstd::arithmetic::power::pow);
    if s.len() == 0 {
        assert(s.push(b).skip(1) =~= Seq::<u8>::empty());
        assert(s =~= Seq::<u8>::empty());
    } else {
        law_value_sums_up_digits(s.skip(1), b);
        assert(s.push(b).skip(1) =~= s.skip(1).push(b));
        let unit = vstd::arithmetic::power::pow(256, (s.len() - 1) as nat);
        assert(256 * (b * unit) == b * (256 * unit)) by (nonlinear_arith);
    }
}

/// The integers that fit in `n` bytes are those below 256 to the power of `n`.
pub proof fn law_capacity_is_a_power(n: nat)
    ensures
        le_capacity(n) == vstd::arithmetic::power::pow(256, n),
    decreases n,
{
    reveal(vstd::arithmetic::power::pow);
    if n > 0 {
        law_capacity_is_a_power((n - 1) as nat);
    }
}

/// A vector of its own with the same bytes.
pub fn copy_bytes(bytes: &Vec<u8>) -> (r: Vec<u8>)
    ensures
        r@ == bytes@,
{
    vstd::slice::slice_to_vec(bytes.as_slice())
}

} // verus!
