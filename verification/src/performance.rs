//! Short forms of game counts.
use vstd::prelude::*;
use crate::text::{append_chars, append_str, dec, decimal, string_of};

verus! {

broadcast use vstd::string::group_string_axioms;

/// `count / unit` rounded to the nearest integer, halves up.
pub open spec fn round_half_up(count: nat, unit: nat) -> nat {
    if 2 * (count % unit) >= unit {
        count / unit + 1
    } else {
        count / unit
    }
}

/// `2^n`.
pub open spec fn two_pow(n: nat) -> nat
    decreases n,
{
    if n == 0 {
        1
    } else {
        2 * two_pow((n - 1) as nat)
    }
}

/// The binary exponent of `c / 10^6` (searched from `k`, at most 12): the `k` with
/// `2^k <= c / 10^6 < 2^(k+1)`.
pub open spec fn exponent_of(c: nat, k: nat) -> nat
    decreases 12 - k,
{
    if k >= 12 || c < two_pow(k + 1) * 1_000_000 {
        k
    } else {
        exponent_of(c, k + 1)
    }
}

/// Whether the `f64` nearest to `c / 10^6` lies above it: the quotient scaled to 53
/// significant bits, rounded to nearest with ties to even, rounds up.
pub open spec fn f64_quotient_rounds_up(c: nat) -> bool {
    let s = (52 - exponent_of(c, 0)) as nat;
    let n = c * two_pow(s);
    let rem = n % 1_000_000;
    let m = n / 1_000_000;
    2 * rem > 1_000_000 || (2 * rem == 1_000_000 && m % 2 == 1)
}

/// `count / 100_000` rounded as the `f64` quotient `count / 10^6` printed with one decimal:
/// to the nearest tenth, and where the count lies exactly halfway between two tenths, up
/// when the `f64` nearest to the quotient lies above it and down otherwise (the halfway
/// value itself has no exact `f64`).
pub open spec fn tenths_of(count: nat) -> nat {
    let q = count / 100_000;
    let r = count % 100_000;
    if 2 * r > 100_000 {
        q + 1
    } else if 2 * r < 100_000 {
        q
    } else if f64_quotient_rounds_up(count) {
        q + 1
    } else {
        q
    }
}

/// A count as the tables show it: millions with one decimal (`1.2M`), rounded as the `f64`
/// quotient prints; tens of thousands and more in thousands (`13k`), halves up; smaller
/// counts in full.
pub open spec fn count_text(count: nat) -> Seq<char> {
    if count >= 1_000_000 {
        let t = tenths_of(count);
        dec(t / 10) + "."@ + dec(t % 10) + "M"@
    } else if count >= 10_000 {
        dec(round_half_up(count, 1000)) + "k"@
    } else {
        dec(count)
    }
}

proof fn lemma_two_pow_pos(n: nat)
    ensures
        two_pow(n) >= 1,
    decreases n,
{
    if n > 0 {
        lemma_two_pow_pos((n - 1) as nat);
    }
}

proof fn lemma_two_pow_mono(i: nat, j: nat)
    requires
        i <= j,
    ensures
        two_pow(i) <= two_pow(j),
    decreases j,
{
    if i < j {
        lemma_two_pow_mono(i, (j - 1) as nat);
        lemma_two_pow_pos((j - 1) as nat);
    }
}

/// Whether the `f64` nearest to `count / 10^6` lies above it.
fn quotient_rounds_up(count: u32) -> (r: bool)
    requires
        count >= 1_000_000,
    ensures
        r == f64_quotient_rounds_up(count as nat),
{
    assert(two_pow(13) == 8192) by {
        reveal_with_fuel(two_pow, 14);
    }
    assert(two_pow(52) == 0x10_0000_0000_0000) by {
        reveal_with_fuel(two_pow, 53);
    }
    let mut k: u64 = 0;
    let mut p: u64 = 2;
    while k < 12 && (count as u64) >= p * 1_000_000
        invariant
            k <= 12,
            p == two_pow((k + 1) as nat),
            p <= 8192,
            two_pow(13) == 8192,
            exponent_of(count as nat, 0) == exponent_of(count as nat, k as nat),
        decreases 12 - k,
    {
        proof {
            lemma_two_pow_mono((k + 2) as nat, 13);
        }
        k = k + 1;
        p = p * 2;
    }
    proof {
        lemma_two_pow_mono((k + 1) as nat, 13);
    }
    assert(exponent_of(count as nat, k as nat) == k);
    let s: u64 = 52 - k;
    let mut i: u64 = 0;
    let mut f: u128 = 1;
    while i < s
        invariant
            i <= s,
            s <= 52,
            f == two_pow(i as nat),
            f <= 0x10_0000_0000_0000,
            two_pow(52) == 0x10_0000_0000_0000,
        decreases s - i,
    {
        proof {
            lemma_two_pow_mono((i + 1) as nat, 52);
        }
        i = i + 1;
        f = f * 2;
    }
    proof {
        lemma_two_pow_mono(s as nat, 52);
    }
    assert(count as nat * f <= 0xffff_ffff * 0x10_0000_0000_0000) by (nonlinear_arith)
        requires
            count <= 0xffff_ffff,
            f <= 0x10_0000_0000_0000,
    ;
    let n: u128 = count as u128 * f;
    let rem: u128 = n % 1_000_000;
    let m: u128 = n / 1_000_000;
    2 * rem > 1_000_000 || (2 * rem == 1_000_000 && m % 2 == 1)
}

pub fn simplify_count(count: u32) -> (r: String)
    ensures
        r@ == count_text(count as nat),
{
    let mut v: Vec<char> = Vec::new();
    if count >= 1_000_000 {
        let q: u32 = count / 100_000;
        let rem: u32 = count % 100_000;
        let t: u32 = if 2 * rem > 100_000 {
            q + 1
        } else if 2 * rem < 100_000 {
            q
        } else if quotient_rounds_up(count) {
            q + 1
        } else {
            q
        };
        let whole = decimal((t / 10) as u64);
        let frac = decimal((t % 10) as u64);
        append_chars(&mut v, whole.as_slice());
        append_str(&mut v, ".");
        append_chars(&mut v, frac.as_slice());
        append_str(&mut v, "M");
    } else if count >= 10_000 {
        let q: u32 = count / 1000;
        let rem: u32 = count % 1000;
        let k: u32 = if 2 * rem >= 1000 {
            q + 1
        } else {
            q
        };
        let d = decimal(k as u64);
        append_chars(&mut v, d.as_slice());
        append_str(&mut v, "k");
    } else {
        let d = decimal(count as u64);
        append_chars(&mut v, d.as_slice());
    }
    string_of(v.as_slice())
}

} // verus!
