//! `greet`: says hello to its first argument, then reports how many bytes
//! its first write took.
use vstd::prelude::*;

verus! {

/// The decimal digits of `n`, most significant first ("0" for zero).
pub open spec fn decimal(n: nat) -> Seq<u8>
    decreases n,
{
    if n < 10 {
        seq![(48 + n) as u8]
    } else {
        decimal(n / 10).push((48 + n % 10) as u8)
    }
}

/// The number that decimal digits stand for.
pub open spec fn digits_value(d: Seq<u8>) -> nat
    decreases d.len(),
{
    if d.len() == 0 {
        0
    } else {
        (digits_value(d.drop_last()) * 10 + (d.last() - 48)) as nat
    }
}

/// `10^k`.
pub open spec fn ten_pow(k: nat) -> nat
    decreases k,
{
    if k == 0 {
        1
    } else {
        10 * ten_pow((k - 1) as nat)
    }
}

/// Numbers below `10^k` have at most `k` digits.
proof fn lemma_decimal_bound(n: nat, k: nat)
    requires
        k >= 1,
        n < ten_pow(k),
    ensures
        1 <= decimal(n).len() <= k,
    decreases n,
{
    if n >= 10 {
        if k == 1 {
            assert(ten_pow(1) == 10 * ten_pow(0));
        } else {
            let p = ten_pow((k - 1) as nat);
            assert(n / 10 < p) by (nonlinear_arith)
                requires n < 10 * p;
            lemma_decimal_bound(n / 10, (k - 1) as nat);
        }
    }
}

proof fn lemma_decimal_len(n: nat)
    requires
        n <= u64::MAX,
    ensures
        1 <= decimal(n).len() <= 20,
{
    reveal_with_fuel(ten_pow, 21);
    assert(ten_pow(20) == 100_000_000_000_000_000_000);
    lemma_decimal_bound(n, 20);
}

/// Writes the decimal digits of `n` at the end of `buf` and returns where
/// they start.
pub fn u64_to_buf(n: u64, buf: &mut [u8; 20]) -> (start: usize)
    ensures
        start < 20,
        final(buf)@.subrange(start as int, 20) == decimal(n as nat),
        forall|j: int| 0 <= j < start ==> final(buf)@[j] == old(buf)@[j],
{
    let mut i: usize = 20;
    let mut m: u64 = n;
    if m == 0 {
        i = i - 1;
        buf[i] = 48u8;
        assert(buf@.subrange(19, 20) =~= seq![48u8]);
        return i;
    }
    proof {
        lemma_decimal_len(n as nat);
        reveal_with_fuel(decimal, 2);
    }
    while m > 0
        invariant
            i <= 20,
            buf@.len() == 20,
            m > 0 ==> decimal(n as nat) == decimal(m as nat) + buf@.subrange(i as int, 20),
            m > 0 ==> decimal(m as nat).len() <= i,
            m == 0 ==> decimal(n as nat) == buf@.subrange(i as int, 20) && i < 20,
            forall|j: int| 0 <= j < i ==> buf@[j] == old(buf)@[j],
        decreases m,
    {
        let ghost tail = buf@.subrange(i as int, 20);
        assert(decimal(m as nat).len() >= 1) by { lemma_decimal_len(m as nat); }
        i = i - 1;
        buf[i] = 48u8 + (m % 10) as u8;
        assert(buf@.subrange(i as int, 20) =~= seq![(48 + m % 10) as u8] + tail);
        if m >= 10 {
            assert(decimal(m as nat) == decimal((m / 10) as nat).push((48 + m % 10) as u8));
            assert(decimal(m as nat) + tail =~= decimal((m / 10) as nat) + buf@.subrange(i as int, 20));
        } else {
            assert(decimal(m as nat) == seq![(48 + m) as u8]);
            assert(decimal(m as nat) + tail =~= buf@.subrange(i as int, 20));
        }
        m = m / 10;
    }
    i
}

/// The decimal digits of a number read back as that number.
pub proof fn law_decimal_round_trip(n: nat)
    ensures
        digits_value(decimal(n)) == n,
        forall|k: int| 0 <= k < decimal(n).len() ==> 48 <= #[trigger] decimal(n)[k] <= 57,
    decreases n,
{
    if n >= 10 {
        law_decimal_round_trip(n / 10);
        assert(decimal(n).drop_last() == decimal(n / 10));
        assert(decimal(n).last() == (48 + n % 10) as u8);
        assert(n == (n / 10) * 10 + n % 10);
        assert(((48 + n % 10) as u8) as int - 48 == n % 10);
        assert(digits_value(decimal(n)) == digits_value(decimal(n / 10)) * 10 + (decimal(n).last() - 48));
        assert forall|k: int| 0 <= k < decimal(n).len() implies 48 <= #[trigger] decimal(n)[k] <= 57 by {
            if k < decimal(n).len() - 1 {
                assert(decimal(n)[k] == decimal(n / 10)[k]);
            }
        }
    } else {
        assert(decimal(n).drop_last() =~= Seq::<u8>::empty());
        assert(((48 + n) as u8) as int - 48 == n);
        assert(digits_value(decimal(n)) == digits_value(Seq::<u8>::empty()) * 10 + (decimal(n).last() - 48));
    }
}

/// Whom to greet: the first argument after the program's name, or "world".
pub fn greet_name<'a>(argv: &[&'a str]) -> (name: &'a str)
    ensures
        name@ == if argv@.len() > 1 { argv@[1]@ } else { "world"@ },
{
    if argv.len() > 1 {
        argv[1]
    } else {
        "world"
    }
}

} // verus!
