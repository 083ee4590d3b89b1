//! Decimal rendering of unsigned integers into `String`s.
use vstd::prelude::*;

verus! {

/// The character of decimal digit `d`.
pub open spec fn digit_char(d: nat) -> char {
    (d + 48) as char
}

/// Decimal representation of `n`, most significant digit first, without
/// leading zeros ("0" for zero).
pub open spec fn decimal_digits(n: nat) -> Seq<char>
    decreases n,
{
    if n < 10 {
        seq![digit_char(n)]
    } else {
        decimal_digits(n / 10) + seq![digit_char(n % 10)]
    }
}

/// Decimal representation of `n`, left-padded with zeros to at least `width`
/// characters.
pub open spec fn zero_padded(n: nat, width: nat) -> Seq<char> {
    let digits = decimal_digits(n);
    if digits.len() < width {
        Seq::new((width - digits.len()) as nat, |i: int| '0') + digits
    } else {
        digits
    }
}

/// The one-character string of decimal digit `d`.
fn digit_str(d: u64) -> (s: &'static str)
    requires
        d < 10,
    ensures
        s@ == seq![digit_char(d as nat)],
{
    proof {
        reveal_strlit("0");
        reveal_strlit("1");
        reveal_strlit("2");
        reveal_strlit("3");
        reveal_strlit("4");
        reveal_strlit("5");
        reveal_strlit("6");
        reveal_strlit("7");
        reveal_strlit("8");
        reveal_strlit("9");
    }
    match d {
        0 => "0",
        1 => "1",
        2 => "2",
        3 => "3",
        4 => "4",
        5 => "5",
        6 => "6",
        7 => "7",
        8 => "8",
        _ => "9",
    }
}

/// Appends the decimal representation of `n` to `out`.
pub fn append_decimal(out: &mut String, n: u64)
    ensures
        final(out)@ == old(out)@ + decimal_digits(n as nat),
    decreases n,
{
    if n >= 10 {
        append_decimal(out, n / 10);
    }
    out.append(digit_str(n % 10));
    assert(final(out)@ =~= old(out)@ + decimal_digits(n as nat));
}

/// Number of characters of the decimal representation of `n`.
pub fn decimal_len(n: u64) -> (r: usize)
    ensures
        r == decimal_digits(n as nat).len(),
    decreases n,
{
    if n >= 10 {
        proof {
            lemma_decimal_len_bound(n as nat);
        }
        decimal_len(n / 10) + 1
    } else {
        1
    }
}

/// The decimal representation of a `u64` has at most twenty digits.
proof fn lemma_decimal_len_bound(n: nat)
    ensures
        n <= u64::MAX ==> decimal_digits(n).len() <= 20,
        decimal_digits(n).len() >= 1,
    decreases n,
{
    if n >= 10 {
        lemma_decimal_len_bound(n / 10);
        if n <= u64::MAX {
            lemma_decimal_len_small(n / 10);
        }
    }
}

/// Numbers below `10^19` have at most nineteen digits.
proof fn lemma_decimal_len_small(n: nat)
    requires
        n < 10_000_000_000_000_000_000,
    ensures
        decimal_digits(n).len() <= 19,
{
    reveal_with_fuel(pow10, 20);
    lemma_decimal_len_below(n, 19);
}

/// Numbers below `10^k` have at most `k` digits.
pub proof fn lemma_decimal_len_below(n: nat, k: nat)
    requires
        k >= 1,
        n < pow10(k),
    ensures
        decimal_digits(n).len() <= k,
    decreases k,
{
    if n >= 10 {
        if k == 1 {
            assert(pow10(1) == 10 * pow10(0));
        } else {
            assert(pow10(k) == 10 * pow10((k - 1) as nat));
            lemma_decimal_len_below(n / 10, (k - 1) as nat);
        }
    }
}

/// `10^k`.
pub open spec fn pow10(k: nat) -> nat
    decreases k,
{
    if k == 0 {
        1
    } else {
        10 * pow10((k - 1) as nat)
    }
}

/// Appends `n` in decimal, left-padded with zeros to `width` characters.
pub fn append_zero_padded(out: &mut String, n: u64, width: usize)
    ensures
        final(out)@ == old(out)@ + zero_padded(n as nat, width as nat),
{
    let len = decimal_len(n);
    let ghost start = out@;
    if len < width {
        let mut i: usize = len;
        while i < width
            invariant
                len <= i <= width,
                len == decimal_digits(n as nat).len(),
                out@ == start + Seq::new((i - len) as nat, |k: int| '0'),
            decreases width - i,
        {
            proof {
                reveal_strlit("0");
            }
            out.append("0");
            i += 1;
            assert(out@ =~= start + Seq::new((i - len) as nat, |k: int| '0'));
        }
    }
    append_decimal(out, n);
    assert(out@ =~= start + zero_padded(n as nat, width as nat));
}

// ---------------------------------------------------------------------------
// Order of fixed-width decimal text
// ---------------------------------------------------------------------------

/// `a` sorts before `b` as text: same length, equal up to some position, and a
/// smaller character there.
pub open spec fn text_before(a: Seq<char>, b: Seq<char>) -> bool {
    &&& a.len() == b.len()
    &&& exists|i: int|
        0 <= i < a.len() && #[trigger] a.subrange(0, i) == b.subrange(0, i) && (a[i] as int) < (
        b[i] as int)
}

/// The last `w` decimal digits of `n`, most significant first.
pub open spec fn fixed_digits(n: nat, w: nat) -> Seq<char>
    decreases w,
{
    if w == 0 {
        Seq::empty()
    } else {
        fixed_digits(n / 10, (w - 1) as nat) + seq![digit_char(n % 10)]
    }
}

/// `w` zero characters.
spec fn zeros(w: nat) -> Seq<char> {
    Seq::new(w, |i: int| '0')
}

/// `fixed_digits(n, w)` has `w` characters.
pub proof fn lemma_fixed_digits_len(n: nat, w: nat)
    ensures
        fixed_digits(n, w).len() == w,
    decreases w,
{
    if w > 0 {
        lemma_fixed_digits_len(n / 10, (w - 1) as nat);
    }
}

proof fn lemma_fixed_digits_zero(w: nat)
    ensures
        fixed_digits(0, w) == zeros(w),
    decreases w,
{
    if w > 0 {
        lemma_fixed_digits_zero((w - 1) as nat);
        assert(digit_char(0) == '0');
        assert(fixed_digits(0, w) =~= zeros(w));
    }
}

proof fn lemma_fixed_digits_padded(n: nat, w: nat)
    requires
        w >= 1,
        n < pow10(w),
    ensures
        decimal_digits(n).len() <= w,
        fixed_digits(n, w) == zeros((w - decimal_digits(n).len()) as nat) + decimal_digits(n),
    decreases w,
{
    lemma_decimal_len_below(n, w);
    if n < 10 {
        lemma_fixed_digits_zero((w - 1) as nat);
        assert(fixed_digits(n, w) =~= zeros((w - 1) as nat) + decimal_digits(n));
    } else {
        assert(w > 1) by {
            if w == 1 {
                assert(pow10(1) == 10 * pow10(0));
            }
        }
        assert(pow10(w) == 10 * pow10((w - 1) as nat));
        lemma_fixed_digits_padded(n / 10, (w - 1) as nat);
        assert(fixed_digits(n, w) =~= zeros((w - decimal_digits(n).len()) as nat) + decimal_digits(
            n,
        ));
    }
}

/// Below `10^w`, zero padding to width `w` gives exactly the last `w` digits.
pub proof fn lemma_zero_padded_fixed(n: nat, w: nat)
    requires
        w >= 1,
        n < pow10(w),
    ensures
        zero_padded(n, w) == fixed_digits(n, w),
        zero_padded(n, w).len() == w,
{
    lemma_fixed_digits_padded(n, w);
    lemma_fixed_digits_len(n, w);
    if decimal_digits(n).len() == w {
        assert(zeros(0) =~= Seq::<char>::empty());
        assert(fixed_digits(n, w) =~= decimal_digits(n));
    }
}

/// Appending text of equal lengths keeps an order already decided.
pub proof fn lemma_text_before_extend(a: Seq<char>, b: Seq<char>, c: Seq<char>, e: Seq<char>)
    requires
        text_before(a, b),
        c.len() == e.len(),
    ensures
        text_before(a + c, b + e),
{
    let i = choose|i: int|
        0 <= i < a.len() && #[trigger] a.subrange(0, i) == b.subrange(0, i) && (a[i] as int) < (
        b[i] as int);
    assert((a + c).subrange(0, i) =~= a.subrange(0, i));
    assert((b + e).subrange(0, i) =~= b.subrange(0, i));
    assert((a + c)[i] == a[i]);
    assert((b + e)[i] == b[i]);
}

/// Behind equal text, the order of what follows decides.
pub proof fn lemma_text_before_behind(a: Seq<char>, c: Seq<char>, e: Seq<char>)
    requires
        text_before(c, e),
    ensures
        text_before(a + c, a + e),
{
    let i = choose|i: int|
        0 <= i < c.len() && #[trigger] c.subrange(0, i) == e.subrange(0, i) && (c[i] as int) < (
        e[i] as int);
    let j = a.len() + i;
    assert((a + c).subrange(0, j) =~= a + c.subrange(0, i));
    assert((a + e).subrange(0, j) =~= a + e.subrange(0, i));
    assert((a + c)[j] == c[i]);
    assert((a + e)[j] == e[i]);
}

/// Fixed-width decimal text sorts like the numbers it shows.
pub proof fn lemma_fixed_digits_order(n1: nat, n2: nat, w: nat)
    requires
        n1 < n2 < pow10(w),
    ensures
        text_before(fixed_digits(n1, w), fixed_digits(n2, w)),
    decreases w,
{
    lemma_fixed_digits_len(n1, w);
    lemma_fixed_digits_len(n2, w);
    if w == 0 {
        assert(false);
    } else {
        assert(pow10(w) == 10 * pow10((w - 1) as nat));
        let q1 = n1 / 10;
        let q2 = n2 / 10;
        assert(q1 <= q2);
        assert(q2 < pow10((w - 1) as nat));
        let a = fixed_digits(q1, (w - 1) as nat);
        let b = fixed_digits(q2, (w - 1) as nat);
        lemma_fixed_digits_len(q1, (w - 1) as nat);
        lemma_fixed_digits_len(q2, (w - 1) as nat);
        if q1 < q2 {
            lemma_fixed_digits_order(q1, q2, (w - 1) as nat);
            lemma_text_before_extend(a, b, seq![digit_char(n1 % 10)], seq![digit_char(n2 % 10)]);
        } else {
            let c = seq![digit_char(n1 % 10)];
            let e = seq![digit_char(n2 % 10)];
            assert(c.subrange(0, 0) =~= e.subrange(0, 0));
            assert((c[0] as int) < (e[0] as int));
            assert(text_before(c, e));
            lemma_text_before_behind(a, c, e);
        }
    }
}

/// The number that decimal text `s` reads as.
pub open spec fn digits_value(s: Seq<char>) -> int
    decreases s.len(),
{
    if s.len() == 0 {
        0
    } else {
        digits_value(s.drop_last()) * 10 + (s.last() as int - 48)
    }
}

/// The decimal representation of `n` consists of the characters `0` to `9`,
/// reads back as `n`, and starts with a zero only when it is `0`.
pub proof fn lemma_decimal_digits_value(n: nat)
    ensures
        digits_value(decimal_digits(n)) == n,
        decimal_digits(n).len() >= 1,
        forall|i: int|
            0 <= i < decimal_digits(n).len() ==> '0' <= #[trigger] decimal_digits(n)[i] <= '9',
        decimal_digits(n)[0] == '0' ==> n == 0 && decimal_digits(n).len() == 1,
    decreases n,
{
    if n >= 10 {
        lemma_decimal_digits_value(n / 10);
        let d = decimal_digits(n);
        assert(digit_char(n % 10) as int == n % 10 + 48);
        assert(d.drop_last() =~= decimal_digits(n / 10));
        assert(d[0] == decimal_digits(n / 10)[0]);
        assert(d.last() == digit_char(n % 10));
        assert(n == (n / 10) * 10 + n % 10);
        assert(digits_value(d) == digits_value(d.drop_last()) * 10 + (d.last() as int - 48));
        assert(digits_value(d.drop_last()) == n / 10);
        assert(d.last() as int - 48 == n % 10);
    } else {
        assert(digit_char(n) as int == n + 48);
        let d = decimal_digits(n);
        assert(d.drop_last() =~= Seq::<char>::empty());
        assert(digits_value(d.drop_last()) == 0);
        assert(digits_value(d) == digits_value(d.drop_last()) * 10 + (d.last() as int - 48));
    }
}

/// Zero padding keeps the value and gives at least `width` characters.
pub proof fn lemma_zero_padded_value(n: nat, width: nat)
    ensures
        digits_value(zero_padded(n, width)) == n,
        zero_padded(n, width).len() == if decimal_digits(n).len() < width {
            width
        } else {
            decimal_digits(n).len()
        },
        forall|i: int|
            0 <= i < zero_padded(n, width).len() ==> '0' <= #[trigger] zero_padded(n, width)[i] <= '9',
{
    lemma_decimal_digits_value(n);
    let d = decimal_digits(n);
    if d.len() < width {
        let z = Seq::new((width - d.len()) as nat, |i: int| '0');
        lemma_leading_zeros_value(z, d);
    }
}

/// Leading zeros do not change the value of decimal text.
proof fn lemma_leading_zeros_value(z: Seq<char>, d: Seq<char>)
    requires
        forall|i: int| 0 <= i < z.len() ==> z[i] == '0',
    ensures
        digits_value(z + d) == digits_value(d) + digits_value(z) * pow10(d.len()),
        digits_value(z) == 0,
    decreases d.len(),
{
    if d.len() == 0 {
        assert(z + d =~= z);
        lemma_zeros_value(z);
    } else {
        lemma_leading_zeros_value(z, d.drop_last());
        assert((z + d).drop_last() =~= z + d.drop_last());
        assert(pow10(d.len()) == 10 * pow10((d.len() - 1) as nat));
    }
}

/// Text of zeros reads as 0.
proof fn lemma_zeros_value(z: Seq<char>)
    requires
        forall|i: int| 0 <= i < z.len() ==> z[i] == '0',
    ensures
        digits_value(z) == 0,
    decreases z.len(),
{
    if z.len() > 0 {
        lemma_zeros_value(z.drop_last());
    }
}

} // verus!
