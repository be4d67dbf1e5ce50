//! Decimal rendering and index-width computation: the number of digits a
//! rank needs, the zero-padded rendering of a rank, and the width that a
//! batch of a given size gets.

use vstd::prelude::*;

use crate::extract::{digit_val, is_digit_char};

verus! {

/// Powers of ten.
pub open spec fn pow10(w: nat) -> nat
    decreases w,
{
    if w == 0 {
        1
    } else {
        10 * pow10((w - 1) as nat)
    }
}

/// The unfloored index width for `n` entries: 1 for up to 10 entries, and
/// one more digit each time the count moves past another power of ten.
pub open spec fn spec_base_width(n: nat) -> nat
    decreases n,
{
    if n <= 10 {
        1
    } else {
        1 + spec_base_width(((n - 1) / 10 + 1) as nat)
    }
}

/// The width used for `n` entries under a floor of `min_width`.
pub open spec fn spec_width(n: nat, min_width: nat) -> nat {
    if spec_base_width(n) >= min_width {
        spec_base_width(n)
    } else {
        min_width
    }
}

/// `pow10` grows monotonically.
pub proof fn lemma_pow10_monotonic(a: nat, b: nat)
    requires
        a <= b,
    ensures
        pow10(a) <= pow10(b),
    decreases b,
{
    if a < b {
        lemma_pow10_monotonic(a, (b - 1) as nat);
    }
}

/// The base width is enough for `n` entries and is the smallest width that
/// is: `pow10` of it reaches `n`, while `pow10` of anything smaller does not.
pub proof fn lemma_base_width_exact(n: nat)
    ensures
        spec_base_width(n) >= 1,
        pow10(spec_base_width(n)) >= n,
        spec_base_width(n) > 1 ==> pow10((spec_base_width(n) - 1) as nat) < n,
    decreases n,
{
    if n <= 10 {
        assert(pow10(0) == 1);
        assert(pow10(1) == 10 * pow10(0));
    } else {
        let m = ((n - 1) / 10 + 1) as nat;
        assert(m < n);
        assert(10 * m >= n) by {
            assert((n - 1) / 10 * 10 + (n - 1) % 10 == n - 1) by (nonlinear_arith);
            assert((n - 1) % 10 < 10) by (nonlinear_arith)
                requires n >= 1,
            ;
        }
        lemma_base_width_exact(m);
        let bw = spec_base_width(m);
        assert(spec_base_width(n) == 1 + bw);
        assert(pow10((1 + bw) as nat) == 10 * pow10(bw));
        assert(10 * pow10(bw) >= 10 * m) by (nonlinear_arith)
            requires pow10(bw) >= m,
        ;
        // minimality: pow10(bw) < n
        if bw == 1 {
            assert(pow10(0) == 1);
            assert(pow10(1nat) == 10 * pow10(0));
        } else {
            assert(pow10((bw - 1) as nat) < m);
            assert(pow10(bw) == 10 * pow10((bw - 1) as nat));
            assert(10 * pow10((bw - 1) as nat) <= 10 * (m - 1)) by (nonlinear_arith)
                requires pow10((bw - 1) as nat) <= m - 1,
            ;
            assert(10 * (m - 1) < n) by {
                assert((n - 1) / 10 * 10 <= n - 1) by (nonlinear_arith);
            }
        }
    }
}

/// The width invariant: the computed width is at least the floor, reaches
/// `n` (every rank below `n` is representable in it), and no smaller width
/// at or above the floor does.
pub proof fn lemma_width_minimal(n: nat, min_width: nat)
    ensures
        spec_width(n, min_width) >= min_width,
        spec_width(n, min_width) >= 1,
        pow10(spec_width(n, min_width)) >= n,
        forall|v: nat|
            v >= min_width && v >= 1 && pow10(v) >= n ==> v >= spec_width(n, min_width),
{
    lemma_base_width_exact(n);
    let w = spec_width(n, min_width);
    lemma_pow10_monotonic(spec_base_width(n), w);
    assert forall|v: nat| v >= min_width && v >= 1 && pow10(v) >= n implies v >= w by {
        if v < w {
            assert(w == spec_base_width(n));
            assert(v <= w - 1);
            lemma_pow10_monotonic(v, (w - 1) as nat);
            assert(spec_base_width(n) > 1);
            assert(pow10((w - 1) as nat) < n);
        }
    }
}

/// The base width never exceeds the count it measures (for nonzero counts),
/// so widths stay small.
proof fn lemma_base_width_le(n: nat)
    ensures
        spec_base_width(n) <= if n <= 1 {
            1nat
        } else {
            n
        },
    decreases n,
{
    if n > 10 {
        let m = ((n - 1) / 10 + 1) as nat;
        assert(m < n);
        assert(m >= 2);
        lemma_base_width_le(m);
    }
}

/// Compute the zero-padded index width for `n` entries with floor
/// `min_width`: grow from 1 while another power of ten is still below `n`,
/// then apply the floor.
pub fn compute_width(n: usize, min_width: usize) -> (w: usize)
    ensures
        w as nat == spec_width(n as nat, min_width as nat),
{
    let mut w: usize = 1;
    let mut r: usize = n;
    while r > 10
        invariant
            r <= n,
            w >= 1,
            spec_base_width(n as nat) == (w - 1) + spec_base_width(r as nat),
        decreases r,
    {
        proof {
            let m = (((r - 1) / 10) + 1) as nat;
            assert(spec_base_width(r as nat) == 1 + spec_base_width(m));
            lemma_base_width_le(n as nat);
            lemma_base_width_exact(m);
            assert(spec_base_width(r as nat) >= 2);
            assert(w + 1 <= spec_base_width(n as nat));
            assert(spec_base_width(n as nat) <= n);
            assert(m < r as nat);
        }
        w = w + 1;
        r = (r - 1) / 10 + 1;
    }
    proof {
        assert(spec_base_width(r as nat) == 1);
        assert(w as nat == spec_base_width(n as nat));
    }
    if w < min_width {
        min_width
    } else {
        w
    }
}

/// The digit character for a value below ten.
pub open spec fn digit_char(d: int) -> char {
    (48 + d) as char
}

/// The canonical decimal rendering of a non-negative integer: most
/// significant digit first, no leading zeros (a single `0` for zero).
pub open spec fn spec_digits(n: int) -> Seq<char>
    decreases n,
{
    if n < 10 {
        seq![digit_char(n)]
    } else {
        spec_digits(n / 10).push(digit_char(n % 10))
    }
}

/// A run of `k` zero characters.
pub open spec fn spec_zeros(k: int) -> Seq<char>
    decreases k,
{
    if k <= 0 {
        Seq::empty()
    } else {
        spec_zeros(k - 1).push('0')
    }
}

/// The rendering of `n` left-padded with zeros to at least `width` characters.
pub open spec fn spec_padded(n: int, width: int) -> Seq<char> {
    spec_zeros(width - spec_digits(n).len()) + spec_digits(n)
}

/// The numeric value of a digit string (most significant digit first).
pub open spec fn digits_val(ds: Seq<char>) -> int
    decreases ds.len(),
{
    if ds.len() == 0 {
        0
    } else {
        digits_val(ds.drop_last()) * 10 + digit_val(ds.last())
    }
}

/// Every character of a canonical rendering is a digit.
pub proof fn lemma_spec_digits_are_digits(n: int)
    requires
        n >= 0,
    ensures
        forall|j: int|
            0 <= j < spec_digits(n).len() ==> is_digit_char(#[trigger] spec_digits(n)[j]),
    decreases n,
{
    if n < 10 {
        assert(spec_digits(n)[0] == digit_char(n));
        assert(is_digit_char(digit_char(n)));
    } else {
        lemma_spec_digits_are_digits(n / 10);
        assert(0 <= n % 10 < 10) by (nonlinear_arith);
        assert(is_digit_char(digit_char(n % 10)));
        assert(forall|j: int|
            0 <= j < spec_digits(n / 10).len() ==> #[trigger] spec_digits(n)[j] == spec_digits(
                n / 10,
            )[j]);
        assert(spec_digits(n).last() == digit_char(n % 10));
    }
}

/// Rendering then reading back yields the number again.
pub proof fn lemma_digits_roundtrip(n: int)
    requires
        n >= 0,
    ensures
        digits_val(spec_digits(n)) == n,
    decreases n,
{
    if n < 10 {
        assert(spec_digits(n).drop_last() =~= Seq::<char>::empty());
        assert(digits_val(Seq::<char>::empty()) == 0);
        assert(spec_digits(n).last() == digit_char(n));
        assert(digit_val(digit_char(n)) == n);
    } else {
        lemma_digits_roundtrip(n / 10);
        assert(spec_digits(n).drop_last() =~= spec_digits(n / 10));
        assert(spec_digits(n).last() == digit_char(n % 10));
        assert(digit_val(digit_char(n % 10)) == n % 10);
        assert(n / 10 * 10 + n % 10 == n) by (nonlinear_arith);
    }
}

/// Leading zeros do not change a digit string's value.
pub proof fn lemma_zeros_prepend_value(k: int, ds: Seq<char>)
    ensures
        digits_val(spec_zeros(k) + ds) == digits_val(ds),
    decreases ds.len(),
{
    if ds.len() == 0 {
        assert(spec_zeros(k) + ds =~= spec_zeros(k));
        lemma_zeros_value(k);
    } else {
        lemma_zeros_prepend_value(k, ds.drop_last());
        assert((spec_zeros(k) + ds).drop_last() =~= spec_zeros(k) + ds.drop_last());
        assert((spec_zeros(k) + ds).last() == ds.last());
    }
}

/// A run of zeros has value zero.
proof fn lemma_zeros_value(k: int)
    ensures
        digits_val(spec_zeros(k)) == 0,
    decreases k,
{
    if k > 0 {
        lemma_zeros_value(k - 1);
        assert(spec_zeros(k).drop_last() =~= spec_zeros(k - 1));
        assert(spec_zeros(k).last() == '0');
        assert(digit_val('0') == 0);
    }
}

/// Every character of a zero run is a digit.
proof fn lemma_zeros_are_digits(k: int)
    ensures
        forall|j: int| 0 <= j < spec_zeros(k).len() ==> is_digit_char(#[trigger] spec_zeros(k)[j]),
    decreases k,
{
    if k > 0 {
        lemma_zeros_are_digits(k - 1);
        assert(spec_zeros(k).len() == spec_zeros(k - 1).len() + 1);
        assert(forall|j: int|
            0 <= j < spec_zeros(k - 1).len() ==> #[trigger] spec_zeros(k)[j] == spec_zeros(
                k - 1,
            )[j]);
        assert(spec_zeros(k).last() == '0');
        assert(is_digit_char('0'));
    }
}

/// Splitting a digit string at its first character: the value is the first
/// digit weighted by the remaining length, plus the value of the rest; and
/// the whole value is non-negative and below `pow10` of the length.
pub proof fn lemma_digits_val_first(ds: Seq<char>)
    requires
        ds.len() > 0,
        forall|j: int| 0 <= j < ds.len() ==> is_digit_char(#[trigger] ds[j]),
    ensures
        digits_val(ds) == digit_val(ds[0]) * pow10((ds.len() - 1) as nat) + digits_val(
            ds.drop_first(),
        ),
        0 <= digits_val(ds) < pow10(ds.len() as nat),
    decreases ds.len(),
{
    let l = ds.len() as int;
    if l == 1 {
        assert(ds.drop_last() =~= Seq::<char>::empty());
        assert(ds.drop_first() =~= Seq::<char>::empty());
        assert(digits_val(Seq::<char>::empty()) == 0);
        assert(ds.last() == ds[0]);
        assert(pow10(0) == 1);
        assert(pow10(1) == 10 * pow10(0));
        assert(digit_val(ds[0]) < 10);
    } else {
        let dl = ds.drop_last();
        assert(forall|j: int| 0 <= j < dl.len() ==> #[trigger] dl[j] == ds[j]);
        lemma_digits_val_first(dl);
        assert(dl[0] == ds[0]);
        assert(digits_val(ds) == digits_val(dl) * 10 + digit_val(ds.last()));
        assert(ds.drop_first().drop_last() =~= dl.drop_first());
        assert(ds.drop_first().last() == ds.last());
        assert(digits_val(ds.drop_first()) == digits_val(dl.drop_first()) * 10 + digit_val(
            ds.last(),
        ));
        assert(pow10((l - 1) as nat) == 10 * pow10((l - 2) as nat));
        assert(digit_val(ds[0]) * (10 * pow10((l - 2) as nat)) == (digit_val(ds[0]) * pow10(
            (l - 2) as nat,
        )) * 10) by (nonlinear_arith);
        // bounds
        assert(digit_val(ds.last()) < 10);
        assert(pow10(l as nat) == 10 * pow10((l - 1) as nat));
        assert(digits_val(dl) <= pow10((l - 1) as nat) - 1);
        assert(digits_val(dl) * 10 <= (pow10((l - 1) as nat) - 1) * 10) by (nonlinear_arith)
            requires
                digits_val(dl) <= pow10((l - 1) as nat) - 1,
        ;
        assert(digits_val(dl) * 10 >= 0) by (nonlinear_arith)
            requires
                digits_val(dl) >= 0,
        ;
    }
}

/// A padded rendering is all digits and reads back as the number itself.
pub proof fn lemma_padded_exact(n: int, width: int)
    requires
        n >= 0,
    ensures
        forall|j: int|
            0 <= j < spec_padded(n, width).len() ==> is_digit_char(#[trigger] spec_padded(n, width)[j]),
        digits_val(spec_padded(n, width)) == n,
        spec_padded(n, width).len() >= width,
        spec_padded(n, width).len() >= 1,
{
    let k = width - spec_digits(n).len();
    lemma_spec_digits_are_digits(n);
    lemma_zeros_are_digits(k);
    lemma_zeros_prepend_value(k, spec_digits(n));
    lemma_digits_roundtrip(n);
    lemma_zeros_len(k);
    assert forall|j: int| 0 <= j < spec_padded(n, width).len() implies is_digit_char(
        #[trigger] spec_padded(n, width)[j],
    ) by {
        if j < spec_zeros(k).len() {
            assert(spec_padded(n, width)[j] == spec_zeros(k)[j]);
        } else {
            assert(spec_padded(n, width)[j] == spec_digits(n)[j - spec_zeros(k).len()]);
        }
    }
}

/// A zero run has the length asked of it.
proof fn lemma_zeros_len(k: int)
    ensures
        spec_zeros(k).len() == if k <= 0 {
            0int
        } else {
            k
        },
    decreases k,
{
    if k > 0 {
        lemma_zeros_len(k - 1);
    }
}

/// The one-character string for a digit value.
fn digit_str(d: usize) -> (r: &'static str)
    requires
        d < 10,
    ensures
        r@ =~= seq![digit_char(d as int)],
{
    proof {
        reveal_strlit("0");
        reveal_strlit("1");
        reveal_strlit("2");
        reveal_strlit("3");
        reveal_strlit("4");
        reveal_strlit("5");
        reveal_strlit("6");
        reveal_strlit("7");
        reveal_strlit("8");
        reveal_strlit("9");
    }
    match d {
        0 => "0",
        1 => "1",
        2 => "2",
        3 => "3",
        4 => "4",
        5 => "5",
        6 => "6",
        7 => "7",
        8 => "8",
        _ => "9",
    }
}

/// Render `n` in decimal, most significant digit first.
fn render_digits(n: usize) -> (r: String)
    ensures
        r@ == spec_digits(n as int),
    decreases n,
{
    if n < 10 {
        let s = digit_str(n);
        s.to_owned()
    } else {
        let mut s = render_digits(n / 10);
        let tail = digit_str(n % 10);
        s.append(tail);
        proof {
            assert(s@ =~= spec_digits(n as int));
        }
        s
    }
}

/// Render `n` zero-padded to at least `width` digits.
pub fn zero_pad(n: usize, width: usize) -> (r: String)
    ensures
        r@ == spec_padded(n as int, width as int),
{
    let ds = render_digits(n);
    let dl = ds.as_str().unicode_len();
    let mut s = String::new();
    let mut k: usize = dl;
    while k < width
        invariant
            dl == spec_digits(n as int).len(),
            k >= dl,
            k <= width || k == dl,
            s@ == spec_zeros(k - dl),
        decreases width - k,
    {
        proof {
            reveal_strlit("0");
            assert(spec_zeros(k + 1 - dl) =~= spec_zeros(k - dl).push('0'));
            assert(s@ + "0"@ =~= spec_zeros(k - dl).push('0'));
        }
        s.append("0");
        k = k + 1;
    }
    proof {
        if width <= dl {
            assert(k == dl);
            assert(spec_zeros(width - dl as int) =~= Seq::<char>::empty());
            assert(spec_zeros(0) =~= Seq::<char>::empty());
        } else {
            assert(k == width);
        }
        assert(s@ == spec_zeros(width - spec_digits(n as int).len()));
    }
    let r = s.concat(ds.as_str());
    proof {
        assert(r@ == spec_padded(n as int, width as int));
    }
    r
}

} // verus!
