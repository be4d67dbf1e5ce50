//! The filename key extractor: parses the leading `<digits>-<digits>-...`
//! prefix of a filename into a numeric sort key and a residual name.
//!
//! A `-` closes the numeric group that is currently being accumulated (an
//! empty group counts as 0) and appends it to the key; digits accumulate in
//! base 10; any other character stops the scan, discarding a group that no
//! `-` has closed. A filename in which no `-` ever closes a group does not
//! match the convention at all. Digit runs too large for `u32` saturate at
//! `u32::MAX` rather than wrapping.

use vstd::prelude::*;

use crate::keys::IndexedFileName;

verus! {

/// The character that closes a numeric group.
pub open spec fn separator() -> char {
    '-'
}

/// ASCII decimal digit.
pub open spec fn is_digit_char(c: char) -> bool {
    48 <= c as u32 && c as u32 <= 57
}

/// Numeric value of an ASCII digit.
pub open spec fn digit_val(c: char) -> u32 {
    (c as u32 - 48) as u32
}

/// One step of base-10 accumulation, saturating at `u32::MAX`.
pub open spec fn sat_add_digit(acc: u32, d: u32) -> u32 {
    if acc * 10 + d > u32::MAX {
        u32::MAX
    } else {
        (acc * 10 + d) as u32
    }
}

/// The scan over the filename, from position `i` with the accumulator,
/// key components and residual start built so far. Returns the key and
/// the residual start position, or `None` when the name does not match
/// the convention (no group was ever closed).
pub open spec fn scan(s: Seq<char>, i: int, acc: u32, key: Seq<u32>, res_start: int) -> Option<
    (Seq<u32>, int),
>
    decreases s.len() - i,
{
    if i < 0 || i >= s.len() {
        if key.len() == 0 {
            None
        } else {
            Some((key, res_start))
        }
    } else if s[i] == separator() {
        scan(s, i + 1, 0, key.push(acc), i + 1)
    } else if is_digit_char(s[i]) {
        scan(s, i + 1, sat_add_digit(acc, digit_val(s[i])), key, res_start)
    } else {
        if key.len() == 0 {
            None
        } else {
            Some((key, res_start))
        }
    }
}

/// What extraction means: the key and residual that the scan yields for a
/// whole filename, the residual being everything after the last separator
/// that closed a key component.
pub open spec fn spec_extract(s: Seq<char>) -> Option<(Seq<u32>, Seq<char>)> {
    match scan(s, 0, 0, Seq::empty(), 0) {
        None => None,
        Some((key, rs)) => Some((key, s.skip(rs))),
    }
}

/// Shape of every residual an extraction can produce: a (possibly empty)
/// run of digits followed either by the end of the string or by a character
/// that is neither a digit nor a separator.
pub open spec fn is_residual(s: Seq<char>) -> bool
    decreases s.len(),
{
    if s.len() == 0 {
        true
    } else if is_digit_char(s[0]) {
        is_residual(s.drop_first())
    } else {
        s[0] != separator()
    }
}

/// The scan's residual start always lies between the last position the scan
/// has consumed and the end of the string, and everything from it up to the
/// stopping point is digits; hence the residual has the `is_residual` shape.
proof fn lemma_scan_gives_residual(s: Seq<char>, i: int, acc: u32, key: Seq<u32>, res_start: int)
    requires
        0 <= res_start <= i <= s.len(),
        forall|j: int| res_start <= j < i ==> is_digit_char(#[trigger] s[j]),
    ensures
        match scan(s, i, acc, key, res_start) {
            None => true,
            Some((k, rs)) => 0 <= rs <= s.len() && is_residual(s.skip(rs)),
        },
    decreases s.len() - i,
{
    if i >= s.len() {
        if key.len() > 0 {
            lemma_all_digits_is_residual(s, res_start, s.len() as int);
        }
    } else if s[i] == separator() {
        lemma_scan_gives_residual(s, i + 1, 0, key.push(acc), i + 1);
    } else if is_digit_char(s[i]) {
        lemma_scan_gives_residual(s, i + 1, sat_add_digit(acc, digit_val(s[i])), key, res_start);
    } else {
        if key.len() > 0 {
            lemma_all_digits_is_residual(s, res_start, i);
        }
    }
}

/// A suffix whose characters are all digits up to a stopping point that is
/// either the end of the string or a non-digit, non-separator character has
/// the residual shape.
proof fn lemma_all_digits_is_residual(s: Seq<char>, rs: int, stop: int)
    requires
        0 <= rs <= stop <= s.len(),
        forall|j: int| rs <= j < stop ==> is_digit_char(#[trigger] s[j]),
        stop < s.len() ==> !is_digit_char(s[stop]) && s[stop] != separator(),
    ensures
        is_residual(s.skip(rs)),
    decreases stop - rs,
{
    let t = s.skip(rs);
    if rs == stop {
        if t.len() > 0 {
            assert(t[0] == s[stop]);
            assert(stop < s.len());
        }
    } else {
        assert(t[0] == s[rs]);
        assert(is_digit_char(t[0]));
        lemma_all_digits_is_residual(s, rs + 1, stop);
        assert(t.drop_first() =~= s.skip(rs + 1));
    }
}

/// Every residual that extraction returns has the `is_residual` shape.
pub proof fn lemma_extract_residual_shape(s: Seq<char>)
    ensures
        match spec_extract(s) {
            None => true,
            Some((k, r)) => is_residual(r),
        },
{
    lemma_scan_gives_residual(s, 0, 0, Seq::empty(), 0);
}

/// The accumulator after folding a run of digit characters into `acc`,
/// left to right.
pub open spec fn acc_digits(acc: u32, ds: Seq<char>) -> u32
    decreases ds.len(),
{
    if ds.len() == 0 {
        acc
    } else {
        acc_digits(sat_add_digit(acc, digit_val(ds[0])), ds.drop_first())
    }
}

/// Folding a digit run whose combined value stays within `u32` accumulates
/// exactly `acc` shifted past the run plus the run's value: no saturation.
#[verifier::rlimit(100)]
pub proof fn lemma_acc_digits_exact(acc: u32, ds: Seq<char>)
    requires
        forall|j: int| 0 <= j < ds.len() ==> is_digit_char(#[trigger] ds[j]),
        acc * crate::digits::pow10(ds.len() as nat) + crate::digits::digits_val(ds) <= u32::MAX,
    ensures
        acc_digits(acc, ds) == acc * crate::digits::pow10(ds.len() as nat)
            + crate::digits::digits_val(ds),
    decreases ds.len(),
{
    let l = ds.len() as int;
    if l == 0 {
        assert(crate::digits::pow10(ds.len() as nat) == 1) by {
            assert(ds.len() as nat == 0nat);
        }
        assert(crate::digits::digits_val(ds) == 0);
        assert(acc * crate::digits::pow10(ds.len() as nat) == acc) by (nonlinear_arith)
            requires
                crate::digits::pow10(ds.len() as nat) == 1,
        ;
    } else {
        assert(forall|j: int| 0 <= j < ds.drop_first().len() ==> is_digit_char(
            #[trigger] ds.drop_first()[j],
        )) by {
            assert(forall|j: int| 0 <= j < ds.drop_first().len() ==> ds.drop_first()[j] == ds[
                j + 1
            ]);
        }
        crate::digits::lemma_digits_val_first(ds);
        let d = digit_val(ds[0]);
        let p = crate::digits::pow10((l - 1) as nat);
        let rest = crate::digits::digits_val(ds.drop_first());
        assert(rest >= 0) by {
            if ds.drop_first().len() > 0 {
                crate::digits::lemma_digits_val_first(ds.drop_first());
            }
        }
        assert(crate::digits::pow10(l as nat) == 10 * p);
        assert(acc * (10 * p) == (acc * 10) * p) by (nonlinear_arith);
        assert(d * p + rest >= d * p) by {
            assert(rest >= 0);
        }
        assert((acc * 10) * p + d * p == (acc * 10 + d) * p) by (nonlinear_arith);
        assert((acc * 10 + d) * p + rest <= u32::MAX);
        assert(p >= 1) by {
            crate::digits::lemma_pow10_monotonic(0, (l - 1) as nat);
            assert(crate::digits::pow10(0) == 1);
        }
        assert(acc * 10 + d <= (acc * 10 + d) * p) by (nonlinear_arith)
            requires
                p >= 1,
                acc * 10 + d >= 0,
        ;
        assert(sat_add_digit(acc, d) == acc * 10 + d);
        lemma_acc_digits_exact((acc * 10 + d) as u32, ds.drop_first());
        assert(acc_digits(acc, ds) == acc_digits((acc * 10 + d) as u32, ds.drop_first()));
        assert(((acc * 10 + d) as u32) == acc * 10 + d);
        assert(acc_digits(acc, ds) == (acc * 10 + d) * p + rest);
        assert(acc * crate::digits::pow10(l as nat) + crate::digits::digits_val(ds) == (acc * 10
            + d) * p + rest);
        assert(l as nat == ds.len());
        assert(crate::digits::pow10(l as nat) == crate::digits::pow10(ds.len() as nat));
        assert(acc * crate::digits::pow10(ds.len() as nat) == acc * crate::digits::pow10(
            l as nat,
        )) by (nonlinear_arith)
            requires
                crate::digits::pow10(l as nat) == crate::digits::pow10(ds.len() as nat),
        ;
        assert(acc_digits(acc, ds) == acc * crate::digits::pow10(ds.len() as nat)
            + crate::digits::digits_val(ds));
    }
}

/// A scan standing before a run of digits consumes the run, folding it
/// into the accumulator and touching neither the key nor the residual
/// start.
pub proof fn lemma_scan_digits(s: Seq<char>, i: int, end: int, acc: u32, key: Seq<u32>, rs: int)
    requires
        0 <= i <= end <= s.len(),
        forall|j: int| i <= j < end ==> is_digit_char(#[trigger] s[j]),
    ensures
        scan(s, i, acc, key, rs) == scan(s, end, acc_digits(acc, s.subrange(i, end)), key, rs),
    decreases end - i,
{
    let ds = s.subrange(i, end);
    if i < end {
        assert(is_digit_char(s[i]));
        assert(s[i] as u32 != 45);
        assert(s[i] != separator());
        lemma_scan_digits(s, i + 1, end, sat_add_digit(acc, digit_val(s[i])), key, rs);
        assert(ds[0] == s[i]);
        assert(ds.drop_first() =~= s.subrange(i + 1, end));
        assert(acc_digits(acc, ds) == acc_digits(
            sat_add_digit(acc, digit_val(s[i])),
            s.subrange(i + 1, end),
        ));
    } else {
        assert(ds.len() == 0);
    }
}

/// A scan that has closed at least one component and stands before a
/// residual-shaped suffix stops with exactly the key and residual start it
/// already holds.
pub proof fn lemma_scan_residual(s: Seq<char>, i: int, acc: u32, key: Seq<u32>, rs: int)
    requires
        0 <= i <= s.len(),
        key.len() > 0,
        is_residual(s.skip(i)),
    ensures
        scan(s, i, acc, key, rs) == Some((key, rs)),
    decreases s.len() - i,
{
    let t = s.skip(i);
    if i < s.len() {
        assert(t[0] == s[i]);
        if is_digit_char(s[i]) {
            assert(s[i] as u32 != 45);
            assert(s[i] != separator());
            assert(t.drop_first() =~= s.skip(i + 1));
            lemma_scan_residual(s, i + 1, sat_add_digit(acc, digit_val(s[i])), key, rs);
        } else {
            assert(s[i] != separator());
        }
    }
}

/// A filename whose leading digit run is never closed by a separator — it
/// reaches the end of the name, or a character that is neither a digit nor
/// a separator — does not match the convention: extraction returns `None`.
pub proof fn lemma_no_leading_group_none(s: Seq<char>, k: int)
    requires
        0 <= k <= s.len(),
        forall|j: int| 0 <= j < k ==> is_digit_char(#[trigger] s[j]),
        k == s.len() || (!is_digit_char(s[k]) && s[k] != separator()),
    ensures
        spec_extract(s) is None,
{
    lemma_scan_digits(s, 0, k, 0, Seq::empty(), 0);
    assert(scan(s, k, acc_digits(0, s.subrange(0, k)), Seq::empty(), 0) is None);
}

/// Extraction inverts name generation: a filename built as a zero-padded
/// rank, the separator, and a residual-shaped remainder parses back to
/// exactly the one-component key holding that rank, and the same residual.
pub proof fn lemma_extract_new_name(rank: int, width: int, r: Seq<char>)
    requires
        0 <= rank <= u32::MAX,
        is_residual(r),
    ensures
        crate::engine::spec_new_name(rank, width, r).len() > 0,
        spec_extract(crate::engine::spec_new_name(rank, width, r)) == Some(
            (seq![rank as u32], r),
        ),
{
    let d = crate::digits::spec_padded(rank, width);
    let s = crate::engine::spec_new_name(rank, width, r);
    crate::digits::lemma_padded_exact(rank, width);
    let dl = d.len() as int;
    assert(s.len() == dl + 1 + r.len());
    assert(forall|j: int| 0 <= j < dl ==> #[trigger] s[j] == d[j]);
    assert(s[dl] == separator()) by {
        assert(s[dl] == (seq![separator()] + r)[0]);
    }
    // the digit run
    assert(s.subrange(0, dl) =~= d);
    lemma_scan_digits(s, 0, dl, 0, Seq::empty(), 0);
    assert(acc_digits(0, d) == rank) by {
        assert(0 * crate::digits::pow10(d.len() as nat) == 0) by (nonlinear_arith);
        lemma_acc_digits_exact(0, d);
        assert(crate::digits::digits_val(d) == rank);
    }
    // the separator closes the single component
    assert(scan(s, dl, rank as u32, Seq::empty(), 0) == scan(
        s,
        dl + 1,
        0,
        Seq::<u32>::empty().push(rank as u32),
        dl + 1,
    ));
    // the residual suffix stops the scan
    assert(Seq::<u32>::empty().push(rank as u32) =~= seq![rank as u32]);
    assert(s.skip(dl + 1) =~= r);
    lemma_scan_residual(s, dl + 1, 0, seq![rank as u32], dl + 1);
    assert(spec_extract(s) == Some((seq![rank as u32], s.skip(dl + 1))));
}

/// Parse a filename of the `<index>-<name>` convention into its numeric key
/// and residual name; `None` when the filename does not follow it.
pub fn extract_index_from_file_name(file_name: &str) -> (r: Option<IndexedFileName>)
    ensures
        match r {
            None => spec_extract(file_name@) is None,
            Some(e) => spec_extract(file_name@) == Some((e.indices@, e.name@)),
        },
{
    let len = file_name.unicode_len();
    let mut indices: Vec<u32> = Vec::new();
    let mut indices_i: usize = 0;
    let mut acc: u32 = 0;
    let mut i: usize = 0;
    let ghost s = file_name@;
    proof {
        assert(indices@ =~= Seq::<u32>::empty());
    }
    while i < len
        invariant
            s == file_name@,
            len == s.len(),
            i <= len,
            indices_i <= i,
            scan(s, 0, 0, Seq::empty(), 0) == scan(s, i as int, acc, indices@, indices_i as int),
        decreases len - i,
    {
        let c = file_name.get_char(i);
        let ghost old_indices = indices@;
        let ghost old_acc = acc;
        let ghost old_ii = indices_i as int;
        if c == '-' {
            indices.push(acc);
            acc = 0;
            indices_i = i + 1;
            proof {
                assert(s[i as int] == separator());
                assert(scan(s, i as int, old_acc, old_indices, old_ii) == scan(
                    s,
                    i + 1,
                    0,
                    old_indices.push(old_acc),
                    i + 1,
                ));
            }
        } else {
            let u = c as u32;
            if 48 <= u && u <= 57 {
                let d = u - 48;
                let wide: u64 = (acc as u64) * 10 + (d as u64);
                if wide > u32::MAX as u64 {
                    acc = u32::MAX;
                } else {
                    acc = wide as u32;
                }
                proof {
                    assert(s[i as int] != separator());
                    assert(is_digit_char(s[i as int]));
                    assert(d == digit_val(s[i as int]));
                    assert(acc == sat_add_digit(old_acc, d));
                    assert(scan(s, i as int, old_acc, old_indices, old_ii) == scan(
                        s,
                        i + 1,
                        sat_add_digit(old_acc, digit_val(s[i as int])),
                        old_indices,
                        old_ii,
                    ));
                }
            } else {
                proof {
                    assert(s[i as int] != separator());
                    assert(!is_digit_char(s[i as int]));
                }
                if indices.len() == 0 {
                    return None;
                }
                let rest = file_name.substring_char(indices_i, len);
                let name = rest.to_owned();
                proof {
                    assert(scan(s, i as int, acc, indices@, indices_i as int) == Some(
                        (indices@, indices_i as int),
                    ));
                    assert(name@ =~= s.skip(indices_i as int));
                }
                return Some(IndexedFileName { indices, name });
            }
        }
        i = i + 1;
    }
    if indices.len() == 0 {
        return None;
    }
    let rest = file_name.substring_char(indices_i, len);
    let name = rest.to_owned();
    proof {
        assert(scan(s, i as int, acc, indices@, indices_i as int) == Some(
            (indices@, indices_i as int),
        ));
        assert(name@ =~= s.skip(indices_i as int));
    }
    Some(IndexedFileName { indices, name })
}

} // verus!
