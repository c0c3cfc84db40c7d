//! Decimal text for identifiers: turning a `u32` into its digits and reading
//! one back, with the exact acceptance rule of the standard integer parser
//! (an optional leading `+`, digits only, value within range).

use vstd::prelude::*;

verus! {

/// The character for a single decimal digit value.
pub open spec fn spec_digit(d: int) -> char {
    ((48 + d) as u8) as char
}

/// The decimal digits of a non-negative number, most significant first,
/// without leading zeros (`0` itself is the single digit `0`).
pub open spec fn spec_dec(n: int) -> Seq<char>
    decreases n,
{
    if n < 10 {
        seq![spec_digit(n)]
    } else {
        spec_dec(n / 10).push(spec_digit(n % 10))
    }
}

/// Whether `c` is a decimal digit.
pub open spec fn is_digit(c: char) -> bool {
    48 <= c as int <= 57
}

/// The value of a decimal digit character.
pub open spec fn digit_val(c: char) -> int {
    c as int - 48
}

/// Whether every character of `s` is a decimal digit.
pub open spec fn all_digits(s: Seq<char>) -> bool {
    forall|i: int| 0 <= i < s.len() ==> is_digit(s[i])
}

/// The number a sequence of digit characters denotes.
pub open spec fn digits_val(s: Seq<char>) -> int
    decreases s.len(),
{
    if s.len() == 0 {
        0
    } else {
        digits_val(s.drop_last()) * 10 + digit_val(s.last())
    }
}

/// What `str::parse::<u32>` accepts: an optional leading `+`, then at least
/// one digit, denoting a value that fits in a `u32`.
pub open spec fn spec_parse_u32(s: Seq<char>) -> Option<u32> {
    let d = if s.len() >= 1 && s[0] == '+' {
        s.drop_first()
    } else {
        s
    };
    if d.len() >= 1 && all_digits(d) && digits_val(d) <= u32::MAX {
        Some(digits_val(d) as u32)
    } else {
        None
    }
}

pub proof fn lemma_digits_val_single(c: char)
    ensures
        digits_val(seq![c]) == digit_val(c),
{
    let s = seq![c];
    assert(s.drop_last() =~= Seq::<char>::empty());
    assert(digits_val(Seq::<char>::empty()) == 0);
    assert(s.last() == c);
}

/// A digit sequence never denotes a negative number, and its value only
/// grows as digits are appended: every prefix denotes at most the whole.
pub proof fn lemma_digits_val_prefix(s: Seq<char>, k: int)
    requires
        0 <= k <= s.len(),
        all_digits(s),
    ensures
        0 <= digits_val(s.subrange(0, k)) <= digits_val(s),
    decreases s.len() - k,
{
    if k == s.len() {
        lemma_digits_val_nonneg(s);
        assert(s.subrange(0, k) =~= s);
    } else {
        lemma_digits_val_prefix(s, k + 1);
        let shorter = s.subrange(0, k);
        let longer = s.subrange(0, k + 1);
        assert(longer.drop_last() =~= shorter);
        lemma_digits_val_nonneg(shorter);
        assert(digits_val(longer) == digits_val(shorter) * 10 + digit_val(longer.last()));
        assert(digits_val(shorter) * 10 >= digits_val(shorter)) by (nonlinear_arith)
            requires digits_val(shorter) >= 0;
    }
}

pub proof fn lemma_digits_val_nonneg(s: Seq<char>)
    requires
        all_digits(s),
    ensures
        digits_val(s) >= 0,
    decreases s.len(),
{
    if s.len() > 0 {
        assert(all_digits(s.drop_last()));
        lemma_digits_val_nonneg(s.drop_last());
        assert(digits_val(s.drop_last()) * 10 >= 0) by (nonlinear_arith)
            requires digits_val(s.drop_last()) >= 0;
    }
}

/// Reading the digits a number prints to gives the number back: on a digit
/// sequence without leading zeros, formatting its value reproduces it.
pub proof fn lemma_dec_of_digits(d: Seq<char>)
    requires
        d.len() >= 1,
        all_digits(d),
        d[0] != '0' || d.len() == 1,
    ensures
        spec_dec(digits_val(d)) == d,
    decreases d.len(),
{
    if d.len() == 1 {
        assert(d =~= seq![d[0]]);
        lemma_digits_val_single(d[0]);
        assert(digits_val(d) == digit_val(d[0]));
        assert(spec_digit(digit_val(d[0])) == d[0]) by {
            assert(48 <= d[0] as int <= 57);
        }
        assert(spec_dec(digits_val(d)) =~= d);
    } else {
        let front = d.drop_last();
        assert(front[0] == d[0]);
        assert(all_digits(front));
        lemma_dec_of_digits(front);
        let v = digits_val(front);
        // the leading digit is not zero, so the front denotes at least 1
        assert(front.subrange(0, 1) =~= seq![d[0]]);
        lemma_digits_val_single(d[0]);
        assert(digits_val(front.subrange(0, 1)) == digit_val(d[0]));
        assert(d[0] != '0');
        assert(digit_val(d[0]) >= 1);
        lemma_digits_val_prefix(front, 1);
        assert(v >= 1);
        let w = digits_val(d);
        assert(w == v * 10 + digit_val(d.last()));
        assert(v * 10 >= 10) by (nonlinear_arith)
            requires v >= 1;
        assert(0 <= digit_val(d.last()) <= 9);
        assert(w / 10 == v && w % 10 == digit_val(d.last())) by (nonlinear_arith)
            requires w == v * 10 + digit_val(d.last()), 0 <= digit_val(d.last()) <= 9, v >= 0;
        assert(spec_dec(w) == spec_dec(v).push(spec_digit(digit_val(d.last()))));
        assert(spec_digit(digit_val(d.last())) == d.last()) by {
            assert(48 <= d.last() as int <= 57);
        }
        assert(spec_dec(w) =~= d);
    }
}

/// The code point of a character, as a machine integer.
pub fn char_code(c: char) -> (r: u32)
    ensures
        r as int == c as int,
{
    c as u32
}

/// The decimal digits of `n`, most significant first.
pub fn u32_to_chars(n: u32) -> (r: Vec<char>)
    ensures
        r@ == spec_dec(n as int),
    decreases n,
{
    let digit = (48u8 + (n % 10) as u8) as char;
    if n < 10 {
        let mut v: Vec<char> = Vec::new();
        v.push(digit);
        proof {
            assert(v@ =~= spec_dec(n as int));
        }
        v
    } else {
        let mut v = u32_to_chars(n / 10);
        v.push(digit);
        proof {
            assert(v@ =~= spec_dec(n as int));
        }
        v
    }
}

/// Reads a `u32` the way the standard parser does: an optional leading `+`,
/// then decimal digits; anything else, or a value out of range, is rejected.
#[verifier::rlimit(30)]
pub fn parse_u32(s: &Vec<char>) -> (r: Option<u32>)
    ensures
        r == spec_parse_u32(s@),
{
    let ghost full = s@;
    let mut i: usize = 0;
    if s.len() >= 1 && s[0] == '+' {
        i = 1;
    }
    let ghost d = if full.len() >= 1 && full[0] == '+' { full.drop_first() } else { full };
    proof {
        assert(d =~= full.subrange(i as int, full.len() as int));
    }
    if i == s.len() {
        return None;
    }
    let mut acc: u32 = 0;
    let mut j: usize = i;
    while j < s.len()
        invariant
            i <= j <= s@.len(),
            s@ == full,
            d == full.subrange(i as int, full.len() as int),
            d == (if full.len() >= 1 && full[0] == '+' {
                full.drop_first()
            } else {
                full
            }),
            d.len() == full.len() - i,
            all_digits(d.subrange(0, j - i)),
            acc as int == digits_val(d.subrange(0, j - i)),
        decreases s@.len() - j,
    {
        let c = s[j];
        let cv = char_code(c);
        proof {
            assert(c == full[j as int]);
            assert(d[j - i] == full[j as int]);
        }
        if cv < 48 || cv > 57 {
            proof {
                assert(!is_digit(d[j - i]));
                assert(!all_digits(d));
                assert(spec_parse_u32(full) is None) by {
                    let dd = if full.len() >= 1 && full[0] == '+' {
                        full.drop_first()
                    } else {
                        full
                    };
                    assert(dd == d);
                    assert(!all_digits(dd));
                }
            }
            return None;
        }
        let dv = cv - 48;
        proof {
            assert(is_digit(c));
            assert(dv as int == digit_val(c));
            let prev = d.subrange(0, j - i);
            let prefix = d.subrange(0, j - i + 1);
            assert(prefix.drop_last() =~= prev);
            assert(prefix.last() == c);
            assert(all_digits(prefix)) by {
                assert(forall|k: int| 0 <= k < prefix.len() ==> prefix[k] == d[k]);
                assert(forall|k: int| 0 <= k < prev.len() ==> prev[k] == d[k]);
                assert(forall|k: int|
                    0 <= k < prefix.len() - 1 ==> #[trigger] is_digit(prefix[k]) == is_digit(
                        prev[k],
                    ));
            }
            assert(digits_val(prefix) == acc as int * 10 + dv as int);
        }
        if acc > (u32::MAX - dv) / 10 {
            proof {
                let prefix = d.subrange(0, j - i + 1);
                assert(acc as int * 10 + dv as int > u32::MAX as int) by (nonlinear_arith)
                    requires
                        acc as int > (u32::MAX as int - dv as int) / 10,
                        0 <= dv as int <= 9,
                        acc as int >= 0;
                if all_digits(d) && digits_val(d) <= u32::MAX {
                    lemma_digits_val_prefix(d, j - i + 1);
                    assert(false);
                }
                assert(spec_parse_u32(full) is None) by {
                    let dd = if full.len() >= 1 && full[0] == '+' {
                        full.drop_first()
                    } else {
                        full
                    };
                    assert(dd == d);
                    if dd.len() >= 1 && all_digits(dd) && digits_val(dd) <= u32::MAX {
                        assert(false);
                    }
                }
            }
            return None;
        }
        proof {
            assert(acc as int * 10 + dv as int <= u32::MAX as int) by (nonlinear_arith)
                requires
                    acc as int <= (u32::MAX as int - dv as int) / 10,
                    0 <= dv as int <= 9,
                    acc as int >= 0;
        }
        acc = acc * 10 + dv;
        j = j + 1;
    }
    proof {
        assert(d.subrange(0, d.len() as int) =~= d);
    }
    Some(acc)
}

/// The decimal print of a number is canonical: at least one digit, all of
/// them digits, no leading zero, and it denotes the number itself.
pub proof fn lemma_spec_dec_canonical(n: int)
    requires
        n >= 0,
    ensures
        spec_dec(n).len() >= 1,
        all_digits(spec_dec(n)),
        digits_val(spec_dec(n)) == n,
        spec_dec(n)[0] != '0' || spec_dec(n).len() == 1,
        n < 10 ==> spec_dec(n).len() == 1,
        n >= 10 ==> spec_dec(n).len() >= 2,
    decreases n,
{
    if n < 10 {
        let c = spec_digit(n);
        assert(c as int == 48 + n);
        lemma_digits_val_single(c);
        assert(spec_dec(n) =~= seq![c]);
    } else {
        lemma_spec_dec_canonical(n / 10);
        let front = spec_dec(n / 10);
        let c = spec_digit(n % 10);
        assert(c as int == 48 + n % 10);
        let d = spec_dec(n);
        assert(d == front.push(c));
        assert(d.drop_last() =~= front);
        assert(d.last() == c);
        assert(digits_val(d) == digits_val(front) * 10 + digit_val(c));
        assert(digits_val(d) == (n / 10) * 10 + n % 10);
        assert(all_digits(d)) by {
            assert(forall|i: int| 0 <= i < front.len() ==> d[i] == front[i]);
        }
        assert(d[0] == front[0]);
        if front.len() == 1 {
            assert(n / 10 < 10);
            assert(front[0] == spec_digit(n / 10));
            assert(n / 10 >= 1);
            assert(front[0] as int >= 49);
            assert(d[0] != '0');
        }
    }
}

/// A run of digits at a known position, ending where the digits end: the
/// canonical print of `v` followed by something that is not a digit.
pub open spec fn dec_run_at(s: Seq<char>, start: int, end: int, v: u32) -> bool {
    &&& 0 <= start <= end <= s.len()
    &&& s.subrange(start, end) == spec_dec(v as int)
    &&& end == s.len() || !is_digit(s[end])
}

/// Whether the character at position `j` is a decimal digit.
pub fn is_digit_at(s: &Vec<char>, j: usize) -> (r: bool)
    requires
        j < s@.len(),
    ensures
        r == is_digit(s@[j as int]),
{
    let cv = char_code(s[j]);
    48 <= cv && cv <= 57
}

/// Reads the run of digits beginning at `start` as a `u32` written in
/// canonical form: at least one digit, no leading zero, value in range. The
/// characters consumed are exactly the decimal print of the value returned.
pub fn scan_u32(s: &Vec<char>, start: usize) -> (r: Option<(u32, usize)>)
    requires
        start <= s@.len(),
    ensures
        r matches Some(p) ==> start < p.1 <= s@.len() && s@.subrange(start as int, p.1 as int)
            == spec_dec(p.0 as int),
        forall|v: u32, end: int| #[trigger] dec_run_at(s@, start as int, end, v) ==> (
        r matches Some(p) && p.0 == v && p.1 == end),
{
    let mut acc: u32 = 0;
    let mut j: usize = start;
    let mut overflowed = false;
    while j < s.len() && !overflowed && is_digit_at(s, j)
        invariant
            start <= j <= s@.len(),
            all_digits(s@.subrange(start as int, j as int)),
            !overflowed ==> acc as int == digits_val(s@.subrange(start as int, j as int)),
            overflowed ==> j > start && digits_val(s@.subrange(start as int, j as int))
                > u32::MAX,
        decreases s@.len() - j,
    {
        let c = s[j];
        let cv = char_code(c);
        let dv = cv - 48;
        proof {
            let prev = s@.subrange(start as int, j as int);
            let run = s@.subrange(start as int, j + 1);
            assert(run.drop_last() =~= prev);
            assert(run.last() == s@[j as int]);
            assert(is_digit(s@[j as int]));
            assert(all_digits(run)) by {
                assert(forall|k: int| 0 <= k < run.len() - 1 ==> run[k] == prev[k]);
            }
        }
        if acc > (u32::MAX - dv) / 10 {
            proof {
                let prev = s@.subrange(start as int, j as int);
                let run = s@.subrange(start as int, j + 1);
                assert(dv as int == digit_val(s@[j as int]));
                assert(digits_val(run) == digits_val(prev) * 10 + digit_val(run.last()));
                assert(acc as int * 10 + dv as int > u32::MAX as int) by (nonlinear_arith)
                    requires
                        acc as int > (u32::MAX as int - dv as int) / 10,
                        0 <= dv as int <= 9,
                        acc as int >= 0;
            }
            overflowed = true;
        } else {
            proof {
                assert(acc as int * 10 + dv as int <= u32::MAX as int) by (nonlinear_arith)
                    requires
                        acc as int <= (u32::MAX as int - dv as int) / 10,
                        0 <= dv as int <= 9,
                        acc as int >= 0;
            }
            acc = acc * 10 + dv;
        }
        j = j + 1;
    }
    if overflowed || j == start {
        proof {
            assert forall|v: u32, end: int| #[trigger] dec_run_at(
                s@,
                start as int,
                end,
                v,
            ) implies false by {
                lemma_spec_dec_canonical(v as int);
                let target = s@.subrange(start as int, end);
                assert(target.len() >= 1);
                assert(target[0] == s@[start as int]);
                assert(is_digit(s@[start as int]));
                if overflowed {
                    assert(j <= end) by {
                        if j > end {
                            let pre = s@.subrange(start as int, j as int);
                            assert(pre[end - start] == s@[end]);
                            assert(is_digit(s@[end]));
                        }
                    }
                    lemma_digits_val_prefix(target, j - start);
                    assert(target.subrange(0, j - start) =~= s@.subrange(
                        start as int,
                        j as int,
                    ));
                    assert(digits_val(target) == v as int);
                } else {
                    // the loop never ran, so the first character ends the run
                    assert(start < s@.len());
                }
            }
        }
        return None;
    }
    let first = char_code(s[start]);
    if first == 48 && j - start > 1 {
        proof {
            assert forall|v: u32, end: int| #[trigger] dec_run_at(
                s@,
                start as int,
                end,
                v,
            ) implies false by {
                lemma_spec_dec_canonical(v as int);
                let target = s@.subrange(start as int, end);
                assert(target[0] == s@[start as int]);
                assert(target[0] as int == 48);
                assert(target[0] == '0');
                assert(target.len() == 1);
                assert(end == start + 1);
                let pre = s@.subrange(start as int, j as int);
                assert(pre[1] == s@[start + 1]);
                assert(is_digit(s@[end]));
                assert(end < s@.len());
            }
        }
        return None;
    }
    proof {
        let run = s@.subrange(start as int, j as int);
        assert(run[0] == s@[start as int]);
        assert(first as int == run[0] as int);
        if run[0] == '0' {
            assert(run[0] as int == 48);
            assert(run.len() == 1);
        }
        lemma_dec_of_digits(run);
        assert forall|v: u32, end: int| #[trigger] dec_run_at(
            s@,
            start as int,
            end,
            v,
        ) implies acc == v && j as int == end by {
            lemma_spec_dec_canonical(v as int);
            let target = s@.subrange(start as int, end);
            assert(j <= end) by {
                if j > end {
                    assert(run[end - start] == s@[end]);
                    assert(is_digit(s@[end]));
                }
            }
            assert(end <= j) by {
                if end > j {
                    assert(target[j - start] == s@[j as int]);
                    assert(is_digit(s@[j as int]));
                }
            }
            assert(target =~= run);
            assert(digits_val(target) == v as int);
        }
    }
    Some((acc, j))
}

} // verus!
