//! Human-readable size text: 1024-based units, two decimal places above
//! bytes, computed in integers with half-up rounding.

use vstd::prelude::*;

verus! {

pub const KB: u64 = 1024;

pub const MB: u64 = 1024 * KB;

pub const GB: u64 = 1024 * MB;

pub const TB: u64 = 1024 * GB;

/// The character for one decimal digit.
pub open spec fn spec_digit(d: nat) -> char {
    if d == 0 {
        '0'
    } else if d == 1 {
        '1'
    } else if d == 2 {
        '2'
    } else if d == 3 {
        '3'
    } else if d == 4 {
        '4'
    } else if d == 5 {
        '5'
    } else if d == 6 {
        '6'
    } else if d == 7 {
        '7'
    } else if d == 8 {
        '8'
    } else {
        '9'
    }
}

/// The decimal digits of `n`, most significant first.
pub open spec fn spec_decimal(n: nat) -> Seq<char>
    decreases n,
{
    if n < 10 {
        seq![spec_digit(n)]
    } else {
        spec_decimal(n / 10).push(spec_digit(n % 10))
    }
}

/// `size` in hundredths of `unit`, rounded half up.
pub open spec fn spec_hundredths(size: nat, unit: nat) -> nat
    recommends
        unit > 0,
{
    (size * 100 + unit / 2) / unit
}

/// `size` scaled to `unit`, written with two decimal places.
pub open spec fn spec_scaled(size: nat, unit: nat) -> Seq<char>
    recommends
        unit > 0,
{
    let h = spec_hundredths(size, unit);
    spec_decimal(h / 100) + "."@ + seq![spec_digit((h % 100) / 10), spec_digit(h % 10)]
}

/// The size text: a plain byte count below one kibibyte, above it the
/// value scaled to the largest unit it reaches, with two decimal places.
pub open spec fn spec_size_text(size: u64) -> Seq<char> {
    if size < KB {
        spec_decimal(size as nat) + " B"@
    } else if size < MB {
        spec_scaled(size as nat, KB as nat) + " KB"@
    } else if size < GB {
        spec_scaled(size as nat, MB as nat) + " MB"@
    } else if size < TB {
        spec_scaled(size as nat, GB as nat) + " GB"@
    } else {
        spec_scaled(size as nat, TB as nat) + " TB"@
    }
}

/// One digit as text.
fn digit_str(d: u64) -> (r: &'static str)
    requires
        d < 10,
    ensures
        r@ == seq![spec_digit(d as nat)],
{
    if d == 0 {
        proof {
            reveal_strlit("0");
        }
        "0"
    } else if d == 1 {
        proof {
            reveal_strlit("1");
        }
        "1"
    } else if d == 2 {
        proof {
            reveal_strlit("2");
        }
        "2"
    } else if d == 3 {
        proof {
            reveal_strlit("3");
        }
        "3"
    } else if d == 4 {
        proof {
            reveal_strlit("4");
        }
        "4"
    } else if d == 5 {
        proof {
            reveal_strlit("5");
        }
        "5"
    } else if d == 6 {
        proof {
            reveal_strlit("6");
        }
        "6"
    } else if d == 7 {
        proof {
            reveal_strlit("7");
        }
        "7"
    } else if d == 8 {
        proof {
            reveal_strlit("8");
        }
        "8"
    } else {
        proof {
            reveal_strlit("9");
        }
        "9"
    }
}

/// Append the decimal digits of `n`.
fn push_decimal(s: &mut String, n: u64)
    ensures
        final(s)@ == old(s)@ + spec_decimal(n as nat),
    decreases n,
{
    if n < 10 {
        s.append(digit_str(n));
        proof {
            assert(final(s)@ =~= old(s)@ + spec_decimal(n as nat));
        }
    } else {
        push_decimal(s, n / 10);
        s.append(digit_str(n % 10));
        proof {
            assert(final(s)@ =~= old(s)@ + spec_decimal(n as nat));
        }
    }
}

/// Append `size` scaled to `unit` with two decimal places.
fn push_scaled(s: &mut String, size: u64, unit: u64)
    requires
        unit >= 1024,
    ensures
        final(s)@ == old(s)@ + spec_scaled(size as nat, unit as nat),
{
    let wide = (size as u128 * 100 + unit as u128 / 2) / (unit as u128);
    proof {
        let a = size as int * 100 + (unit as int) / 2;
        assert(wide as int == a / (unit as int));
        assert(a <= size as int * 100 + unit as int);
        let bound = u64::MAX as int + 1;
        assert(size as int * 100 + (unit as int) < (unit as int) * bound) by (nonlinear_arith)
            requires
                size <= u64::MAX,
                unit >= 1024u64,
                bound == u64::MAX as int + 1,
        ;
        vstd::arithmetic::div_mod::lemma_multiply_divide_lt(a, unit as int, bound);
        assert(wide <= u64::MAX);
        assert(wide as int == spec_hundredths(size as nat, unit as nat));
    }
    let h = wide as u64;
    push_decimal(s, h / 100);
    s.append(".");
    s.append(digit_str((h % 100) / 10));
    s.append(digit_str(h % 10));
    proof {
        assert(final(s)@ =~= old(s)@ + spec_scaled(size as nat, unit as nat));
    }
}

/// The size as text: `"731 B"`, `"1.00 KB"`, `"2.35 MB"` and so on.
pub fn format_size(size: u64) -> (r: String)
    ensures
        r@ == spec_size_text(size),
{
    let mut s = String::new();
    if size < KB {
        push_decimal(&mut s, size);
        s.append(" B");
    } else if size < MB {
        push_scaled(&mut s, size, KB);
        s.append(" KB");
    } else if size < GB {
        push_scaled(&mut s, size, MB);
        s.append(" MB");
    } else if size < TB {
        push_scaled(&mut s, size, GB);
        s.append(" GB");
    } else {
        push_scaled(&mut s, size, TB);
        s.append(" TB");
    }
    proof {
        assert(s@ =~= spec_size_text(size));
    }
    s
}

} // verus!
