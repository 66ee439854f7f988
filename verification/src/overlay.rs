//! The text of the overlay.
use vstd::arithmetic::power2::*;
use vstd::prelude::*;
use vstd::string::*;

use crate::rounding;
use crate::single;
use crate::single::Single;
use crate::single_laws;

verus! {

/// A decimal digit.
pub open spec fn digit(d: nat) -> char {
    ('0' as u32 + d) as char
}

/// A whole number in decimal.
pub open spec fn decimal(n: nat) -> Seq<char>
    decreases n,
{
    if n < 10 {
        seq![digit(n)]
    } else {
        decimal(n / 10).push(digit(n % 10))
    }
}

/// A number without its fraction, as text.
pub open spec fn whole_text(p: Single) -> Seq<char> {
    let sign: Seq<char> = if p.negative() {
        seq!['-']
    } else {
        seq![]
    };
    if p.is_nan() {
        seq!['N', 'a', 'N']
    } else if p.is_infinite() {
        sign + seq!['i', 'n', 'f']
    } else {
        sign + decimal(single::nearest_whole(rounding::magnitude(p.pattern())))
    }
}

/// The overlay: both percentages, and how to quit.
pub open spec fn hud_chars(ram_pct: Single, cpu_pct: Single) -> Seq<char> {
    " RAM:"@ + whole_text(ram_pct) + "%  CPU:"@ + whole_text(cpu_pct) + "%  [q] quit "@
}

/// Printable ASCII.
pub open spec fn is_plain(s: Seq<char>) -> bool {
    forall|i: int| 0 <= i < s.len() ==> 0x20 <= #[trigger] s[i] as u32 <= 0x7e
}

fn digit_str(d: u8) -> (s: &'static str)
    requires
        d < 10,
    ensures
        s@ == seq![digit(d as nat)],
{
    let s: &'static str = match d {
        0 => "0",
        1 => "1",
        2 => "2",
        3 => "3",
        4 => "4",
        5 => "5",
        6 => "6",
        7 => "7",
        8 => "8",
        _ => "9",
    };
    proof {
        reveal_strlit("0");
        reveal_strlit("1");
        reveal_strlit("2");
        reveal_strlit("3");
        reveal_strlit("4");
        reveal_strlit("5");
        reveal_strlit("6");
        reveal_strlit("7");
        reveal_strlit("8");
        reveal_strlit("9");
        assert(s@ =~= seq![digit(d as nat)]);
    }
    s
}

fn push_decimal(out: &mut String, n: u128)
    ensures
        final(out)@ == old(out)@ + decimal(n as nat),
    decreases n,
{
    if n >= 10 {
        push_decimal(out, n / 10);
    }
    out.append(digit_str((n % 10) as u8));
    proof {
        if n < 10 {
            assert(out@ =~= old(out)@ + decimal(n as nat));
        } else {
            assert(out@ =~= old(out)@ + decimal(n as nat));
        }
    }
}

/// The number without its fraction, as text.
pub fn whole_string(p: Single) -> (s: String)
    ensures
        s@ == whole_text(p),
{
    proof {
        reveal_strlit("NaN");
        reveal_strlit("-");
        reveal_strlit("inf");
    }
    let mut out: String = String::new();
    if p.is_not_a_number() {
        out.append("NaN");
        proof {
            assert(out@ =~= whole_text(p));
        }
        return out;
    }
    if p.sign_bit() {
        out.append("-");
    }
    let ghost sign = out@;
    proof {
        if p.negative() {
            assert(sign =~= seq!['-']);
        } else {
            assert(sign =~= seq![]);
        }
    }
    if p.is_infinity() {
        out.append("inf");
        proof {
            assert(out@ =~= sign + seq!['i', 'n', 'f']);
        }
    } else {
        push_decimal(&mut out, p.nearest_whole_magnitude());
    }
    out
}

/// The text of the overlay.
pub fn hud_text(ram_pct: Single, cpu_pct: Single) -> (s: String)
    ensures
        s@ == hud_chars(ram_pct, cpu_pct),
        is_plain(s@),
{
    let mut s: String = String::new();
    s.append(" RAM:");
    s.append(whole_string(ram_pct).as_str());
    s.append("%  CPU:");
    s.append(whole_string(cpu_pct).as_str());
    s.append("%  [q] quit ");
    proof {
        assert(s@ =~= hud_chars(ram_pct, cpu_pct));
        law_hud_is_plain(ram_pct, cpu_pct);
    }
    s
}

proof fn lemma_decimal_is_plain(n: nat)
    ensures
        is_plain(decimal(n)),
    decreases n,
{
    if n >= 10 {
        lemma_decimal_is_plain(n / 10);
    }
}

/// The overlay is printable ASCII, whatever the percentages.
pub proof fn law_hud_is_plain(ram_pct: Single, cpu_pct: Single)
    ensures
        is_plain(hud_chars(ram_pct, cpu_pct)),
{
    reveal_strlit(" RAM:");
    reveal_strlit("%  CPU:");
    reveal_strlit("%  [q] quit ");
    lemma_decimal_is_plain(single::nearest_whole(rounding::magnitude(ram_pct.pattern())));
    lemma_decimal_is_plain(single::nearest_whole(rounding::magnitude(cpu_pct.pattern())));
}

/// The number that a row of decimal digits stands for.
pub open spec fn number(digits: Seq<char>) -> int
    decreases digits.len(),
{
    if digits.len() == 0 {
        0
    } else {
        10 * number(digits.drop_last()) + (digits.last() as u32 - '0' as u32)
    }
}

/// Decimal digits, at least one of them, and no zero before others.
pub open spec fn are_digits(s: Seq<char>) -> bool {
    &&& s.len() > 0
    &&& forall|i: int| 0 <= i < s.len() ==> '0' <= #[trigger] s[i] <= '9'
    &&& s.len() > 1 ==> s[0] != '0'
}

/// A whole number in decimal can be read back.
pub proof fn law_decimals_read_back(n: nat)
    ensures
        are_digits(decimal(n)),
        number(decimal(n)) == n,
    decreases n,
{
    reveal_with_fuel(number, 2);
    if n < 10 {
        assert(decimal(n).drop_last() =~= seq![]);
    } else {
        law_decimals_read_back(n / 10);
        let rest = decimal(n / 10);
        assert(decimal(n).drop_last() =~= rest);
        assert(n / 10 > 0);
        assert(rest[0] != '0') by {
            if rest.len() == 1 {
                assert(rest.drop_last() =~= seq![]);
            }
        }
        assert(decimal(n)[0] == rest[0]);
    }
}

/// The text tells the number: its sign, and the digits of the whole number that is
/// nearest to it, the even one of two; or that it is infinite, or not a number.
pub open spec fn tells(text: Seq<char>, p: Single) -> bool {
    if p.is_nan() {
        text == seq!['N', 'a', 'N']
    } else if p.is_infinite() {
        text == if p.negative() {
            seq!['-', 'i', 'n', 'f']
        } else {
            seq!['i', 'n', 'f']
        }
    } else {
        let digits = if p.negative() {
            text.skip(1)
        } else {
            text
        };
        let off = number(digits) * pow2(149) - single_laws::size(p.value());
        &&& p.negative() ==> text.len() > 0 && text[0] == '-'
        &&& are_digits(digits)
        &&& -pow2(149) <= 2 * off <= pow2(149)
        &&& 2 * off == -pow2(149) || 2 * off == pow2(149) ==> number(digits) % 2 == 0
    }
}

/// The text of a number tells it.
pub proof fn law_texts_tell_their_numbers(p: Single)
    ensures
        tells(whole_text(p), p),
{
    if p.is_infinite() {
        assert(whole_text(p) =~= if p.negative() {
            seq!['-', 'i', 'n', 'f']
        } else {
            seq!['i', 'n', 'f']
        });
    } else if p.is_finite() {
        let z = pow2(149);
        let v = rounding::magnitude(p.pattern());
        let n = single::nearest_whole(v);
        lemma_pow2_pos(149);
        vstd::arithmetic::div_mod::lemma_fundamental_div_mod(v as int, z as int);
        let w = v / z;
        assert(w * z == z * w && (w + 1) * z == z * w + z) by (nonlinear_arith);
        law_decimals_read_back(n);
        if p.negative() {
            assert(whole_text(p).skip(1) =~= decimal(n));
        } else {
            assert(whole_text(p) =~= decimal(n));
        }
    }
}

/// The overlay tells the share of memory first and the use of the processors second,
/// each by its name, and how to quit.
pub proof fn law_hud_tells_both(ram_pct: Single, cpu_pct: Single)
    ensures
        exists|ram: Seq<char>, cpu: Seq<char>|
            #![trigger tells(ram, ram_pct), tells(cpu, cpu_pct)]
            tells(ram, ram_pct) && tells(cpu, cpu_pct) && hud_chars(ram_pct, cpu_pct)
                == " RAM:"@ + ram + "%  CPU:"@ + cpu + "%  [q] quit "@,
{
    law_texts_tell_their_numbers(ram_pct);
    law_texts_tell_their_numbers(cpu_pct);
}

/// Decimals are short.
proof fn lemma_decimal_len(n: nat, k: nat)
    requires
        n < pow2(3 * k),
    ensures
        decimal(n).len() <= k + 1,
    decreases k,
{
    if n >= 10 {
        if k == 0 {
            lemma2_to64();
        } else {
            let j = (k - 1) as nat;
            lemma_pow2_adds(3, 3 * j);
            lemma2_to64();
            assert(3 + 3 * j == 3 * k);
            lemma_decimal_len(n / 10, j);
        }
    }
}

/// The overlay is short.
pub proof fn law_hud_is_short(ram_pct: Single, cpu_pct: Single)
    ensures
        24 <= hud_chars(ram_pct, cpu_pct).len() <= 200,
{
    reveal_strlit(" RAM:");
    reveal_strlit("%  CPU:");
    reveal_strlit("%  [q] quit ");
    lemma_whole_text_len(ram_pct);
    lemma_whole_text_len(cpu_pct);
}

proof fn lemma_whole_text_len(p: Single)
    ensures
        whole_text(p).len() <= 60,
{
    if p.is_finite() {
        let z = pow2(149);
        let v = rounding::magnitude(p.pattern());
        rounding::lemma_magnitude_ordered(p.pattern(), rounding::INFINITY as nat);
        rounding::lemma_magnitude_parts(254, 0x80_0000);
        lemma_pow2_pos(149);
        lemma_pow2_adds(23, 254);
        lemma_pow2_adds(128, 149);
        lemma_pow2_unfold(129);
        lemma_pow2_pos(128);
        lemma2_to64();
        let w = v / z;
        vstd::arithmetic::div_mod::lemma_fundamental_div_mod(v as int, z as int);
        assert(w < pow2(128)) by (nonlinear_arith)
            requires
                v == z * w + v % z,
                v < pow2(128) * z,
                0 <= v % z,
                z > 0,
        ;
        lemma_decimal_len(single::nearest_whole(v), 43);
    }
}

} // verus!
