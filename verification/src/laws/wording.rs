//! Text: what is cut off, filled in and put in its place.
use crate::double::decimal;
use crate::double::facts;
use crate::double::rounding;
use crate::double::Double;
use crate::text;
use vstd::arithmetic::power::*;
use vstd::arithmetic::power2::*;
use vstd::prelude::*;

verus! {

/// Of the characters of ASCII, the space and those from the tab to the carriage return are
/// white space.
pub proof fn law_white_space(c: char)
    requires
        c as int <= 0x7f,
    ensures
        text::is_space(c) <==> c == ' ' || 9 <= c as int <= 13,
{
}

proof fn lemma_leading(s: Seq<char>, out: spec_fn(char) -> bool) -> (n: int)
    ensures
        0 <= n <= s.len(),
        text::without_leading(s, out) == s.skip(n),
        forall|i: int| 0 <= i < n ==> out(#[trigger] s[i]),
        n < s.len() ==> !out(s[n]),
    decreases s.len(),
{
    if s.len() > 0 && out(s[0]) {
        let n = 1 + lemma_leading(s.skip(1), out);
        assert(s.skip(1).skip(n - 1) =~= s.skip(n));
        assert forall|i: int| 0 <= i < n implies out(#[trigger] s[i]) by {
            if i > 0 {
                assert(out(s.skip(1)[i - 1]));
            }
        }
        n
    } else {
        assert(s.skip(0) =~= s);
        0
    }
}

proof fn lemma_trailing(s: Seq<char>, out: spec_fn(char) -> bool) -> (n: int)
    ensures
        0 <= n <= s.len(),
        text::without_trailing(s, out) == s.take(n),
        forall|i: int| n <= i < s.len() ==> out(#[trigger] s[i]),
        n > 0 ==> !out(s[n - 1]),
    decreases s.len(),
{
    if s.len() > 0 && out(s.last()) {
        let n = lemma_trailing(s.drop_last(), out);
        assert(s.drop_last().take(n) =~= s.take(n));
        assert forall|i: int| n <= i < s.len() implies out(#[trigger] s[i]) by {
            if i < s.len() - 1 {
                assert(out(s.drop_last()[i]));
            }
        }
        n
    } else {
        assert(s.take(s.len() as int) =~= s);
        s.len() as int
    }
}

/// Between which places a text is kept when what is `out` is cut off around it.
proof fn lemma_cut(s: Seq<char>, out: spec_fn(char) -> bool) -> (cut: (int, int))
    ensures
        ({
            let (from, to) = cut;
            &&& 0 <= from <= to <= s.len()
            &&& text::without_trailing(text::without_leading(s, out), out) == s.subrange(from, to)
            &&& forall|i: int| 0 <= i < from || to <= i < s.len() ==> out(#[trigger] s[i])
            &&& from < to ==> !out(s[from]) && !out(s[to - 1])
        }),
{
    let from = lemma_leading(s, out);
    let rest = s.skip(from);
    let n = lemma_trailing(rest, out);
    let to = from + n;
    assert(rest.take(n) =~= s.subrange(from, to));
    assert forall|i: int| 0 <= i < from || to <= i < s.len() implies out(#[trigger] s[i]) by {
        if i >= to {
            assert(out(rest[i - from]));
        }
    }
    if n > 0 {
        assert(rest[n - 1] == s[to - 1]);
    }
    (from, to)
}

/// Trimming keeps what is between the first and the last character that is not white space.
pub proof fn law_trimming(s: Seq<char>) -> (cut: (int, int))
    ensures
        ({
            let (from, to) = cut;
            &&& 0 <= from <= to <= s.len()
            &&& text::trimmed(s) == s.subrange(from, to)
            &&& forall|i: int|
                0 <= i < from || to <= i < s.len() ==> text::is_space(#[trigger] s[i])
            &&& from < to ==> !text::is_space(s[from]) && !text::is_space(s[to - 1])
        }),
{
    let out = |c: char| text::is_space(c);
    let cut = lemma_cut(s, out);
    assert forall|i: int| 0 <= i < cut.0 || cut.1 <= i < s.len() implies text::is_space(
        #[trigger] s[i],
    ) by {
        assert(out(s[i]));
    }
    cut
}

/// Quotes are taken off at both ends, as many as there are, and nowhere else.
pub proof fn law_quotes_are_taken_off(s: Seq<char>, quote: char) -> (cut: (int, int))
    ensures
        ({
            let (from, to) = cut;
            &&& 0 <= from <= to <= s.len()
            &&& text::stripped(s, quote) == s.subrange(from, to)
            &&& forall|i: int| 0 <= i < from || to <= i < s.len() ==> #[trigger] s[i] == quote
            &&& from < to ==> s[from] != quote && s[to - 1] != quote
        }),
{
    let cut = lemma_cut(s, text::just(quote));
    assert forall|i: int| 0 <= i < cut.0 || cut.1 <= i < s.len() implies #[trigger] s[i]
        == quote by {
        assert(text::just(quote)(s[i]));
    }
    cut
}

/// Capital letters become small ones and nothing else changes.
pub proof fn law_small_letters(s: Seq<char>, i: int)
    requires
        0 <= i < s.len(),
    ensures
        text::lowered(s).len() == s.len(),
        'A' <= s[i] <= 'Z' ==> text::lowered(s)[i] as int == s[i] as int + 32,
        !('A' <= s[i] <= 'Z') ==> text::lowered(s)[i] == s[i],
{
}

/// A number is written in digits that read as the number, without a zero in front.
pub proof fn law_decimal_digits(n: nat)
    ensures
        ({
            let s = text::decimal(n);
            &&& s.len() > 0 && text::all_digits(s)
            &&& text::digits_value(s) == n
            &&& s[0] == '0' ==> n == 0 && s.len() == 1
        }),
    decreases n,
{
    let s = text::decimal(n);
    if n < 10 {
        assert(s.drop_last() =~= Seq::empty());
        assert(text::digits_value(s.drop_last()) == 0);
    } else {
        let rest = text::decimal(n / 10);
        law_decimal_digits(n / 10);
        assert(s.drop_last() =~= rest);
        assert(s[0] == rest[0]);
    }
}

/// Filling up to a width adds just what is missing, behind the text or in front of it.
pub proof fn law_filling_up(s: Seq<char>, width: nat, fill: char)
    ensures
        ({
            let (l, f) = (text::left_aligned(s, width), text::filled(s, width, fill));
            let n = if s.len() < width {
                width
            } else {
                s.len()
            };
            &&& l.len() == n && f.len() == n
            &&& l.take(s.len() as int) == s && f.skip(n - s.len()) == s
            &&& forall|i: int| s.len() <= i < n ==> #[trigger] l[i] == ' '
            &&& forall|i: int| 0 <= i < n - s.len() ==> #[trigger] f[i] == fill
        }),
        text::right_aligned(s, width) == text::filled(s, width, ' '),
{
    let (l, f) = (text::left_aligned(s, width), text::filled(s, width, fill));
    assert(l.take(s.len() as int) =~= s);
    assert(f.skip(f.len() - s.len()) =~= s);
}

/// The pattern stands in the text at place `i`.
pub open spec fn stands_at(s: Seq<char>, pattern: Seq<char>, i: int) -> bool {
    0 <= i <= s.len() - pattern.len() && s.subrange(i, i + pattern.len()) == pattern
}

/// Where the pattern first stands, its replacement stands; what is in front of it stays, and
/// the same is done to what is behind it.
pub proof fn law_replacing(s: Seq<char>, pattern: Seq<char>, with: Seq<char>, at: int)
    requires
        pattern.len() > 0,
        stands_at(s, pattern, at),
        forall|i: int| 0 <= i < at ==> !(#[trigger] stands_at(s, pattern, i)),
    ensures
        text::replaced(s, pattern, with) == s.take(at) + with + text::replaced(
            s.skip(at + pattern.len()),
            pattern,
            with,
        ),
    decreases at,
{
    let m = pattern.len() as int;
    if at == 0 {
        assert(s.subrange(0, m) =~= s.take(m));
        assert(s.take(0) + with =~= with);
    } else {
        assert(!stands_at(s, pattern, 0));
        assert(s.subrange(0, m) =~= s.take(m));
        let rest = s.skip(1);
        assert(rest.subrange(at - 1, at - 1 + m) =~= s.subrange(at, at + m));
        assert forall|i: int| 0 <= i < at - 1 implies !(#[trigger] stands_at(
            rest,
            pattern,
            i,
        )) by {
            assert(!stands_at(s, pattern, i + 1));
            if i <= rest.len() - m {
                assert(rest.subrange(i, i + m) =~= s.subrange(i + 1, i + 1 + m));
            }
        }
        law_replacing(rest, pattern, with, at - 1);
        let tail = text::replaced(s.skip(at + m), pattern, with);
        assert(rest.skip(at - 1 + m) =~= s.skip(at + m));
        assert(seq![s[0]] + (rest.take(at - 1) + with + tail) =~= s.take(at) + with + tail);
    }
}

/// A text without the pattern stays as it is.
pub proof fn law_nothing_to_replace(s: Seq<char>, pattern: Seq<char>, with: Seq<char>)
    requires
        pattern.len() > 0,
        forall|i: int| !(#[trigger] stands_at(s, pattern, i)),
    ensures
        text::replaced(s, pattern, with) == s,
    decreases s.len(),
{
    let m = pattern.len() as int;
    if s.len() >= m {
        assert(!stands_at(s, pattern, 0));
        assert(s.subrange(0, m) =~= s.take(m));
        let rest = s.skip(1);
        assert forall|i: int| !(#[trigger] stands_at(rest, pattern, i)) by {
            assert(!stands_at(s, pattern, i + 1));
            if 0 <= i <= rest.len() - m {
                assert(rest.subrange(i, i + m) =~= s.subrange(i + 1, i + 1 + m));
            }
        }
        law_nothing_to_replace(rest, pattern, with);
        assert(seq![s[0]] + rest =~= s);
    }
}

/// A number to so many places is within half of the last place of the number; half way
/// between two it is the even one.
pub proof fn law_places(x: Double, places: nat)
    requires
        x.finite(),
    ensures
        ({
            let (n, one) = (x.in_places(places), pow2(1074));
            let exact = rounding::units(x.magnitude()) * pow(10, places);
            &&& 2 * facts::size(n * one - exact) <= one
            &&& 2 * facts::size(n * one - exact) == one ==> n % 2 == 0
        }),
{
    lemma_pow2_pos(1074);
    lemma_pow_positive(10, places);
    let d = pow2(1074);
    let u = rounding::units(x.magnitude());
    let t = pow(10, places);
    assert(u * t >= 0) by (nonlinear_arith)
        requires
            u >= 0,
            t > 0,
    ;
    let n = u * t as nat;
    vstd::arithmetic::div_mod::lemma_fundamental_div_mod(n as int, d as int);
    let (q, r) = (n / d, n % d);
    assert(q * d == d * q && (q + 1) * d == d * q + d) by (nonlinear_arith);
}

/// So many digits, that read as the last so many of the number.
proof fn lemma_last_digits(n: nat, width: nat)
    ensures
        ({
            let s = decimal::last_digits(n, width);
            &&& s.len() == width && text::all_digits(s)
            &&& text::digits_value(s) == n % (pow(10, width) as nat)
            &&& pow(10, width) > 0
        }),
    decreases width,
{
    lemma_pow_positive(10, width);
    if width == 0 {
        reveal(pow);
        assert(n % 1 == 0);
    } else {
        let w = (width - 1) as nat;
        lemma_last_digits(n / 10, w);
        lemma_pow_positive(10, w);
        let (s, rest) = (decimal::last_digits(n, width), decimal::last_digits(n / 10, w));
        assert(s.drop_last() =~= rest);
        assert(pow(10, width) == 10 * pow(10, w)) by {
            reveal(pow);
        }
        let p = pow(10, w) as nat;
        vstd::arithmetic::div_mod::lemma_breakdown(n as int, 10, p as int);
        assert forall|i: int| 0 <= i < s.len() implies text::is_digit(#[trigger] s[i]) by {
            if i < rest.len() {
                assert(s[i] == rest[i]);
            }
        }
    }
}

/// A number of places is written with just so many digits behind the point, and what is in
/// front of it and behind it reads as the number.
pub proof fn law_places_are_written_out(n: nat, places: nat)
    requires
        places > 0,
    ensures
        ({
            let s = decimal::with_places(n, places);
            let k = s.len() - places - 1;
            let (front, back) = (s.take(k), s.skip(k + 1));
            &&& k > 0 && s[k] == '.'
            &&& text::all_digits(front) && text::all_digits(back)
            &&& text::digits_value(front) * pow(10, places) + text::digits_value(back) == n
        }),
{
    lemma_last_digits(n, places);
    lemma_pow_positive(10, places);
    let one = pow(10, places) as nat;
    law_decimal_digits(n / one);
    let (a, b) = (text::decimal(n / one), decimal::last_digits(n, places));
    let s = decimal::with_places(n, places);
    let k = s.len() - places - 1;
    assert(s.take(k) =~= a);
    assert(s.skip(k + 1) =~= b);
    vstd::arithmetic::div_mod::lemma_fundamental_div_mod(n as int, one as int);
    let q = n / one;
    assert(q * one == one * q) by (nonlinear_arith);
}

} // verus!
