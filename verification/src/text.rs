//! Text, character by character.
use vstd::prelude::*;

verus! {

/// `String::push` puts one character at the end.
pub assume_specification[ String::push ](s: &mut String, c: char)
    ensures
        final(s)@ == old(s)@.push(c),
;

/// The characters of Unicode's White_Space property.
pub open spec fn is_space(c: char) -> bool {
    let n = c as u32;
    ||| 0x09 <= n <= 0x0d
    ||| n == 0x20
    ||| n == 0x85
    ||| n == 0xa0
    ||| n == 0x1680
    ||| 0x2000 <= n <= 0x200a
    ||| n == 0x2028
    ||| n == 0x2029
    ||| n == 0x202f
    ||| n == 0x205f
    ||| n == 0x3000
}

/// The text from its first character on that is not `out`.
pub open spec fn without_leading(s: Seq<char>, out: spec_fn(char) -> bool) -> Seq<char>
    decreases s.len(),
{
    if s.len() > 0 && out(s[0]) {
        without_leading(s.skip(1), out)
    } else {
        s
    }
}

/// The text up to its last character that is not `out`.
pub open spec fn without_trailing(s: Seq<char>, out: spec_fn(char) -> bool) -> Seq<char>
    decreases s.len(),
{
    if s.len() > 0 && out(s.last()) {
        without_trailing(s.drop_last(), out)
    } else {
        s
    }
}

/// The text without the white space around it.
pub open spec fn trimmed(s: Seq<char>) -> Seq<char> {
    without_trailing(without_leading(s, |c: char| is_space(c)), |c: char| is_space(c))
}

/// The text without the characters `quote` around it.
pub open spec fn stripped(s: Seq<char>, quote: char) -> Seq<char> {
    without_trailing(without_leading(s, just(quote)), just(quote))
}

pub open spec fn just(quote: char) -> spec_fn(char) -> bool {
    |c: char| c == quote
}

/// A letter A to Z as a small letter; any other character as it is.
pub open spec fn lower(c: char) -> char {
    if 'A' <= c && c <= 'Z' {
        (c as u8 + 32) as char
    } else {
        c
    }
}

pub open spec fn lowered(s: Seq<char>) -> Seq<char> {
    s.map_values(|c: char| lower(c))
}

pub open spec fn digit(d: nat) -> char {
    (48 + d) as char
}

/// A number in decimal digits.
pub open spec fn decimal(n: nat) -> Seq<char>
    decreases n,
{
    if n < 10 {
        seq![digit(n)]
    } else {
        decimal(n / 10).push(digit(n % 10))
    }
}

pub open spec fn spaces(n: nat) -> Seq<char> {
    Seq::new(n, |i: int| ' ')
}

/// The text filled up with spaces on the right to a width.
pub open spec fn left_aligned(s: Seq<char>, width: nat) -> Seq<char> {
    if s.len() < width {
        s + spaces((width - s.len()) as nat)
    } else {
        s
    }
}

/// The text filled up with a character on the left to a width.
pub open spec fn filled(s: Seq<char>, width: nat, fill: char) -> Seq<char> {
    if s.len() < width {
        Seq::new((width - s.len()) as nat, |i: int| fill) + s
    } else {
        s
    }
}

/// The text filled up with spaces on the left to a width.
pub open spec fn right_aligned(s: Seq<char>, width: nat) -> Seq<char> {
    filled(s, width, ' ')
}

pub fn is_white(c: char) -> (r: bool)
    ensures
        r == is_space(c),
{
    let n: u32 = c as u32;
    (0x09 <= n && n <= 0x0d) || n == 0x20 || n == 0x85 || n == 0xa0 || n == 0x1680 || (0x2000 <= n
        && n <= 0x200a) || n == 0x2028 || n == 0x2029 || n == 0x202f || n == 0x205f || n == 0x3000
}

/// The characters of a text.
pub fn characters(s: &str) -> (r: Vec<char>)
    ensures
        r@ == s@,
{
    let mut out: Vec<char> = Vec::new();
    for c in it: s.chars()
        invariant
            out@ == it.seq().take(it.index()),
            it.seq() == s@,
    {
        out.push(c);
    }
    out
}

/// Part of a text.
pub fn part(s: &Vec<char>, from: usize, to: usize) -> (r: String)
    requires
        from <= to <= s@.len(),
    ensures
        r@ == s@.subrange(from as int, to as int),
{
    let mut out = String::new();
    for i in from..to
        invariant
            from <= to <= s@.len(),
            out@ == s@.subrange(from as int, i as int),
    {
        out.push(s[i]);
    }
    out
}

pub fn to_lower(c: char) -> (r: char)
    ensures
        r == lower(c),
{
    if 'A' <= c && c <= 'Z' {
        (c as u8 + 32) as char
    } else {
        c
    }
}

proof fn lemma_leading(s: Seq<char>, out: spec_fn(char) -> bool, n: int)
    requires
        0 <= n <= s.len(),
        forall|i: int| 0 <= i < n ==> out(#[trigger] s[i]),
        n < s.len() ==> !out(s[n]),
    ensures
        without_leading(s, out) == s.skip(n),
    decreases n,
{
    if n == 0 {
        assert(s.skip(0) =~= s);
    } else {
        assert(out(s[0]));
        assert forall|i: int| 0 <= i < n - 1 implies out(#[trigger] s.skip(1)[i]) by {
            assert(out(s[i + 1]));
        }
        lemma_leading(s.skip(1), out, n - 1);
        assert(s.skip(1).skip(n - 1) =~= s.skip(n));
    }
}

proof fn lemma_trailing(s: Seq<char>, out: spec_fn(char) -> bool, n: int)
    requires
        0 <= n <= s.len(),
        forall|i: int| n <= i < s.len() ==> out(#[trigger] s[i]),
        n > 0 ==> !out(s[n - 1]),
    ensures
        without_trailing(s, out) == s.take(n),
    decreases s.len() - n,
{
    if n == s.len() {
        assert(s.take(n) =~= s);
    } else {
        assert(out(s.last()));
        lemma_trailing(s.drop_last(), out, n);
        assert(s.drop_last().take(n) =~= s.take(n));
    }
}

proof fn lemma_around(s: Seq<char>, out: spec_fn(char) -> bool, from: int, to: int)
    requires
        0 <= from <= to <= s.len(),
        forall|i: int| 0 <= i < from ==> out(#[trigger] s[i]),
        forall|i: int| to <= i < s.len() ==> out(#[trigger] s[i]),
        from < s.len() ==> !out(s[from]),
        to > from ==> !out(s[to - 1]),
    ensures
        without_trailing(without_leading(s, out), out) == s.subrange(from, to),
{
    lemma_leading(s, out, from);
    let t = s.skip(from);
    assert forall|i: int| to - from <= i < t.len() implies out(#[trigger] t[i]) by {
        assert(out(s[i + from]));
    }
    lemma_trailing(t, out, to - from);
    assert(t.take(to - from) =~= s.subrange(from, to));
}

/// The text without the white space around it.
pub fn trim(s: &str) -> (r: String)
    ensures
        r@ == trimmed(s@),
{
    let v = characters(s);
    let n: usize = v.len();
    let mut from: usize = 0;
    while from < n && is_white(v[from])
        invariant
            from <= n == v@.len(),
            forall|i: int| 0 <= i < from ==> is_space(#[trigger] v@[i]),
        decreases n - from,
    {
        from = from + 1;
    }
    let mut to: usize = n;
    while to > from && is_white(v[to - 1])
        invariant
            from <= to <= n == v@.len(),
            forall|i: int| to <= i < n ==> is_space(#[trigger] v@[i]),
        decreases to,
    {
        to = to - 1;
    }
    proof {
        lemma_around(v@, |c: char| is_space(c), from as int, to as int);
    }
    part(&v, from, to)
}

/// The text without the characters `quote` around it.
pub fn strip(s: &str, quote: char) -> (r: String)
    ensures
        r@ == stripped(s@, quote),
{
    let v = characters(s);
    let n: usize = v.len();
    let mut from: usize = 0;
    while from < n && v[from] == quote
        invariant
            from <= n == v@.len(),
            forall|i: int| 0 <= i < from ==> (#[trigger] v@[i]) == quote,
        decreases n - from,
    {
        from = from + 1;
    }
    let mut to: usize = n;
    while to > from && v[to - 1] == quote
        invariant
            from <= to <= n == v@.len(),
            forall|i: int| to <= i < n ==> (#[trigger] v@[i]) == quote,
        decreases to,
    {
        to = to - 1;
    }
    proof {
        lemma_around(v@, just(quote), from as int, to as int);
    }
    part(&v, from, to)
}

/// The text with the letters A to Z as small letters.
pub fn to_ascii_lowercase(s: &str) -> (r: String)
    ensures
        r@ == lowered(s@),
{
    let v = characters(s);
    let mut out = String::new();
    for i in 0..v.len()
        invariant
            v@ == s@,
            out@ == lowered(s@.take(i as int)),
    {
        proof {
            assert(s@.take(i + 1) =~= s@.take(i as int).push(s@[i as int]));
            assert(lowered(s@.take(i + 1)) =~= lowered(s@.take(i as int)).push(lower(s@[i as int])));
        }
        out.push(to_lower(v[i]));
    }
    assert(s@.take(s@.len() as int) =~= s@);
    out
}

/// Whether two texts are the same.
pub fn same(a: &str, b: &str) -> (r: bool)
    ensures
        r == (a@ == b@),
{
    let (v, w) = (characters(a), characters(b));
    if v.len() != w.len() {
        return false;
    }
    for i in 0..v.len()
        invariant
            v@ == a@,
            w@ == b@,
            v@.len() == w@.len(),
            v@.take(i as int) == w@.take(i as int),
    {
        if v[i] != w[i] {
            return false;
        }
        assert(v@.take(i + 1) =~= v@.take(i as int).push(v@[i as int]));
        assert(w@.take(i + 1) =~= w@.take(i as int).push(w@[i as int]));
    }
    assert(v@.take(v@.len() as int) =~= v@);
    assert(w@.take(w@.len() as int) =~= w@);
    true
}

/// A number in decimal digits.
pub fn number(n: u128) -> (r: String)
    ensures
        r@ == decimal(n as nat),
    decreases n,
{
    if n < 10 {
        let mut out = String::new();
        out.push((48 + n as u8) as char);
        assert(out@ =~= seq![digit(n as nat)]);
        out
    } else {
        let mut out = number(n / 10);
        out.push((48 + (n % 10) as u8) as char);
        out
    }
}

/// The text filled up with spaces on the right to a width.
pub fn pad_right(s: &str, width: usize) -> (r: String)
    ensures
        r@ == left_aligned(s@, width as nat),
{
    let mut out = String::new();
    out.append(s);
    let n: usize = s.unicode_len();
    let mut i: usize = n;
    assert(s@ + spaces(0) =~= s@);
    while i < width
        invariant
            n == s@.len(),
            n <= i,
            i <= width || i == n,
            out@ == s@ + spaces((i - n) as nat),
        decreases width - i,
    {
        out.push(' ');
        i = i + 1;
        assert(s@ + spaces((i - n) as nat) =~= (s@ + spaces((i - 1 - n) as nat)).push(' '));
    }
    out
}

/// The text filled up with a character on the left to a width.
pub fn fill_left(s: &str, width: usize, fill: char) -> (r: String)
    ensures
        r@ == filled(s@, width as nat, fill),
{
    let mut out = String::new();
    let n: usize = s.unicode_len();
    let mut i: usize = n;
    assert(out@ =~= Seq::new(0, |k: int| fill));
    while i < width
        invariant
            n <= i,
            i <= width || i == n,
            out@ == Seq::new((i - n) as nat, |k: int| fill),
        decreases width - i,
    {
        out.push(fill);
        i = i + 1;
        assert(Seq::new((i - n) as nat, |k: int| fill) =~= Seq::new(
            (i - 1 - n) as nat,
            |k: int| fill,
        ).push(fill));
    }
    out.append(s);
    assert(out@ =~= filled(s@, width as nat, fill));
    out
}

/// The text filled up with spaces on the left to a width.
pub fn pad_left(s: &str, width: usize) -> (r: String)
    ensures
        r@ == right_aligned(s@, width as nat),
{
    fill_left(s, width, ' ')
}

/// The text with `with` in the place of each `pattern`, found from the left.
pub open spec fn replaced(s: Seq<char>, pattern: Seq<char>, with: Seq<char>) -> Seq<char>
    decreases s.len(),
    when pattern.len() > 0
{
    if s.len() < pattern.len() {
        s
    } else if s.take(pattern.len() as int) == pattern {
        with + replaced(s.skip(pattern.len() as int), pattern, with)
    } else {
        seq![s[0]] + replaced(s.skip(1), pattern, with)
    }
}

/// The text with `with` in the place of each `pattern`, found from the left.
pub fn replace(s: &str, pattern: &str, with: &str) -> (r: String)
    requires
        pattern@.len() > 0,
    ensures
        r@ == replaced(s@, pattern@, with@),
{
    let (v, p) = (characters(s), characters(pattern));
    let (n, m) = (v.len(), p.len());
    let mut out = String::new();
    let mut i: usize = 0;
    assert(v@.skip(0) =~= v@);
    while i <= n && n - i >= m
        invariant
            v@ == s@,
            p@ == pattern@,
            n == v@.len(),
            m == p@.len(),
            m > 0,
            i <= n,
            replaced(s@, pattern@, with@) == out@ + replaced(v@.skip(i as int), p@, with@),
        decreases n - i,
    {
        let mut k: usize = 0;
        let ghost rest = v@.skip(i as int);
        while k < m && v[i + k] == p[k]
            invariant
                k <= m,
                m == p@.len(),
                n == v@.len(),
                i + m <= n,
                rest == v@.skip(i as int),
                forall|j: int| 0 <= j < k ==> #[trigger] rest[j] == p@[j],
            decreases m - k,
        {
            assert(rest[k as int] == v@[i + k]);
            k = k + 1;
        }
        if k == m {
            proof {
                assert(rest.take(m as int) =~= p@);
                assert(rest.skip(m as int) =~= v@.skip(i + m));
                assert(out@ + (with@ + replaced(v@.skip(i + m), p@, with@)) =~= (out@ + with@)
                    + replaced(v@.skip(i + m), p@, with@));
            }
            out.append(with);
            i = i + m;
        } else {
            proof {
                assert(rest[k as int] == v@[i + k]);
                assert(rest.take(m as int)[k as int] != p@[k as int]);
                assert(rest.skip(1) =~= v@.skip(i + 1));
                assert(out@ + (seq![rest[0]] + replaced(v@.skip(i + 1), p@, with@)) =~= out@.push(
                    rest[0],
                ) + replaced(v@.skip(i + 1), p@, with@));
            }
            out.push(v[i]);
            i = i + 1;
        }
    }
    let tail = part(&v, i, n);
    assert(v@.subrange(i as int, n as int) =~= v@.skip(i as int));
    out.append(tail.as_str());
    out
}

/// The place of the first `c`, or the length of the text where there is none.
pub open spec fn first(s: Seq<char>, c: char) -> nat
    decreases s.len(),
{
    if s.len() == 0 || s[0] == c {
        0
    } else {
        1 + first(s.skip(1), c)
    }
}

proof fn lemma_first(s: Seq<char>, c: char, n: int)
    requires
        0 <= n <= s.len(),
        forall|i: int| 0 <= i < n ==> #[trigger] s[i] != c,
        n < s.len() ==> s[n] == c,
    ensures
        first(s, c) == n,
    decreases n,
{
    if n > 0 {
        assert(s[0] != c);
        assert forall|i: int| 0 <= i < n - 1 implies #[trigger] s.skip(1)[i] != c by {
            assert(s[i + 1] != c);
        }
        lemma_first(s.skip(1), c, n - 1);
    }
}

/// The place of the first `c` at or after `from`, or the length of the text where there
/// is none.
pub fn find(s: &Vec<char>, from: usize, c: char) -> (r: usize)
    requires
        from <= s@.len(),
    ensures
        from <= r <= s@.len(),
        r - from == first(s@.skip(from as int), c),
{
    let n: usize = s.len();
    let mut i: usize = from;
    let ghost rest = s@.skip(from as int);
    while i < n && s[i] != c
        invariant
            from <= i <= n == s@.len(),
            rest == s@.skip(from as int),
            forall|k: int| 0 <= k < i - from ==> #[trigger] rest[k] != c,
        decreases n - i,
    {
        assert(rest[i - from] == s@[i as int]);
        i = i + 1;
    }
    proof {
        if i < n {
            assert(rest[i - from] == s@[i as int]);
        }
        lemma_first(rest, c, i - from);
    }
    i
}

/// The number that decimal digits write.
pub open spec fn digits_value(s: Seq<char>) -> nat
    decreases s.len(),
{
    if s.len() == 0 {
        0
    } else {
        digits_value(s.drop_last()) * 10 + (s.last() as nat - 48) as nat
    }
}

pub open spec fn is_digit(c: char) -> bool {
    '0' <= c && c <= '9'
}

/// All characters are decimal digits.
pub open spec fn all_digits(s: Seq<char>) -> bool {
    forall|i: int| 0 <= i < s.len() ==> is_digit(#[trigger] s[i])
}

} // verus!
