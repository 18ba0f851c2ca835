//! Text utilities over `char` sequences: decimal rendering and parsing,
//! white-space trimming, ordering and case mapping.

use vstd::prelude::*;

verus! {

/// The character of a decimal digit `d` (`0 <= d < 10`).
pub open spec fn digit_char(d: int) -> char {
    (48 + d) as char
}

/// The decimal rendering of a natural number, without leading zeros.
pub open spec fn nat_text(n: nat) -> Seq<char>
    decreases n,
{
    if n < 10 {
        seq![digit_char(n as int)]
    } else {
        nat_text(n / 10).push(digit_char((n % 10) as int))
    }
}

/// The decimal rendering of an integer, with a leading `-` when negative.
pub open spec fn int_text(i: int) -> Seq<char> {
    if i < 0 {
        seq!['-'] + nat_text((-i) as nat)
    } else {
        nat_text(i as nat)
    }
}

/// Appends one character to a string (`String::push`).
#[verifier::external_body]
pub(crate) fn push_char(s: &mut String, c: char)
    ensures
        final(s)@ == old(s)@.push(c),
{
    s.push(c);
}

/// Appends the decimal rendering of `n` to `s`.
pub fn push_decimal(s: &mut String, n: u64)
    ensures
        final(s)@ == old(s)@ + nat_text(n as nat),
    decreases n,
{
    if n >= 10 {
        push_decimal(s, n / 10);
    }
    let d: u8 = (n % 10) as u8;
    let c: char = (48u8 + d) as char;
    push_char(s, c);
    proof {
        assert(c == digit_char((n % 10) as int));
    }
}


/// The decimal rendering of `n` as a new string.
pub fn usize_text(n: usize) -> (r: String)
    ensures
        r@ == nat_text(n as nat),
{
    let mut s = String::new();
    push_decimal(&mut s, n as u64);
    s
}

/// The decimal rendering of `i` as a new string, as `i64::to_string` gives it.
pub fn i64_text(i: i64) -> (r: String)
    ensures
        r@ == int_text(i as int),
{
    let mut s = String::new();
    if i < 0 {
        push_char(&mut s, '-');
        let m: u64 = if i == i64::MIN { 9223372036854775808u64 } else { (-i) as u64 };
        push_decimal(&mut s, m);
    } else {
        push_decimal(&mut s, i as u64);
    }
    s
}

/// The text of a boolean, as `bool::to_string` gives it.
pub open spec fn bool_text(b: bool) -> Seq<char> {
    if b { seq!['t', 'r', 'u', 'e'] } else { seq!['f', 'a', 'l', 's', 'e'] }
}

/// The text of a boolean as a new string.
pub fn bool_to_text(b: bool) -> (r: String)
    ensures
        r@ == bool_text(b),
{
    let mut s = String::new();
    if b {
        push_char(&mut s, 't');
        push_char(&mut s, 'r');
        push_char(&mut s, 'u');
        push_char(&mut s, 'e');
    } else {
        push_char(&mut s, 'f');
        push_char(&mut s, 'a');
        push_char(&mut s, 'l');
        push_char(&mut s, 's');
        push_char(&mut s, 'e');
    }
    s
}

/// Appends a string slice to `s`.
pub fn push_text(s: &mut String, t: &str)
    ensures
        final(s)@ == old(s)@ + t@,
{
    s.append(t);
}


/// The characters with the Unicode `White_Space` property, which
/// `char::is_whitespace` and `str::trim` go by.
pub open spec fn white_space(c: char) -> bool {
    ||| ('\u{9}' <= c && c <= '\u{d}')
    ||| c == ' '
    ||| c == '\u{85}'
    ||| c == '\u{a0}'
    ||| c == '\u{1680}'
    ||| ('\u{2000}' <= c && c <= '\u{200a}')
    ||| c == '\u{2028}'
    ||| c == '\u{2029}'
    ||| c == '\u{202f}'
    ||| c == '\u{205f}'
    ||| c == '\u{3000}'
}

/// Whether `c` is a white-space character.
pub fn is_white_space(c: char) -> (b: bool)
    ensures
        b == white_space(c),
{
    ('\u{9}' <= c && c <= '\u{d}') || c == ' ' || c == '\u{85}' || c == '\u{a0}' || c
        == '\u{1680}' || ('\u{2000}' <= c && c <= '\u{200a}') || c == '\u{2028}' || c
        == '\u{2029}' || c == '\u{202f}' || c == '\u{205f}' || c == '\u{3000}'
}

/// `s` without its leading white space.
pub open spec fn trim_start(s: Seq<char>) -> Seq<char>
    decreases s.len(),
{
    if s.len() > 0 && white_space(s[0]) {
        trim_start(s.drop_first())
    } else {
        s
    }
}

/// `s` without its trailing white space.
pub open spec fn trim_end(s: Seq<char>) -> Seq<char>
    decreases s.len(),
{
    if s.len() > 0 && white_space(s.last()) {
        trim_end(s.drop_last())
    } else {
        s
    }
}

/// `s` without leading and trailing white space, as `str::trim` gives it.
pub open spec fn trimmed(s: Seq<char>) -> Seq<char> {
    trim_end(trim_start(s))
}

proof fn lemma_trim_start_skip(s: Seq<char>, i: int)
    requires
        0 <= i <= s.len(),
        forall|k: int| 0 <= k < i ==> white_space(#[trigger] s[k]),
    ensures
        trim_start(s) == trim_start(s.subrange(i, s.len() as int)),
    decreases i,
{
    if i > 0 {
        assert(s.drop_first() =~= s.subrange(1, s.len() as int));
        lemma_trim_start_skip(s.drop_first(), i - 1);
        assert(s.drop_first().subrange(i - 1, s.drop_first().len() as int) =~= s.subrange(
            i,
            s.len() as int,
        ));
    } else {
        assert(s =~= s.subrange(0, s.len() as int));
    }
}

proof fn lemma_trim_end_skip(s: Seq<char>, j: int)
    requires
        0 <= j <= s.len(),
        forall|k: int| j <= k < s.len() ==> white_space(#[trigger] s[k]),
    ensures
        trim_end(s) == trim_end(s.subrange(0, j)),
    decreases s.len() - j,
{
    if j < s.len() {
        lemma_trim_end_skip(s.drop_last(), j);
        assert(s.drop_last().subrange(0, j) =~= s.subrange(0, j));
    } else {
        assert(s =~= s.subrange(0, j));
    }
}

/// `s` with leading and trailing white space removed (`str::trim`).
pub fn trim_text(s: &str) -> (r: String)
    ensures
        r@ == trimmed(s@),
{
    let n = s.unicode_len();
    let mut i: usize = 0;
    while i < n && is_white_space(s.get_char(i))
        invariant
            n == s@.len(),
            i <= n,
            forall|k: int| 0 <= k < i ==> white_space(#[trigger] s@[k]),
        decreases n - i,
    {
        i = i + 1;
    }
    proof {
        lemma_trim_start_skip(s@, i as int);
    }
    let ghost t = s@.subrange(i as int, n as int);
    assert(trim_start(t) == t);
    let mut j: usize = n;
    while j > i && is_white_space(s.get_char(j - 1))
        invariant
            n == s@.len(),
            i <= j <= n,
            forall|k: int| j <= k < n ==> white_space(#[trigger] s@[k]),
        decreases j,
    {
        j = j - 1;
    }
    proof {
        lemma_trim_end_skip(t, j - i);
        assert(t.subrange(0, j - i) =~= s@.subrange(i as int, j as int));
        let u = s@.subrange(i as int, j as int);
        if u.len() > 0 {
            assert(u.last() == s@[j - 1]);
        }
    }
    s.substring_char(i, j).to_owned()
}

/// Whether `c` is an ASCII decimal digit.
pub open spec fn is_digit(c: char) -> bool {
    '0' <= c && c <= '9'
}

/// The value of a string of decimal digits.
pub open spec fn digits_value(d: Seq<char>) -> nat
    decreases d.len(),
{
    if d.len() == 0 {
        0
    } else {
        digits_value(d.drop_last()) * 10 + ((d.last() as int) - 48) as nat
    }
}

/// The digits that `usize::from_str` reads: a single leading `+` is skipped
/// when something follows it.
pub open spec fn unsigned_digits(s: Seq<char>) -> Seq<char> {
    if s.len() > 1 && s[0] == '+' {
        s.drop_first()
    } else {
        s
    }
}

/// What `s.parse::<usize>()` gives: the value when `s` is an optional `+`
/// followed by at least one decimal digit and the value fits in `usize`.
pub open spec fn parse_usize_spec(s: Seq<char>) -> Option<usize> {
    let d = unsigned_digits(s);
    if d.len() > 0 && (forall|k: int| 0 <= k < d.len() ==> is_digit(#[trigger] d[k]))
        && digits_value(d) <= usize::MAX {
        Some(digits_value(d) as usize)
    } else {
        None
    }
}

proof fn lemma_digits_value_mono(d: Seq<char>, i: int)
    requires
        0 <= i <= d.len(),
        forall|k: int| 0 <= k < d.len() ==> is_digit(#[trigger] d[k]),
    ensures
        digits_value(d.subrange(0, i)) <= digits_value(d),
    decreases d.len() - i,
{
    if i < d.len() {
        lemma_digits_value_mono(d.drop_last(), i);
        assert(d.drop_last().subrange(0, i) =~= d.subrange(0, i));
    } else {
        assert(d.subrange(0, i) =~= d);
    }
}

/// Parses a decimal `usize` as `str::parse::<usize>` does; `None` on error.
pub fn parse_usize(s: &str) -> (r: Option<usize>)
    ensures
        r == parse_usize_spec(s@),
{
    let n = s.unicode_len();
    let start: usize = if n > 1 && s.get_char(0) == '+' { 1 } else { 0 };
    let ghost d = unsigned_digits(s@);
    assert(d =~= s@.subrange(start as int, n as int));
    if start >= n {
        return None;
    }
    let mut v: usize = 0;
    let mut i: usize = start;
    while i < n
        invariant
            n == s@.len(),
            start <= i <= n,
            d == unsigned_digits(s@),
            d =~= s@.subrange(start as int, n as int),
            forall|k: int| 0 <= k < i - start ==> is_digit(#[trigger] d[k]),
            v as nat == digits_value(d.subrange(0, i - start)),
        decreases n - i,
    {
        let c = s.get_char(i);
        if !('0' <= c && c <= '9') {
            assert(!is_digit(d[i - start]));
            assert(!(forall|k: int| 0 <= k < d.len() ==> is_digit(#[trigger] d[k])));
            return None;
        }
        let dv: usize = ((c as u32) - 48) as usize;
        proof {
            let p = d.subrange(0, i + 1 - start);
            assert(p.drop_last() =~= d.subrange(0, i - start));
            assert(p.last() == c);
        }
        if v > (usize::MAX - dv) / 10 {
            proof {
                assert(v * 10 + dv > usize::MAX) by (nonlinear_arith)
                    requires
                        v > (usize::MAX - dv) / 10,
                        dv <= 9,
                ;
                let p = d.subrange(0, i + 1 - start);
                assert(digits_value(p) == digits_value(p.drop_last()) * 10 + ((p.last() as int) - 48) as nat);
                assert(dv == (c as int) - 48);
                assert(digits_value(p) > usize::MAX);
                if forall|k: int| 0 <= k < d.len() ==> is_digit(#[trigger] d[k]) {
                    lemma_digits_value_mono(d, i + 1 - start);
                }
            }
            return None;
        }
        proof {
            assert(v * 10 + dv <= usize::MAX) by (nonlinear_arith)
                requires
                    v <= (usize::MAX - dv) / 10,
                    dv <= 9,
            ;
        }
        v = v * 10 + dv;
        i = i + 1;
    }
    assert(d.subrange(0, n - start) =~= d);
    Some(v)
}

/// `p` occurs in `s` at position `i`.
pub open spec fn occurs_at(s: Seq<char>, p: Seq<char>, i: int) -> bool {
    0 <= i && i + p.len() <= s.len() && s.subrange(i, i + p.len()) == p
}

/// `p` occurs somewhere in `s` (`str::contains`).
pub open spec fn has_substring(s: Seq<char>, p: Seq<char>) -> bool {
    exists|i: int| #[trigger] occurs_at(s, p, i)
}

/// Whether `p` occurs in `s`.
pub fn contains_text(s: &str, p: &str) -> (r: bool)
    ensures
        r == has_substring(s@, p@),
{
    let n = s.unicode_len();
    let m = p.unicode_len();
    if m > n {
        assert forall|i: int| !#[trigger] occurs_at(s@, p@, i) by {}
        return false;
    }
    let mut i: usize = 0;
    while i <= n - m
        invariant
            n == s@.len(),
            m == p@.len(),
            m <= n,
            i <= n - m + 1,
            forall|j: int| 0 <= j < i ==> !#[trigger] occurs_at(s@, p@, j),
        decreases n - m + 1 - i,
    {
        let mut k: usize = 0;
        while k < m && s.get_char(i + k) == p.get_char(k)
            invariant
                n == s@.len(),
                m == p@.len(),
                i + m <= n,
                k <= m,
                forall|q: int| 0 <= q < k ==> s@[i + q] == p@[q],
            decreases m - k,
        {
            k = k + 1;
        }
        if k == m {
            assert(s@.subrange(i as int, i + m) =~= p@);
            assert(occurs_at(s@, p@, i as int));
            return true;
        }
        assert(s@.subrange(i as int, i + m)[k as int] != p@[k as int]);
        i = i + 1;
    }
    assert forall|j: int| !#[trigger] occurs_at(s@, p@, j) by {
        if 0 <= j < i {
        }
    }
    false
}

/// The upper-case mapping of a string, as `str::to_uppercase` computes it
/// from the Unicode case tables.
pub uninterp spec fn upper_case(s: Seq<char>) -> Seq<char>;

/// Whether every character of `s` is ASCII.
pub open spec fn all_ascii(s: Seq<char>) -> bool {
    forall|i: int| 0 <= i < s.len() ==> (#[trigger] s[i] as u32) < 128
}

/// An ASCII character upper-cased: `a`..`z` become `A`..`Z`, others stay.
pub open spec fn ascii_upper_char(c: char) -> char {
    if 'a' <= c && c <= 'z' {
        ((c as u32) - 32) as char
    } else {
        c
    }
}

/// An ASCII text upper-cased character by character.
pub open spec fn ascii_upper(s: Seq<char>) -> Seq<char> {
    s.map_values(|c: char| ascii_upper_char(c))
}

/// `str::to_uppercase`: the full Unicode upper-case mapping of `s`, which can
/// change the number of characters (`'ß'` becomes `"SS"`). The contract names
/// the result, and states its content only for ASCII text, where the mapping
/// upper-cases `a`..`z` and keeps every other character; the Unicode case
/// tables beyond ASCII are not stated.
#[verifier::external_body]
pub(crate) fn to_upper(s: &str) -> (r: String)
    ensures
        r@ == upper_case(s@),
        all_ascii(s@) ==> r@ == ascii_upper(s@),
{
    s.to_uppercase()
}

/// Strict lexicographic order on character sequences (code point order,
/// which is the order `String`'s `Ord` gives through UTF-8 bytes).
pub open spec fn seq_lt(a: Seq<char>, b: Seq<char>) -> bool
    decreases a.len(),
{
    if a.len() == 0 {
        b.len() > 0
    } else if b.len() == 0 {
        false
    } else if a[0] != b[0] {
        a[0] < b[0]
    } else {
        seq_lt(a.drop_first(), b.drop_first())
    }
}

/// `seq_lt` is irreflexive.
pub proof fn lemma_seq_lt_irreflexive(a: Seq<char>)
    ensures
        !seq_lt(a, a),
    decreases a.len(),
{
    if a.len() > 0 {
        lemma_seq_lt_irreflexive(a.drop_first());
    }
}

/// `seq_lt` is transitive.
pub proof fn lemma_seq_lt_transitive(a: Seq<char>, b: Seq<char>, c: Seq<char>)
    requires
        seq_lt(a, b),
        seq_lt(b, c),
    ensures
        seq_lt(a, c),
    decreases a.len(),
{
    if a.len() > 0 && b.len() > 0 && c.len() > 0 && a[0] == b[0] && b[0] == c[0] {
        lemma_seq_lt_transitive(a.drop_first(), b.drop_first(), c.drop_first());
    }
}

/// `seq_lt` is total on distinct sequences.
pub proof fn lemma_seq_lt_total(a: Seq<char>, b: Seq<char>)
    ensures
        a == b || seq_lt(a, b) || seq_lt(b, a),
    decreases a.len(),
{
    if a.len() > 0 && b.len() > 0 && a[0] == b[0] {
        lemma_seq_lt_total(a.drop_first(), b.drop_first());
        if a.drop_first() == b.drop_first() {
            assert(a =~= seq![a[0]] + a.drop_first());
            assert(b =~= seq![b[0]] + b.drop_first());
        }
    } else if a.len() == 0 && b.len() == 0 {
        assert(a =~= b);
    }
}

/// `a < b` on strings.
pub fn text_lt(a: &str, b: &str) -> (r: bool)
    ensures
        r == seq_lt(a@, b@),
{
    let n = a.unicode_len();
    let m = b.unicode_len();
    let mut i: usize = 0;
    assert(a@.subrange(0, n as int) =~= a@);
    assert(b@.subrange(0, m as int) =~= b@);
    while i < n && i < m
        invariant
            n == a@.len(),
            m == b@.len(),
            i <= n,
            i <= m,
            seq_lt(a@, b@) == seq_lt(a@.subrange(i as int, n as int), b@.subrange(i as int, m as int)),
        decreases n - i,
    {
        let x = a.get_char(i);
        let y = b.get_char(i);
        let ghost sa = a@.subrange(i as int, n as int);
        let ghost sb = b@.subrange(i as int, m as int);
        assert(sa[0] == x && sb[0] == y);
        if x != y {
            return x < y;
        }
        assert(sa.drop_first() =~= a@.subrange(i + 1, n as int));
        assert(sb.drop_first() =~= b@.subrange(i + 1, m as int));
        i = i + 1;
    }
    i < m
}


proof fn lemma_digit_char(d: int)
    requires
        0 <= d < 10,
    ensures
        digit_char(d) as int == 48 + d,
        is_digit(digit_char(d)),
{
}

proof fn lemma_nat_text_digits(n: nat)
    ensures
        nat_text(n).len() > 0,
        forall|k: int| 0 <= k < nat_text(n).len() ==> is_digit(#[trigger] nat_text(n)[k]),
        digits_value(nat_text(n)) == n,
        nat_text(n)[0] == '0' <==> n == 0,
    decreases n,
{
    if n >= 10 {
        lemma_nat_text_digits(n / 10);
        let t = nat_text(n / 10);
        let u = t.push(digit_char((n % 10) as int));
        lemma_digit_char((n % 10) as int);
        assert(u[0] == t[0]);
        assert(u.drop_last() =~= t);
        assert(u.last() == digit_char((n % 10) as int));
        assert(digits_value(u) == digits_value(t) * 10 + (n % 10));
        assert forall|k: int| 0 <= k < u.len() implies is_digit(#[trigger] u[k]) by {
            if k < t.len() {
                assert(u[k] == t[k]);
            }
        }
    } else {
        let u = nat_text(n);
        lemma_digit_char(n as int);
        assert(u.drop_last().len() == 0);
        assert(u.last() == digit_char(n as int));
        assert(digits_value(u.drop_last()) == 0);
    }
}

/// The decimal text of a number is made of digits that read back as it.
pub proof fn lemma_nat_text_value(n: nat)
    ensures
        forall|k: int| 0 <= k < nat_text(n).len() ==> is_digit(#[trigger] nat_text(n)[k]),
        digits_value(nat_text(n)) == n,
        nat_text(n).len() > 0,
        nat_text(n)[0] == '0' <==> n == 0,
{
    lemma_nat_text_digits(n);
}

/// Reading back the decimal text of a number gives the number.
pub proof fn law_decimal_round_trip(n: usize)
    ensures
        parse_usize_spec(nat_text(n as nat)) == Some(n),
{
    lemma_nat_text_digits(n as nat);
    let t = nat_text(n as nat);
    assert(is_digit(t[0]));
    assert(unsigned_digits(t) == t);
}


/// Trimming drops exactly the white space at both ends: the result is the
/// part of `s` between a run of leading and a run of trailing white-space
/// characters, and it neither starts nor ends with white space.
pub proof fn law_trim_shape(s: Seq<char>)
    ensures
        exists|i: int, j: int| 0 <= i <= j <= s.len() && trimmed(s) == s.subrange(i, j)
            && (forall|k: int| 0 <= k < i ==> white_space(#[trigger] s[k]))
            && (forall|k: int| j <= k < s.len() ==> white_space(#[trigger] s[k])),
        trimmed(s).len() > 0 ==> !white_space(trimmed(s)[0]) && !white_space(trimmed(s).last()),
{
    let n = s.len();
    let i = choose_lead(s);
    lemma_trim_start_skip(s, i);
    let t = s.subrange(i, n as int);
    assert(trim_start(t) == t) by {
        if t.len() > 0 {
            assert(t[0] == s[i]);
        }
    }
    let j = choose_trail(t);
    lemma_trim_end_skip(t, j);
    assert(t.subrange(0, j) =~= s.subrange(i, i + j));
    assert forall|k: int| i + j <= k < s.len() implies white_space(#[trigger] s[k]) by {
        assert(s[k] == t[k - i]);
    }
    let u = s.subrange(i, i + j);
    assert(trimmed(s) == u);
    if u.len() > 0 {
        assert(u[0] == t[0]);
        assert(u.last() == t[j - 1]);
    }
}

proof fn choose_lead(s: Seq<char>) -> (i: int)
    ensures
        0 <= i <= s.len(),
        forall|k: int| 0 <= k < i ==> white_space(#[trigger] s[k]),
        i < s.len() ==> !white_space(s[i]),
    decreases s.len(),
{
    if s.len() > 0 && white_space(s[0]) {
        let t = s.drop_first();
        let i = choose_lead(t);
        assert forall|k: int| 0 <= k < i + 1 implies white_space(#[trigger] s[k]) by {
            if k > 0 {
                assert(s[k] == t[k - 1]);
            }
        }
        if i + 1 < s.len() {
            assert(s[i + 1] == t[i]);
        }
        i + 1
    } else {
        0
    }
}

proof fn choose_trail(s: Seq<char>) -> (j: int)
    ensures
        0 <= j <= s.len(),
        forall|k: int| j <= k < s.len() ==> white_space(#[trigger] s[k]),
        j > 0 ==> !white_space(s[j - 1]),
    decreases s.len(),
{
    if s.len() > 0 && white_space(s.last()) {
        let t = s.drop_last();
        let j = choose_trail(t);
        assert forall|k: int| j <= k < s.len() implies white_space(#[trigger] s[k]) by {
            if k < s.len() - 1 {
                assert(s[k] == t[k]);
            }
        }
        if j > 0 {
            assert(s[j - 1] == t[j - 1]);
        }
        j
    } else {
        s.len() as int
    }
}

/// Of the ASCII characters, exactly tab, line feed, vertical tab, form feed,
/// carriage return and the space are white space.
pub proof fn law_ascii_white_space(c: char)
    requires
        (c as u32) < 0x80,
    ensures
        white_space(c) <==> (c == '\t' || c == '\n' || c == '\u{b}' || c == '\u{c}' || c == '\r' || c == ' '),
{
}


/// The order of texts is lexicographic by code point: a proper prefix comes
/// first, and otherwise the text with the smaller character at the first
/// place where the two differ.
pub proof fn law_text_order(a: Seq<char>, b: Seq<char>, i: int)
    ensures
        a.len() < b.len() && b.subrange(0, a.len() as int) == a ==> seq_lt(a, b),
        0 <= i < a.len() && i < b.len() && a.subrange(0, i) == b.subrange(0, i) && a[i] < b[i] ==> seq_lt(a, b),
    decreases a.len(),
{
    if a.len() > 0 && b.len() > 0 {
        let a1 = a.drop_first();
        let b1 = b.drop_first();
        if a.len() < b.len() && b.subrange(0, a.len() as int) == a {
            assert(a[0] == b.subrange(0, a.len() as int)[0]);
            assert(b1.subrange(0, a1.len() as int) =~= b.subrange(0, a.len() as int).drop_first());
            law_text_order(a1, b1, 0);
        }
        if 0 <= i < a.len() && i < b.len() && a.subrange(0, i) == b.subrange(0, i) && a[i] < b[i] {
            if i > 0 {
                assert(a[0] == a.subrange(0, i)[0]);
                assert(b[0] == b.subrange(0, i)[0]);
                assert(a1.subrange(0, i - 1) =~= a.subrange(0, i).drop_first());
                assert(b1.subrange(0, i - 1) =~= b.subrange(0, i).drop_first());
                law_text_order(a1, b1, i - 1);
            }
        }
    }
}


/// Reading a number accepts its decimal text after an optional `+`, and
/// refuses an empty text, a lone `+`, and any text with another character
/// that is not a digit.
pub proof fn law_parse_usize_accepts(s: Seq<char>, n: usize, k: int)
    ensures
        parse_usize_spec(seq!['+'] + nat_text(n as nat)) == Some(n),
        parse_usize_spec(Seq::empty()) is None,
        parse_usize_spec(seq!['+']) is None,
        0 <= k < s.len() && !('0' <= s[k] && s[k] <= '9') && !(k == 0 && s[0] == '+' && s.len() > 1)
            ==> parse_usize_spec(s) is None,
{
    law_decimal_round_trip(n);
    lemma_nat_text_digits(n as nat);
    let t = nat_text(n as nat);
    let p = seq!['+'] + t;
    assert(p[0] == '+');
    assert(p.drop_first() =~= t);
    assert(unsigned_digits(p) == t);
    assert(!is_digit('+'));
    if 0 <= k < s.len() && !('0' <= s[k] && s[k] <= '9') && !(k == 0 && s[0] == '+' && s.len() > 1) {
        let d = unsigned_digits(s);
        if s.len() > 1 && s[0] == '+' {
            assert(k >= 1);
            assert(d[k - 1] == s[k]);
            assert(!is_digit(d[k - 1]));
        } else {
            assert(d[k] == s[k]);
        }
    }
}


/// A text contains `p` exactly when it can be written as some text, then
/// `p`, then some text.
pub proof fn law_substring(s: Seq<char>, p: Seq<char>, a: Seq<char>, b: Seq<char>)
    ensures
        has_substring(a + p + b, p),
        has_substring(s, p) <==> exists|i: int, j: int| 0 <= i <= j <= s.len() && #[trigger] s.subrange(i, j) == p,
        p.len() > s.len() ==> !has_substring(s, p),
{
    let t = a + p + b;
    assert(t.subrange(a.len() as int, (a.len() + p.len()) as int) =~= p);
    assert(occurs_at(t, p, a.len() as int));
    if has_substring(s, p) {
        let i = choose|i: int| #[trigger] occurs_at(s, p, i);
        assert(s.subrange(i, i + p.len()) == p);
    }
    if exists|i: int, j: int| 0 <= i <= j <= s.len() && #[trigger] s.subrange(i, j) == p {
        let (i, j) = choose|i: int, j: int| 0 <= i <= j <= s.len() && #[trigger] s.subrange(i, j) == p;
        assert(occurs_at(s, p, i));
    }
}

} // verus!
