use vstd::prelude::*;
use vstd::std_specs::iter::IteratorSpec;

verus! {

/// Appends one character to a string.
///
/// Trusted: calls `String::push`, which std documents as appending the
/// character to the end of the string.
#[verifier::external_body]
pub(crate) fn push_char(s: &mut String, c: char)
    ensures
        final(s)@ == old(s)@.push(c),
{
    s.push(c);
}

/// The characters of a string slice, in order.
pub fn chars_of(s: &str) -> (v: Vec<char>)
    ensures
        v@ == s@,
{
    let mut v: Vec<char> = Vec::new();
    for c in it: s.chars()
        invariant
            v@ == it.seq().take(it.index() as int),
    {
        v.push(c);
    }
    v
}

/// A string with the given characters.
pub fn string_from_chars(v: &Vec<char>) -> (s: String)
    ensures
        s@ == v@,
{
    let mut s = String::new();
    for i in 0..v.len()
        invariant
            s@ == v@.take(i as int),
    {
        push_char(&mut s, v[i]);
        assert(v@.take(i + 1) == v@.take(i as int).push(v@[i as int]));
    }
    assert(v@.take(v.len() as int) == v@);
    s
}

/// A string slice as an owned string.
pub fn string_from_str(t: &str) -> (s: String)
    ensures
        s@ == t@,
{
    let v = chars_of(t);
    string_from_chars(&v)
}

/// The ASCII digit for a value below ten.
pub open spec fn digit_char(d: nat) -> char {
    if d == 0 {
        '0'
    } else if d == 1 {
        '1'
    } else if d == 2 {
        '2'
    } else if d == 3 {
        '3'
    } else if d == 4 {
        '4'
    } else if d == 5 {
        '5'
    } else if d == 6 {
        '6'
    } else if d == 7 {
        '7'
    } else if d == 8 {
        '8'
    } else {
        '9'
    }
}

/// Whether a character is an ASCII decimal digit.
pub open spec fn is_digit(c: char) -> bool {
    '0' <= c <= '9'
}

/// The value of an ASCII decimal digit.
pub open spec fn digit_value(c: char) -> nat {
    (c as int - '0' as int) as nat
}

/// The shortest decimal numeral of a number, as `Display` writes an integer.
pub open spec fn decimal(n: nat) -> Seq<char>
    decreases n,
{
    if n < 10 {
        seq![digit_char(n)]
    } else {
        decimal(n / 10).push(digit_char(n % 10))
    }
}

/// The number that a sequence of decimal digits denotes (most significant first).
pub open spec fn digits_value(s: Seq<char>) -> nat
    decreases s.len(),
{
    if s.len() == 0 {
        0
    } else {
        digits_value(s.drop_last()) * 10 + digit_value(s.last())
    }
}

/// Whether every character of `s` is an ASCII digit.
pub open spec fn all_digits(s: Seq<char>) -> bool {
    forall|i: int| 0 <= i < s.len() ==> is_digit(#[trigger] s[i])
}

/// What `str::parse::<u32>` gives: an optional `+` followed by one or more
/// ASCII digits whose value fits in a `u32`; `None` for anything else.
pub open spec fn parse_u32_spec(s: Seq<char>) -> Option<u32> {
    let digits = if s.len() > 0 && s[0] == '+' {
        s.drop_first()
    } else {
        s
    };
    if digits.len() > 0 && all_digits(digits) && digits_value(digits) <= u32::MAX {
        Some(digits_value(digits) as u32)
    } else {
        None
    }
}

fn digit_to_char(d: u32) -> (c: char)
    requires
        d < 10,
    ensures
        c == digit_char(d as nat),
{
    if d == 0 {
        '0'
    } else if d == 1 {
        '1'
    } else if d == 2 {
        '2'
    } else if d == 3 {
        '3'
    } else if d == 4 {
        '4'
    } else if d == 5 {
        '5'
    } else if d == 6 {
        '6'
    } else if d == 7 {
        '7'
    } else if d == 8 {
        '8'
    } else {
        '9'
    }
}

/// The decimal digits of `n`, as a vector of characters.
pub fn decimal_chars(n: u32) -> (v: Vec<char>)
    ensures
        v@ == decimal(n as nat),
    decreases n,
{
    if n < 10 {
        let mut v = Vec::new();
        v.push(digit_to_char(n));
        v
    } else {
        let mut v = decimal_chars(n / 10);
        v.push(digit_to_char(n % 10));
        v
    }
}

/// `n` written in decimal, as `n.to_string()` writes it.
pub fn u32_to_decimal(n: u32) -> (s: String)
    ensures
        s@ == decimal(n as nat),
{
    let v = decimal_chars(n);
    string_from_chars(&v)
}

proof fn lemma_digits_value_push(s: Seq<char>, c: char)
    ensures
        digits_value(s.push(c)) == digits_value(s) * 10 + digit_value(c),
{
    assert(s.push(c).drop_last() == s);
}

/// Parses a decimal `u32` the way `str::parse::<u32>` does.
pub fn parse_u32(s: &[char]) -> (r: Option<u32>)
    ensures
        r == parse_u32_spec(s@),
{
    let n = s.len();
    let start: usize = if n > 0 && s[0] == '+' { 1 } else { 0 };
    let ghost digits = if s@.len() > 0 && s@[0] == '+' { s@.drop_first() } else { s@ };
    assert(digits == s@.subrange(start as int, n as int));
    if start == n {
        return None;
    }
    let mut acc: u32 = 0;
    let mut i = start;
    while i < n
        invariant
            start <= i <= n,
            n == s@.len(),
            digits == s@.subrange(start as int, n as int),
            digits == (if s@.len() > 0 && s@[0] == '+' { s@.drop_first() } else { s@ }),
            digits.len() > 0,
            all_digits(s@.subrange(start as int, i as int)),
            acc as nat == digits_value(s@.subrange(start as int, i as int)),
        decreases n - i,
    {
        let c = s[i];
        if !('0' <= c && c <= '9') {
            assert(!is_digit(digits[i - start]));
            assert(!all_digits(digits));
            return None;
        }
        let d = (c as u32) - ('0' as u32);
        proof {
            assert(s@.subrange(start as int, i + 1) == s@.subrange(start as int, i as int).push(c));
            lemma_digits_value_push(s@.subrange(start as int, i as int), c);
        }
        if acc > 429496729 || (acc == 429496729 && d > 5) {
            proof {
                assert(digits.take(i + 1 - start) == s@.subrange(start as int, i + 1));
                lemma_digits_overflow_stays(digits, (i + 1 - start) as int);
            }
            return None;
        }
        acc = acc * 10 + d;
        i = i + 1;
    }
    assert(s@.subrange(start as int, n as int) == digits);
    Some(acc)
}

/// Once a prefix of a digit string is above `u32::MAX`, the whole string is too
/// (or it holds a non-digit).
proof fn lemma_digits_overflow_stays(s: Seq<char>, k: int)
    requires
        0 <= k <= s.len(),
        digits_value(s.take(k)) > u32::MAX,
    ensures
        !(all_digits(s) && digits_value(s) <= u32::MAX),
    decreases s.len() - k,
{
    if k < s.len() {
        if all_digits(s) {
            assert(s.take(k + 1) == s.take(k).push(s[k]));
            lemma_digits_value_push(s.take(k), s[k]);
            lemma_digits_overflow_stays(s, k + 1);
        }
    } else {
        assert(s.take(k) == s);
    }
}

/// How many times `c` occurs in `s`.
pub open spec fn count_char(s: Seq<char>, c: char) -> nat
    decreases s.len(),
{
    if s.len() == 0 {
        0
    } else {
        count_char(s.drop_last(), c) + if s.last() == c {
            1nat
        } else {
            0nat
        }
    }
}

/// The position of the first `c` in `s`, or -1 where there is none.
pub open spec fn first_index(s: Seq<char>, c: char) -> int
    decreases s.len(),
{
    if s.len() == 0 {
        -1
    } else {
        let r = first_index(s.drop_last(), c);
        if r >= 0 {
            r
        } else if s.last() == c {
            s.len() - 1
        } else {
            -1
        }
    }
}

/// Where `c` first occurs, it is at that position, and not before.
pub proof fn lemma_first_index(s: Seq<char>, c: char)
    ensures
        -1 <= first_index(s, c) < s.len(),
        first_index(s, c) >= 0 ==> s[first_index(s, c)] == c,
        forall|j: int| 0 <= j < s.len() && (first_index(s, c) < 0 || j < first_index(s, c))
            ==> s[j] != c,
        first_index(s, c) < 0 <==> count_char(s, c) == 0,
    decreases s.len(),
{
    if s.len() > 0 {
        lemma_first_index(s.drop_last(), c);
        assert forall|j: int| 0 <= j < s.len() - 1 implies s.drop_last()[j] == s[j] by {}
    }
}

/// A string with one `c` splits there into two parts without `c`.
pub proof fn lemma_single_occurrence(s: Seq<char>, c: char)
    requires
        count_char(s, c) == 1,
    ensures
        0 <= first_index(s, c) < s.len(),
        count_char(s.take(first_index(s, c)), c) == 0,
        count_char(s.skip(first_index(s, c) + 1), c) == 0,
{
    lemma_first_index(s, c);
    let i = first_index(s, c);
    lemma_count_split(s, c, i);
    lemma_count_split(s.skip(i), c, 1);
    assert(s.skip(i).skip(1) == s.skip(i + 1));
    assert(s.skip(i).take(1) == seq![c]);
    assert(seq![c].drop_last() == Seq::<char>::empty());
    lemma_count_zero(s.take(i), c);
}

/// A sequence without `c` counts no `c`.
pub proof fn lemma_count_zero(s: Seq<char>, c: char)
    requires
        forall|j: int| 0 <= j < s.len() ==> s[j] != c,
    ensures
        count_char(s, c) == 0,
    decreases s.len(),
{
    if s.len() > 0 {
        lemma_count_zero(s.drop_last(), c);
    }
}

/// Counting over a split string adds up.
pub proof fn lemma_count_split(s: Seq<char>, c: char, i: int)
    requires
        0 <= i <= s.len(),
    ensures
        count_char(s, c) == count_char(s.take(i), c) + count_char(s.skip(i), c),
    decreases s.len() - i,
{
    if i == s.len() {
        assert(s.take(i) == s);
        assert(s.skip(i).len() == 0);
    } else {
        lemma_count_split(s, c, i + 1);
        assert(s.take(i + 1).drop_last() == s.take(i));
        lemma_count_front(s.skip(i), c);
        assert(s.skip(i).drop_first() == s.skip(i + 1));
    }
}

proof fn lemma_count_front(s: Seq<char>, c: char)
    requires
        s.len() > 0,
    ensures
        count_char(s, c) == count_char(s.drop_first(), c) + if s[0] == c {
            1nat
        } else {
            0nat
        },
    decreases s.len(),
{
    if s.len() > 1 {
        lemma_count_front(s.drop_last(), c);
        assert(s.drop_last().drop_first() == s.drop_first().drop_last());
        assert(s.drop_last()[0] == s[0]);
        assert(s.drop_first().last() == s.last());
    } else {
        assert(s.drop_last().len() == 0);
        assert(s.drop_first().len() == 0);
        assert(s.last() == s[0]);
        assert(count_char(s.drop_last(), c) == 0);
        assert(count_char(s.drop_first(), c) == 0);
    }
}

/// How often `c` occurs in `v`, and where it first does.
pub fn scan_char(v: &Vec<char>, c: char) -> (r: (usize, Option<usize>))
    ensures
        r.0 == count_char(v@, c),
        r.1 matches Some(i) ==> i == first_index(v@, c),
        r.1 is None <==> first_index(v@, c) < 0,
{
    let mut count: usize = 0;
    let mut first: Option<usize> = None;
    for i in 0..v.len()
        invariant
            count == count_char(v@.take(i as int), c),
            count <= i,
            first matches Some(f) ==> f == first_index(v@.take(i as int), c),
            first is None <==> first_index(v@.take(i as int), c) < 0,
    {
        assert(v@.take(i + 1).drop_last() == v@.take(i as int));
        if v[i] == c {
            count = count + 1;
            if first.is_none() {
                first = Some(i);
            }
        }
    }
    assert(v@.take(v.len() as int) == v@);
    (count, first)
}

/// The characters of `v` from `from` up to `to`.
pub fn sub_chars(v: &Vec<char>, from: usize, to: usize) -> (r: Vec<char>)
    requires
        from <= to <= v.len(),
    ensures
        r@ == v@.subrange(from as int, to as int),
{
    let mut r: Vec<char> = Vec::new();
    for i in from..to
        invariant
            from <= to <= v.len(),
            r@ == v@.subrange(from as int, i as int),
    {
        r.push(v[i]);
        assert(v@.subrange(from as int, i + 1) == v@.subrange(from as int, i as int).push(v@[i as int]));
    }
    r
}

/// Whether a character has the Unicode `White_Space` property, which is
/// what `char::is_whitespace` tests.
pub open spec fn is_whitespace(c: char) -> bool {
    ('\t' <= c <= '\r') || c == ' ' || c == '\u{85}' || c == '\u{a0}' || c == '\u{1680}' || (
    '\u{2000}' <= c <= '\u{200a}') || c == '\u{2028}' || c == '\u{2029}' || c == '\u{202f}' || c
        == '\u{205f}' || c == '\u{3000}'
}

/// `is_whitespace`, computed.
pub fn char_is_whitespace(c: char) -> (b: bool)
    ensures
        b == is_whitespace(c),
{
    ('\t' <= c && c <= '\r') || c == ' ' || c == '\u{85}' || c == '\u{a0}' || c == '\u{1680}' || (
    '\u{2000}' <= c && c <= '\u{200a}') || c == '\u{2028}' || c == '\u{2029}' || c == '\u{202f}'
        || c == '\u{205f}' || c == '\u{3000}'
}

/// The character sequences held by a vector of character vectors.
pub open spec fn char_vec_views(v: Seq<Vec<char>>) -> Seq<Seq<char>> {
    v.map_values(|x: Vec<char>| x@)
}

/// The pieces of `s` between newlines (the last piece may be empty).
pub open spec fn split_lines(s: Seq<char>) -> Seq<Seq<char>>
    decreases s.len(),
{
    if s.len() == 0 {
        seq![Seq::empty()]
    } else {
        let r = split_lines(s.drop_last());
        if s.last() == '\n' {
            r.push(Seq::empty())
        } else {
            r.update(r.len() - 1, r.last().push(s.last()))
        }
    }
}

/// The maximal runs of non-whitespace characters of `s`, in order, as
/// `str::split_whitespace` gives them.
pub open spec fn words(s: Seq<char>) -> Seq<Seq<char>>
    decreases s.len(),
{
    if s.len() == 0 {
        Seq::empty()
    } else {
        let r = words(s.drop_last());
        let c = s.last();
        if is_whitespace(c) {
            r
        } else if s.len() >= 2 && !is_whitespace(s[s.len() - 2]) {
            r.update(r.len() - 1, r.last().push(c))
        } else {
            r.push(seq![c])
        }
    }
}

proof fn lemma_words_nonempty(s: Seq<char>)
    requires
        s.len() > 0,
        !is_whitespace(s.last()),
    ensures
        words(s).len() >= 1,
    decreases s.len(),
{
    if s.len() >= 2 && !is_whitespace(s[s.len() - 2]) {
        assert(s.drop_last().last() == s[s.len() - 2]);
        lemma_words_nonempty(s.drop_last());
    }
}

/// The pieces of `v` between newlines.
pub fn split_lines_of(v: &Vec<char>) -> (lines: Vec<Vec<char>>)
    ensures
        char_vec_views(lines@) == split_lines(v@),
{
    let mut lines: Vec<Vec<char>> = Vec::new();
    lines.push(Vec::new());
    assert(char_vec_views(lines@) =~= split_lines(v@.take(0)));
    for i in 0..v.len()
        invariant
            char_vec_views(lines@) == split_lines(v@.take(i as int)),
            lines.len() >= 1,
    {
        let c = v[i];
        assert(v@.take(i + 1).drop_last() == v@.take(i as int));
        let ghost before = lines@;
        if c == '\n' {
            lines.push(Vec::new());
            assert(char_vec_views(lines@) =~= char_vec_views(before).push(Seq::empty()));
        } else {
            let last = lines.len() - 1;
            lines[last].push(c);
            assert(char_vec_views(lines@) =~= char_vec_views(before).update(
                last as int,
                char_vec_views(before)[last as int].push(c),
            ));
        }
    }
    assert(v@.take(v.len() as int) == v@);
    lines
}

/// The words of `v`, as `split_whitespace` gives them.
pub fn words_of(v: &Vec<char>) -> (ws: Vec<Vec<char>>)
    ensures
        char_vec_views(ws@) == words(v@),
{
    let mut ws: Vec<Vec<char>> = Vec::new();
    assert(char_vec_views(ws@) =~= words(v@.take(0)));
    for i in 0..v.len()
        invariant
            char_vec_views(ws@) == words(v@.take(i as int)),
    {
        let c = v[i];
        let ghost t = v@.take(i + 1);
        assert(t.drop_last() == v@.take(i as int));
        assert(t.last() == c);
        let ghost before = ws@;
        if char_is_whitespace(c) {
        } else if i >= 1 && !char_is_whitespace(v[i - 1]) {
            assert(t[t.len() - 2] == v@[i - 1]);
            proof {
                assert(v@.take(i as int).last() == v@[i - 1]);
                lemma_words_nonempty(v@.take(i as int));
            }
            let last = ws.len() - 1;
            ws[last].push(c);
            assert(char_vec_views(ws@) =~= char_vec_views(before).update(
                last as int,
                char_vec_views(before)[last as int].push(c),
            ));
        } else {
            let mut w: Vec<char> = Vec::new();
            w.push(c);
            ws.push(w);
            assert(char_vec_views(ws@) =~= char_vec_views(before).push(seq![c]));
        }
    }
    assert(v@.take(v.len() as int) == v@);
    ws
}

/// Whether `s` begins with `prefix`.
pub open spec fn starts_with(s: Seq<char>, prefix: Seq<char>) -> bool {
    prefix.len() <= s.len() && s.take(prefix.len() as int) == prefix
}

/// `starts_with`, computed.
pub fn chars_start_with(s: &Vec<char>, prefix: &Vec<char>) -> (b: bool)
    ensures
        b == starts_with(s@, prefix@),
{
    if prefix.len() > s.len() {
        return false;
    }
    for i in 0..prefix.len()
        invariant
            prefix.len() <= s.len(),
            forall|j: int| 0 <= j < i ==> s@[j] == prefix@[j],
    {
        if s[i] != prefix[i] {
            assert(s@.take(prefix.len() as int)[i as int] != prefix@[i as int]);
            return false;
        }
    }
    assert(s@.take(prefix.len() as int) =~= prefix@);
    true
}

/// Counting over a concatenation adds up.
pub proof fn lemma_count_concat(a: Seq<char>, b: Seq<char>, c: char)
    ensures
        count_char(a + b, c) == count_char(a, c) + count_char(b, c),
{
    lemma_count_split(a + b, c, a.len() as int);
    assert((a + b).take(a.len() as int) == a);
    assert((a + b).skip(a.len() as int) == b);
}

/// Where `c` occurs at `k` and nowhere before, `k` is its first position.
pub proof fn lemma_first_index_at(s: Seq<char>, c: char, k: int)
    requires
        0 <= k < s.len(),
        s[k] == c,
        forall|j: int| 0 <= j < k ==> s[j] != c,
    ensures
        first_index(s, c) == k,
{
    lemma_first_index(s, c);
}

proof fn lemma_digit_char(d: nat)
    requires
        d < 10,
    ensures
        is_digit(digit_char(d)),
        digit_value(digit_char(d)) == d,
{
}

/// A decimal numeral is made of digits, and denotes its number.
pub proof fn lemma_decimal_digits(n: nat)
    ensures
        decimal(n).len() >= 1,
        all_digits(decimal(n)),
        digits_value(decimal(n)) == n,
    decreases n,
{
    if n < 10 {
        lemma_digit_char(n);
        assert(seq![digit_char(n)].drop_last() == Seq::<char>::empty());
        assert(digits_value(Seq::<char>::empty()) == 0);
    } else {
        lemma_decimal_digits(n / 10);
        lemma_digit_char(n % 10);
        assert(decimal(n) == decimal(n / 10).push(digit_char(n % 10)));
        lemma_digits_value_push(decimal(n / 10), digit_char(n % 10));
        assert((n / 10) * 10 + n % 10 == n) by (nonlinear_arith);
        assert forall|i: int| 0 <= i < decimal(n).len() implies is_digit(#[trigger] decimal(n)[i]) by {
            if i < decimal(n / 10).len() {
                assert(decimal(n)[i] == decimal(n / 10)[i]);
            }
        }
    }
}

/// A decimal numeral holds no character but digits.
pub proof fn lemma_decimal_count(n: nat, c: char)
    requires
        !is_digit(c),
    ensures
        count_char(decimal(n), c) == 0,
{
    lemma_decimal_digits(n);
    lemma_count_zero(decimal(n), c);
}

/// What `u32_to_decimal` writes, `parse_u32` reads back.
pub proof fn law_decimal_parses_back(n: u32)
    ensures
        parse_u32_spec(decimal(n as nat)) == Some(n),
{
    lemma_decimal_digits(n as nat);
    assert(is_digit(decimal(n as nat)[0]));
}

} // verus!
