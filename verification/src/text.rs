//! Text: decimal numbers, trimming and splitting.
use vstd::prelude::*;
use vstd::string::*;

verus! {

/// The character of a decimal digit.
pub open spec fn digit_char(d: nat) -> char {
    (('0' as nat) + d) as char
}

/// The decimal digits of a number, without leading zeros.
pub open spec fn decimal(n: nat) -> Seq<char>
    decreases n,
{
    if n < 10 {
        seq![digit_char(n)]
    } else {
        decimal(n / 10).push(digit_char(n % 10))
    }
}

fn digit_str(d: u64) -> (s: &'static str)
    requires
        d < 10,
    ensures
        s@ == seq![digit_char(d as nat)],
{
    proof {
        reveal_strlit("0");
        reveal_strlit("1");
        reveal_strlit("2");
        reveal_strlit("3");
        reveal_strlit("4");
        reveal_strlit("5");
        reveal_strlit("6");
        reveal_strlit("7");
        reveal_strlit("8");
        reveal_strlit("9");
    }
    let s = if d == 0 {
        "0"
    } else if d == 1 {
        "1"
    } else if d == 2 {
        "2"
    } else if d == 3 {
        "3"
    } else if d == 4 {
        "4"
    } else if d == 5 {
        "5"
    } else if d == 6 {
        "6"
    } else if d == 7 {
        "7"
    } else if d == 8 {
        "8"
    } else {
        "9"
    };
    assert(s@ =~= seq![digit_char(d as nat)]);
    s
}

/// Appends a number in decimal.
pub fn push_decimal(out: &mut String, n: u64)
    ensures
        final(out)@ == old(out)@ + decimal(n as nat),
    decreases n,
{
    if n < 10 {
        out.append(digit_str(n));
    } else {
        let ghost before = out@;
        push_decimal(out, n / 10);
        out.append(digit_str(n % 10));
        assert(out@ =~= before + decimal(n as nat));
    }
}

/// A number in decimal.
pub fn decimal_string(n: u64) -> (s: String)
    ensures
        s@ == decimal(n as nat),
{
    let mut s = String::new();
    push_decimal(&mut s, n);
    assert(s@ =~= decimal(n as nat));
    s
}

/// Whether a character is a decimal digit.
pub open spec fn is_digit(c: char) -> bool {
    '0' as nat <= c as nat <= '9' as nat
}

/// Whether every character is a decimal digit.
pub open spec fn all_digits(s: Seq<char>) -> bool {
    forall|i: int| 0 <= i < s.len() ==> is_digit(#[trigger] s[i])
}

/// The number that a sequence of digits denotes.
pub open spec fn digits_value(s: Seq<char>) -> nat
    decreases s.len(),
{
    if s.len() == 0 {
        0
    } else {
        digits_value(s.drop_last()) * 10 + (s.last() as nat - '0' as nat) as nat
    }
}

/// The digits of an unsigned number: what follows an optional leading `+`.
pub open spec fn number_digits(s: Seq<char>) -> Seq<char> {
    if s.len() > 0 && s[0] == '+' {
        s.skip(1)
    } else {
        s
    }
}

/// What an unsigned number with an optional leading `+` denotes, provided that it is at most
/// `max`; `None` for anything else.
pub open spec fn unsigned_value(s: Seq<char>, max: nat) -> Option<nat> {
    let digits = number_digits(s);
    if digits.len() > 0 && all_digits(digits) && digits_value(digits) <= max {
        Some(digits_value(digits))
    } else {
        None
    }
}

proof fn lemma_digits_value_grows(s: Seq<char>, n: int)
    requires
        all_digits(s),
        0 <= n <= s.len(),
    ensures
        digits_value(s.take(n)) <= digits_value(s),
    decreases s.len() - n,
{
    if n < s.len() {
        lemma_digits_value_grows(s, n + 1);
        assert(s.take(n + 1).drop_last() =~= s.take(n));
        assert(is_digit(s[n]));
    } else {
        assert(s.take(n) =~= s);
    }
}

/// Reads an unsigned number of at most `max`.
pub fn parse_unsigned(s: &str, max: u64) -> (r: Option<u64>)
    ensures
        match r {
            Some(n) => unsigned_value(s@, max as nat) == Some(n as nat),
            None => unsigned_value(s@, max as nat) is None,
        },
{
    let len: usize = s.unicode_len();
    let first: usize = if len > 0 && s.get_char(0) == '+' {
        1
    } else {
        0
    };
    let ghost digits = number_digits(s@);
    assert(digits =~= s@.skip(first as int));
    if len == first {
        return None;
    }
    let mut value: u64 = 0;
    let mut i: usize = first;
    assert(digits.take(0) =~= Seq::<char>::empty());
    while i < len
        invariant
            first <= i <= len,
            len == s@.len(),
            digits == s@.skip(first as int),
            digits == number_digits(s@),
            value <= max,
            value == digits_value(digits.take(i - first)),
            forall|k: int| 0 <= k < i - first ==> is_digit(#[trigger] digits[k]),
        decreases len - i,
    {
        let c: char = s.get_char(i);
        let k: Ghost<int> = Ghost(i - first);
        assert(digits[k@] == c);
        let code: u32 = c as u32;
        if code < 48 || code > 57 {
            assert(!is_digit(digits[k@]));
            return None;
        }
        let d: u64 = (code - 48) as u64;
        proof {
            assert(digits.take(k@ + 1).drop_last() =~= digits.take(k@));
            assert(digits_value(digits.take(k@ + 1)) == value * 10 + d);
            if all_digits(digits) {
                lemma_digits_value_grows(digits, k@ + 1);
            }
        }
        if value > max / 10 || value * 10 > max - d.min(max) || d > max {
            return None;
        }
        value = value * 10 + d;
        i = i + 1;
    }
    assert(digits.take(digits.len() as int) =~= digits);
    Some(value)
}

proof fn lemma_decimal_digits(n: nat)
    ensures
        decimal(n).len() > 0,
        all_digits(decimal(n)),
        digits_value(decimal(n)) == n,
    decreases n,
{
    if n < 10 {
        assert(decimal(n).drop_last() =~= Seq::<char>::empty());
        assert(digits_value(Seq::<char>::empty()) == 0);
        assert(decimal(n).last() as nat == '0' as nat + n);
    } else {
        lemma_decimal_digits(n / 10);
        assert(decimal(n).last() as nat == '0' as nat + n % 10);
        assert(decimal(n).drop_last() =~= decimal(n / 10));
    }
}

/// Reading a number back from its decimal digits gives the number.
pub proof fn lemma_decimal_round_trip(n: nat, max: nat)
    requires
        n <= max,
    ensures
        unsigned_value(decimal(n), max) == Some(n),
{
    lemma_decimal_digits(n);
    assert(is_digit(decimal(n)[0]));
}

/// Two numbers with the same decimal digits are the same number.
pub proof fn lemma_decimal_injective(a: nat, b: nat)
    requires
        decimal(a) == decimal(b),
    ensures
        a == b,
{
    lemma_decimal_digits(a);
    lemma_decimal_digits(b);
}

/// The characters with the Unicode property `White_Space`.
pub open spec fn white_space(c: char) -> bool {
    let n = c as nat;
    0x9 <= n <= 0xd || n == 0x20 || n == 0x85 || n == 0xa0 || n == 0x1680 || 0x2000 <= n <= 0x200a
        || n == 0x2028 || n == 0x2029 || n == 0x202f || n == 0x205f || n == 0x3000
}

fn is_white_space(c: char) -> (r: bool)
    ensures
        r == white_space(c),
{
    let n: u32 = c as u32;
    (0x9 <= n && n <= 0xd) || n == 0x20 || n == 0x85 || n == 0xa0 || n == 0x1680 || (0x2000 <= n
        && n <= 0x200a) || n == 0x2028 || n == 0x2029 || n == 0x202f || n == 0x205f || n == 0x3000
}

/// `t` is `s` without the white space at its two ends.
pub open spec fn is_trimmed(s: Seq<char>, t: Seq<char>) -> bool {
    exists|a: int, b: int| #[trigger] trims_at(s, t, a, b)
}

/// The white space of `s` is stripped before `a` and from `b` on, which leaves `t`.
pub open spec fn trims_at(s: Seq<char>, t: Seq<char>, a: int, b: int) -> bool {
    &&& 0 <= a <= b <= s.len()
    &&& t == s.subrange(a, b)
    &&& forall|i: int| 0 <= i < a || b <= i < s.len() ==> white_space(#[trigger] s[i])
    &&& t.len() > 0 ==> !white_space(t[0]) && !white_space(t.last())
}

/// There is only one way to trim a text.
pub proof fn lemma_trim_unique(s: Seq<char>, t: Seq<char>, u: Seq<char>)
    requires
        is_trimmed(s, t),
        is_trimmed(s, u),
    ensures
        t == u,
{
    let (a, b) = choose|a: int, b: int| #[trigger] trims_at(s, t, a, b);
    let (c, d) = choose|c: int, d: int| #[trigger] trims_at(s, u, c, d);
    if t.len() > 0 {
        assert(t[0] == s[a] && t.last() == s[b - 1]);
        assert(!white_space(s[a]));
        assert(c <= a && b <= d);
    }
    if u.len() > 0 {
        assert(u[0] == s[c] && u.last() == s[d - 1]);
        assert(!white_space(s[c]));
        assert(a <= c && d <= b);
    }
    assert(t =~= u);
}

/// A text without the white space at its two ends.
pub open spec fn trimmed(s: Seq<char>) -> Seq<char> {
    choose|t: Seq<char>| is_trimmed(s, t)
}

/// Strips the white space at both ends.
pub fn trim(s: &str) -> (t: &str)
    ensures
        t@ == trimmed(s@),
        is_trimmed(s@, t@),
{
    let len: usize = s.unicode_len();
    let mut a: usize = 0;
    while a < len && is_white_space(s.get_char(a))
        invariant
            a <= len,
            len == s@.len(),
            forall|i: int| 0 <= i < a ==> white_space(#[trigger] s@[i]),
        decreases len - a,
    {
        a = a + 1;
    }
    let mut b: usize = len;
    while b > a && is_white_space(s.get_char(b - 1))
        invariant
            a <= b <= len,
            len == s@.len(),
            forall|i: int| b <= i < len ==> white_space(#[trigger] s@[i]),
        decreases b,
    {
        b = b - 1;
    }
    let t = s.substring_char(a, b);
    proof {
        assert(trims_at(s@, t@, a as int, b as int));
        lemma_trim_unique(s@, t@, trimmed(s@));
    }
    t
}

/// The first position of a character at or after `from`; the length if there is none.
pub open spec fn position_from(s: Seq<char>, c: char, from: int) -> int
    decreases s.len() - from,
{
    if from >= s.len() {
        s.len() as int
    } else if s[from] == c {
        from
    } else {
        position_from(s, c, from + 1)
    }
}

/// The first position of a character; the length if it does not occur.
pub fn position(s: &str, c: char) -> (r: usize)
    ensures
        r == position_from(s@, c, 0),
        r <= s@.len(),
{
    let len: usize = s.unicode_len();
    let mut i: usize = 0;
    while i < len
        invariant
            i <= len,
            len == s@.len(),
            position_from(s@, c, 0) == position_from(s@, c, i as int),
        decreases len - i,
    {
        if s.get_char(i) == c {
            return i;
        }
        i = i + 1;
    }
    i
}

proof fn lemma_position(s: Seq<char>, c: char, from: int)
    requires
        0 <= from <= s.len(),
    ensures
        from <= position_from(s, c, from) <= s.len(),
        forall|i: int| from <= i < position_from(s, c, from) ==> #[trigger] s[i] != c,
        position_from(s, c, from) < s.len() ==> s[position_from(s, c, from)] == c,
    decreases s.len() - from,
{
    if from < s.len() && s[from] != c {
        lemma_position(s, c, from + 1);
    }
}

/// The position of a character that occurs behind `n` others that differ from it.
pub proof fn lemma_position_is(s: Seq<char>, c: char, n: int)
    requires
        0 <= n <= s.len(),
        forall|i: int| 0 <= i < n ==> #[trigger] s[i] != c,
        n < s.len() ==> s[n] == c,
    ensures
        position_from(s, c, 0) == n,
{
    lemma_position(s, c, 0);
    let p = position_from(s, c, 0);
    if p < n {
        assert(s[p] != c);
    }
    if n < p {
        assert(s[n] != c);
    }
}

/// A character that differs from the first `n` ones, and from the one behind them, occurs after
/// that, if at all.
pub proof fn lemma_no_position_before(s: Seq<char>, c: char, n: int)
    requires
        0 <= n < s.len(),
        forall|i: int| 0 <= i <= n ==> #[trigger] s[i] != c,
    ensures
        n < position_from(s, c, 0),
{
    lemma_position(s, c, 0);
    let p = position_from(s, c, 0);
    if p <= n {
        assert(s[p] != c);
    }
}

/// The fields between the occurrences of a separator.
pub open spec fn fields(s: Seq<char>, c: char) -> Seq<Seq<char>>
    decreases s.len(),
{
    let i = position_from(s, c, 0);
    if 0 <= i < s.len() {
        seq![s.take(i)] + fields(s.skip(i + 1), c)
    } else {
        seq![s]
    }
}

/// The texts of a list.
pub open spec fn texts(list: Seq<&str>) -> Seq<Seq<char>> {
    list.map_values(|t: &str| t@)
}

/// Splits a text at every occurrence of a separator.
pub fn split(s: &str, c: char) -> (r: Vec<&str>)
    ensures
        texts(r@) == fields(s@, c),
        r@.len() >= 1,
{
    let mut r: Vec<&str> = Vec::new();
    let mut rest: &str = s;
    let mut i: usize = position(rest, c);
    assert(texts(r@) + fields(rest@, c) =~= fields(s@, c));
    while i < rest.unicode_len()
        invariant
            i == position_from(rest@, c, 0),
            i <= rest@.len(),
            texts(r@) + fields(rest@, c) == fields(s@, c),
        decreases rest@.len(),
    {
        let ghost (before, old_rest) = (texts(r@), rest@);
        let n: usize = rest.unicode_len();
        r.push(rest.substring_char(0, i));
        rest = rest.substring_char(i + 1, n);
        proof {
            assert(old_rest.subrange(0, i as int) =~= old_rest.take(i as int));
            assert(old_rest.subrange(i + 1, n as int) =~= old_rest.skip(i + 1));
            assert(texts(r@) =~= before.push(old_rest.take(i as int)));
            assert(texts(r@) + fields(rest@, c) =~= before + fields(old_rest, c));
        }
        i = position(rest, c);
    }
    let ghost before = texts(r@);
    r.push(rest);
    assert(texts(r@) =~= before.push(rest@));
    assert(fields(rest@, c) =~= seq![rest@]);
    assert(before.push(rest@) =~= before + seq![rest@]);
    r
}

/// Splitting a text in which the separator does not occur gives the text.
pub proof fn lemma_one_field(s: Seq<char>, c: char)
    requires
        forall|i: int| 0 <= i < s.len() ==> #[trigger] s[i] != c,
    ensures
        fields(s, c) == seq![s],
{
    lemma_position_is(s, c, s.len() as int);
}

/// **Splitting undoes joining**: a field, the separator and a rest split into the field and the
/// fields of the rest.
pub proof fn lemma_first_field(field: Seq<char>, c: char, rest: Seq<char>)
    requires
        forall|i: int| 0 <= i < field.len() ==> #[trigger] field[i] != c,
    ensures
        fields(field + seq![c] + rest, c) == seq![field] + fields(rest, c),
{
    let s = field + seq![c] + rest;
    let n = field.len() as int;
    assert forall|i: int| 0 <= i < n implies #[trigger] s[i] != c by {
        assert(s[i] == field[i]);
    }
    assert(s[n] == c);
    lemma_position_is(s, c, n);
    assert(s.take(n) =~= field);
    assert(s.skip(n + 1) =~= rest);
}

/// The decimal digits of a number hold digits only, and so neither white space nor a separator.
pub proof fn lemma_decimal_is_plain(n: nat)
    ensures
        decimal(n).len() > 0,
        all_digits(decimal(n)),
        trimmed(decimal(n)) == decimal(n),
{
    lemma_decimal_digits(n);
    let s = decimal(n);
    assert(is_digit(s[0]) && is_digit(s[s.len() - 1]));
    assert(s.subrange(0, s.len() as int) =~= s);
    assert(trims_at(s, s, 0, s.len() as int));
    lemma_trim_unique(s, s, trimmed(s));
}

/// **No field holds the separator.**
pub proof fn lemma_fields_hold_no_separator(s: Seq<char>, c: char, i: int, k: int)
    requires
        0 <= i < fields(s, c).len(),
        0 <= k < fields(s, c)[i].len(),
    ensures
        fields(s, c)[i][k] != c,
    decreases s.len(),
{
    let n = position_from(s, c, 0);
    lemma_nothing_before_the_position(s, c, 0);
    if 0 <= n < s.len() {
        if i > 0 {
            assert(fields(s, c)[i] == fields(s.skip(n + 1), c)[i - 1]);
            lemma_fields_hold_no_separator(s.skip(n + 1), c, i - 1, k);
        } else {
            assert(fields(s, c)[0] == s.take(n));
            assert(s[k] != c);
        }
    } else {
        assert(fields(s, c)[0] == s);
        assert(s[k] != c);
    }
}

proof fn lemma_nothing_before_the_position(s: Seq<char>, c: char, from: int)
    requires
        0 <= from,
    ensures
        forall|i: int| from <= i < position_from(s, c, from) && i < s.len() ==> #[trigger] s[i] != c,
        from <= s.len() ==> from <= position_from(s, c, from) <= s.len(),
    decreases s.len() - from,
{
    if from < s.len() && s[from] != c {
        lemma_nothing_before_the_position(s, c, from + 1);
    }
}

/// Texts one after the other, with a separator between every two of them.
pub open spec fn joined_by(parts: Seq<Seq<char>>, separator: Seq<char>) -> Seq<char>
    decreases parts.len(),
{
    if parts.len() == 0 {
        seq![]
    } else if parts.len() == 1 {
        parts[0]
    } else {
        parts[0] + separator + joined_by(parts.skip(1), separator)
    }
}

/// **A text that is joined last stands last**, behind a separator if there is anything before it.
pub proof fn lemma_joined_last(parts: Seq<Seq<char>>, separator: Seq<char>)
    requires
        parts.len() > 0,
    ensures
        joined_by(parts, separator) == if parts.len() == 1 {
            parts.last()
        } else {
            joined_by(parts.drop_last(), separator) + separator + parts.last()
        },
    decreases parts.len(),
{
    if parts.len() > 1 {
        let (rest, front) = (parts.skip(1), parts.drop_last());
        lemma_joined_last(rest, separator);
        assert(rest.last() == parts.last());
        assert(rest.drop_last() =~= front.skip(1));
        if parts.len() == 2 {
            assert(joined_by(parts, separator) =~= parts[0] + separator + parts[1]);
            assert(front[0] == parts[0]);
        } else {
            assert(joined_by(front, separator) == front[0] + separator + joined_by(
                front.skip(1),
                separator,
            ));
            assert(joined_by(parts, separator) =~= joined_by(front, separator) + separator
                + parts.last());
        }
    }
}

/// **A leading plus changes nothing**, a leading zero does not either, and anything but digits is refused.
pub proof fn lemma_what_a_number_may_look_like(s: Seq<char>, max: nat)
    requires
        s.len() > 0,
    ensures
        all_digits(s) ==> unsigned_value(seq!['+'] + s, max) == unsigned_value(s, max),
        all_digits(s) ==> unsigned_value(seq!['0'] + s, max) == unsigned_value(s, max),
        all_digits(s) ==> (unsigned_value(s, max) is Some <==> digits_value(s) <= max),
        s[0] != '+' && !all_digits(s) ==> unsigned_value(s, max) is None,
        unsigned_value(seq!['+'], max) is None,
        unsigned_value(seq![], max) is None,
{
    let plus = seq!['+'] + s;
    assert(plus.skip(1) =~= s);
    assert(seq!['+'].skip(1) =~= seq![]);
    if all_digits(s) {
        assert(is_digit(s[0]));
        let zero = seq!['0'] + s;
        lemma_leading_zero(s);
        assert forall|i: int| 0 <= i < zero.len() implies is_digit(#[trigger] zero[i]) by {
            if i > 0 {
                assert(zero[i] == s[i - 1]);
            }
        }
    }
}

proof fn lemma_leading_zero(s: Seq<char>)
    ensures
        digits_value(seq!['0'] + s) == digits_value(s),
    decreases s.len(),
{
    let zero = seq!['0'] + s;
    if s.len() > 0 {
        lemma_leading_zero(s.drop_last());
        assert(zero.drop_last() =~= seq!['0'] + s.drop_last());
        assert(zero.last() == s.last());
    } else {
        assert(zero.drop_last() =~= seq![]);
        assert(digits_value(zero.drop_last()) == 0);
    }
}

} // verus!
