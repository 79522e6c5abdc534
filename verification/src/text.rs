//! Text at the level of characters: decimal numbers, separators, white space, quoting.

use vstd::prelude::*;

verus! {

/// `std::string::String::push` appends one character to the end of the string.
pub assume_specification[ std::string::String::push ](s: &mut std::string::String, c: char)
    ensures
        final(s)@ == old(s)@.push(c),
;

/// The characters of `s`, in order.
pub fn characters(s: &str) -> (r: Vec<char>)
    ensures
        r@ == s@,
{
    let mut out: Vec<char> = Vec::new();
    for c in it: s.chars()
        invariant
            out@ == s@.take(it.index() as int),
            it.seq() == s@,
    {
        out.push(c);
        proof {
            assert(s@.take(it.index() + 1) =~= s@.take(it.index() as int).push(
                s@[it.index() as int],
            ));
        }
    }
    assert(s@.take(s@.len() as int) =~= s@);
    out
}

/// The characters `chars[from..to]` as a string.
pub fn text_of(chars: &Vec<char>, from: usize, to: usize) -> (r: String)
    requires
        from <= to <= chars@.len(),
    ensures
        r@ == chars@.subrange(from as int, to as int),
{
    let mut out = String::new();
    let mut i: usize = from;
    assert(out@ =~= chars@.subrange(from as int, i as int));
    while i < to
        invariant
            from <= i <= to <= chars@.len(),
            out@ == chars@.subrange(from as int, i as int),
        decreases to - i,
    {
        proof {
            assert(chars@.subrange(from as int, i + 1) =~= chars@.subrange(from as int, i as int).push(
                chars@[i as int],
            ));
        }
        out.push(chars[i]);
        i += 1;
    }
    out
}

/// A copy of `s` as a string of its own.
pub fn owned(s: &str) -> (r: String)
    ensures
        r@ == s@,
{
    s.to_owned()
}

/// An optional text, by its characters.
pub open spec fn opt_text(s: Option<String>) -> Option<Seq<char>> {
    match s {
        Some(text) => Some(text@),
        None => None,
    }
}

/// Texts, by their characters.
pub open spec fn texts(s: Seq<String>) -> Seq<Seq<char>> {
    s.map_values(|t: String| t@)
}

/// A copy of an optional text.
pub fn copied(s: &Option<String>) -> (r: Option<String>)
    ensures
        opt_text(r) == opt_text(*s),
{
    match s {
        Some(text) => Some(text.clone()),
        None => None,
    }
}

// ── Decimal numbers ──────────────────────────────────────────────────────────

/// The character for a digit.
pub open spec fn digit_char(d: nat) -> char {
    ('0' as int + d) as char
}

/// `n` in decimal digits, without leading zeros.
pub open spec fn decimal(n: nat) -> Seq<char>
    decreases n,
{
    if n < 10 {
        seq![digit_char(n)]
    } else {
        decimal(n / 10).push(digit_char(n % 10))
    }
}

/// `n` in decimal digits, without leading zeros.
pub fn decimal_text(n: u64) -> (r: String)
    ensures
        r@ == decimal(n as nat),
    decreases n,
{
    let mut out = if n < 10 {
        String::new()
    } else {
        decimal_text(n / 10)
    };
    let c = ('0' as u8 + (n % 10) as u8) as char;
    out.push(c);
    assert(n < 10 ==> out@ =~= seq![digit_char(n as nat)]);
    out
}

/// Why a text is not a number.
#[derive(Debug, Clone, Copy, PartialEq, Eq, Structural)]
pub enum NumberError {
    Empty,
    InvalidDigit,
    TooLarge,
}

/// Whether `c` is a decimal digit.
pub open spec fn is_digit(c: char) -> bool {
    '0' <= c && c <= '9'
}

/// The value of a decimal digit.
pub open spec fn digit_value(c: char) -> nat {
    (c as int - '0' as int) as nat
}

/// The number that decimal digits write.
pub open spec fn digits_value(s: Seq<char>) -> nat
    decreases s.len(),
{
    if s.len() == 0 {
        0
    } else {
        digits_value(s.drop_last()) * 10 + digit_value(s.last())
    }
}

/// The number of digits that `s` starts with.
pub open spec fn leading_digits(s: Seq<char>) -> int
    decreases s.len(),
{
    if s.len() > 0 && is_digit(s[0]) {
        1 + leading_digits(s.skip(1))
    } else {
        0
    }
}

/// `s` without a plus sign that something follows.
pub open spec fn unsigned(s: Seq<char>) -> Seq<char> {
    if s.len() > 1 && s[0] == '+' {
        s.skip(1)
    } else {
        s
    }
}

/// The number that `s` writes: decimal digits, which a plus sign may precede, of a value that 64
/// bits hold. Otherwise the first thing that is wrong, from the left.
pub open spec fn number_in(s: Seq<char>) -> Result<u64, NumberError> {
    let digits = unsigned(s);
    let lead = digits.take(leading_digits(digits));
    if s.len() == 0 {
        Err(NumberError::Empty)
    } else if digits_value(lead) > u64::MAX {
        Err(NumberError::TooLarge)
    } else if lead != digits {
        Err(NumberError::InvalidDigit)
    } else {
        Ok(digits_value(digits) as u64)
    }
}

/// `leading_digits` is the length of the digits up to the first other character.
pub(crate) proof fn leading_digits_are(s: Seq<char>, k: int)
    requires
        0 <= k <= s.len(),
        forall|i: int| 0 <= i < k ==> is_digit(#[trigger] s[i]),
    ensures
        k <= leading_digits(s) <= s.len(),
        (k == s.len() || !is_digit(s[k])) ==> leading_digits(s) == k,
    decreases s.len(),
{
    if k > 0 {
        assert forall|i: int| 0 <= i < k - 1 implies is_digit(#[trigger] s.skip(1)[i]) by {
            assert(is_digit(s[i + 1]));
        }
        leading_digits_are(s.skip(1), k - 1);
    } else if s.len() > 0 && is_digit(s[0]) {
        leading_digits_are(s.skip(1), 0);
    }
}

/// More digits write no smaller number.
proof fn digits_value_grows(s: Seq<char>, i: int, j: int)
    requires
        0 <= i <= j <= s.len(),
    ensures
        digits_value(s.take(i)) <= digits_value(s.take(j)),
    decreases j - i,
{
    if i < j {
        digits_value_grows(s, i, j - 1);
        assert(s.take(j).drop_last() =~= s.take(j - 1));
    }
}

/// Decimal digits write the number that they were made of.
pub(crate) proof fn decimal_reads_back(n: nat)
    ensures
        decimal(n).len() > 0,
        forall|i: int| 0 <= i < decimal(n).len() ==> is_digit(#[trigger] decimal(n)[i]),
        digits_value(decimal(n)) == n,
    decreases n,
{
    if n < 10 {
        reveal_with_fuel(digits_value, 2);
        assert(decimal(n).drop_last() =~= Seq::empty());
    } else {
        decimal_reads_back(n / 10);
        assert(decimal(n).drop_last() =~= decimal(n / 10));
        assert(decimal(n).last() == digit_char(n % 10));
    }
}

/// A text that starts with the digits of `n`, and goes on with something else, tells `n`.
pub(crate) proof fn leading_number_is(s: Seq<char>, n: nat)
    requires
        decimal(n).is_prefix_of(s),
        decimal(n).len() == s.len() || !is_digit(s[decimal(n).len() as int]),
    ensures
        leading_digits(s) == decimal(n).len(),
        digits_value(s.take(leading_digits(s))) == n,
{
    let k = decimal(n).len() as int;
    decimal_reads_back(n);
    assert forall|i: int| 0 <= i < k implies is_digit(#[trigger] s[i]) by {
        assert(s[i] == decimal(n)[i]);
    }
    leading_digits_are(s, k);
    assert(s.take(k) =~= decimal(n));
}

/// Where the digits that start at `from` end, at `to` at the latest.
pub fn digits_end(chars: &Vec<char>, from: usize, to: usize) -> (r: usize)
    requires
        from <= to <= chars@.len(),
    ensures
        from <= r <= to,
        r - from == leading_digits(chars@.subrange(from as int, to as int)),
{
    let ghost s = chars@.subrange(from as int, to as int);
    let mut i: usize = from;
    while i < to && '0' <= chars[i] && chars[i] <= '9'
        invariant
            from <= i <= to <= chars@.len(),
            s == chars@.subrange(from as int, to as int),
            forall|j: int| 0 <= j < i - from ==> is_digit(#[trigger] s[j]),
        decreases to - i,
    {
        assert(s[i - from] == chars@[i as int]);
        i += 1;
    }
    proof {
        if i < to {
            assert(s[i - from] == chars@[i as int]);
        }
        leading_digits_are(s, i - from);
    }
    i
}

/// The number that `chars[from..to]` writes.
pub fn parse_number(chars: &Vec<char>, from: usize, to: usize) -> (r: Result<u64, NumberError>)
    requires
        from <= to <= chars@.len(),
    ensures
        r == number_in(chars@.subrange(from as int, to as int)),
{
    let ghost s = chars@.subrange(from as int, to as int);
    if from == to {
        return Err(NumberError::Empty);
    }
    let start: usize = if to - from > 1 && chars[from] == '+' {
        from + 1
    } else {
        from
    };
    let ghost digits = unsigned(s);
    assert(digits =~= chars@.subrange(start as int, to as int));
    let mut value: u64 = 0;
    let mut i: usize = start;
    assert(digits.take(0) =~= Seq::empty());
    while i < to
        invariant
            from <= start <= i <= to <= chars@.len(),
            s == chars@.subrange(from as int, to as int),
            s.len() > 0,
            digits == unsigned(s),
            digits == chars@.subrange(start as int, to as int),
            forall|j: int| 0 <= j < i - start ==> is_digit(#[trigger] digits[j]),
            value == digits_value(digits.take(i - start)),
        decreases to - i,
    {
        let c = chars[i];
        let ghost k: int = i - start;
        assert(digits[k] == c);
        if !('0' <= c && c <= '9') {
            proof {
                leading_digits_are(digits, k);
                assert(digits.take(k).len() != digits.len());
            }
            return Err(NumberError::InvalidDigit);
        }
        let d: u64 = (c as u32 - '0' as u32) as u64;
        proof {
            assert(digits.take(k + 1).drop_last() =~= digits.take(k));
            leading_digits_are(digits, k + 1);
            digits_value_grows(digits, k + 1, leading_digits(digits));
        }
        if value > (u64::MAX - d) / 10 {
            return Err(NumberError::TooLarge);
        }
        value = value * 10 + d;
        i += 1;
    }
    proof {
        leading_digits_are(digits, digits.len() as int);
        assert(digits.take(digits.len() as int) =~= digits);
    }
    Ok(value)
}

// ── Separators ───────────────────────────────────────────────────────────────

/// Where `c` first stands in `s`, the length of `s` if nowhere.
pub open spec fn position(s: Seq<char>, c: char) -> int
    decreases s.len(),
{
    if s.len() == 0 || s[0] == c {
        0
    } else {
        1 + position(s.skip(1), c)
    }
}

/// The first place that holds `c`, or the end, is the position of `c`.
pub(crate) proof fn position_is(s: Seq<char>, c: char, k: int)
    requires
        0 <= k <= s.len(),
        k < s.len() ==> s[k] == c,
        forall|i: int| 0 <= i < k ==> #[trigger] s[i] != c,
    ensures
        position(s, c) == k,
    decreases s.len(),
{
    if k > 0 {
        assert forall|i: int| 0 <= i < k - 1 implies #[trigger] s.skip(1)[i] != c by {
            assert(s[i + 1] != c);
        }
        position_is(s.skip(1), c, k - 1);
    }
}

/// The index in `chars` at which `c` first stands at or after `from`, the length if nowhere.
pub fn find_char(chars: &Vec<char>, from: usize, c: char) -> (r: usize)
    requires
        from <= chars@.len(),
    ensures
        from <= r <= chars@.len(),
        r - from == position(chars@.skip(from as int), c),
        r < chars@.len() ==> chars@[r as int] == c,
{
    let ghost s = chars@.skip(from as int);
    let mut i: usize = from;
    while i < chars.len()
        invariant
            from <= i <= chars@.len(),
            s == chars@.skip(from as int),
            forall|j: int| 0 <= j < i - from ==> #[trigger] s[j] != c,
        decreases chars@.len() - i,
    {
        if chars[i] == c {
            proof {
                position_is(s, c, i - from);
            }
            return i;
        }
        assert(s[i - from] == chars@[i as int]);
        i += 1;
    }
    proof {
        position_is(s, c, i - from);
    }
    i
}

/// `part` occurs in `s` as a run of characters.
pub open spec fn holds(s: Seq<char>, part: Seq<char>) -> bool {
    exists|i: int|
        0 <= i <= s.len() - part.len() && #[trigger] s.subrange(i, i + part.len()) == part
}

/// Whether `part` occurs in `s` as a run of characters.
pub fn contains_text(s: &str, part: &str) -> (found: bool)
    ensures
        found == holds(s@, part@),
{
    let text = characters(s);
    let sought = characters(part);
    if sought.len() > text.len() {
        return false;
    }
    let mut i: usize = 0;
    while i <= text.len() - sought.len()
        invariant
            text@ == s@,
            sought@ == part@,
            sought@.len() <= text@.len(),
            i <= text@.len() - sought@.len() + 1,
            forall|j: int| 0 <= j < i ==> #[trigger] s@.subrange(j, j + part@.len()) != part@,
        decreases text@.len() - sought@.len() + 1 - i,
    {
        let mut k: usize = 0;
        while k < sought.len() && text[i + k] == sought[k]
            invariant
                text@ == s@,
                sought@ == part@,
                i + sought.len() <= text.len(),
                k <= sought@.len(),
                forall|j: int| 0 <= j < k ==> text@[i + j] == sought@[j],
            decreases sought@.len() - k,
        {
            k += 1;
        }
        if k == sought.len() {
            assert(s@.subrange(i as int, i + part@.len()) =~= part@);
            return true;
        }
        proof {
            let here = s@.subrange(i as int, i + part@.len());
            assert(here[k as int] == text@[i + k]);
        }
        i += 1;
    }
    false
}

// ── White space and words ────────────────────────────────────────────────────

/// Whether `c` has the Unicode property `White_Space`.
pub open spec fn is_white(c: char) -> bool {
    ||| '\u{9}' <= c && c <= '\u{d}'
    ||| c == '\u{20}'
    ||| c == '\u{85}'
    ||| c == '\u{a0}'
    ||| c == '\u{1680}'
    ||| '\u{2000}' <= c && c <= '\u{200a}'
    ||| c == '\u{2028}'
    ||| c == '\u{2029}'
    ||| c == '\u{202f}'
    ||| c == '\u{205f}'
    ||| c == '\u{3000}'
}

/// Whether `c` has the Unicode property `White_Space`.
pub fn is_white_space(c: char) -> (white: bool)
    ensures
        white == is_white(c),
{
    ('\u{9}' <= c && c <= '\u{d}') || c == '\u{20}' || c == '\u{85}' || c == '\u{a0}' || c
        == '\u{1680}' || ('\u{2000}' <= c && c <= '\u{200a}') || c == '\u{2028}' || c
        == '\u{2029}' || c == '\u{202f}' || c == '\u{205f}' || c == '\u{3000}'
}

/// The number of characters before the first white space.
pub open spec fn word_length(s: Seq<char>) -> int
    decreases s.len(),
{
    if s.len() == 0 || is_white(s[0]) {
        0
    } else {
        1 + word_length(s.skip(1))
    }
}

/// The first white space, or the end, closes the word.
pub(crate) proof fn word_length_is(s: Seq<char>, k: int)
    requires
        0 <= k <= s.len(),
        k < s.len() ==> is_white(s[k]),
        forall|i: int| 0 <= i < k ==> !is_white(#[trigger] s[i]),
    ensures
        word_length(s) == k,
    decreases s.len(),
{
    if k > 0 {
        assert forall|i: int| 0 <= i < k - 1 implies !is_white(#[trigger] s.skip(1)[i]) by {
            assert(!is_white(s[i + 1]));
        }
        word_length_is(s.skip(1), k - 1);
    }
}

/// A word is no longer than the text.
pub(crate) proof fn word_length_within(s: Seq<char>)
    ensures
        0 <= word_length(s) <= s.len(),
        s.len() > 0 && !is_white(s[0]) ==> word_length(s) > 0,
    decreases s.len(),
{
    if s.len() > 0 && !is_white(s[0]) {
        word_length_within(s.skip(1));
    }
}

/// The pieces of `s` between white space, none of them empty.
pub open spec fn words(s: Seq<char>) -> Seq<Seq<char>>
    decreases s.len(),
    via words_decreases
{
    if s.len() == 0 {
        Seq::empty()
    } else if is_white(s[0]) {
        words(s.skip(1))
    } else {
        seq![s.take(word_length(s))] + words(s.skip(word_length(s)))
    }
}

#[via_fn]
proof fn words_decreases(s: Seq<char>) {
    word_length_within(s);
}

/// Where the word that starts at `from` ends, at `to` at the latest.
pub fn word_end(chars: &Vec<char>, from: usize, to: usize) -> (r: usize)
    requires
        from <= to <= chars@.len(),
    ensures
        from <= r <= to,
        r - from == word_length(chars@.subrange(from as int, to as int)),
{
    let ghost s = chars@.subrange(from as int, to as int);
    let mut i: usize = from;
    while i < to
        invariant
            from <= i <= to <= chars@.len(),
            s == chars@.subrange(from as int, to as int),
            forall|j: int| 0 <= j < i - from ==> !is_white(#[trigger] s[j]),
        decreases to - i,
    {
        assert(s[i - from] == chars@[i as int]);
        if is_white_space(chars[i]) {
            proof {
                word_length_is(s, i - from);
            }
            return i;
        }
        i += 1;
    }
    proof {
        word_length_is(s, i - from);
    }
    i
}

// ── Quoting ──────────────────────────────────────────────────────────────────

/// What `{:?}` prints for a text: its characters between quotation marks, with escapes.
pub uninterp spec fn debug_form(s: Seq<char>) -> Seq<char>;

/// The `Debug` form of a `str`, as `std::format!` prints it for `{:?}`. Which characters come
/// escaped, and how, is not spelled out.
#[verifier::external_body]
pub(crate) fn debug_text(s: &str) -> (r: String)
    ensures
        r@ == debug_form(s@),
{
    format!("{:?}", s)
}

/// `s` with an apostrophe in place of each quotation mark.
pub open spec fn softened(s: Seq<char>) -> Seq<char> {
    s.map_values(
        |c: char|
            if c == '"' {
                '\''
            } else {
                c
            },
    )
}

/// `s` with an apostrophe in place of each quotation mark.
pub fn soften_quotes(s: &str) -> (r: String)
    ensures
        r@ == softened(s@),
{
    let chars = characters(s);
    let mut out = String::new();
    let mut i: usize = 0;
    assert(out@ =~= softened(s@).take(0));
    while i < chars.len()
        invariant
            i <= chars@.len(),
            chars@ == s@,
            out@ == softened(s@).take(i as int),
        decreases chars@.len() - i,
    {
        let c = chars[i];
        proof {
            assert(softened(s@).take(i + 1) =~= softened(s@).take(i as int).push(
                softened(s@)[i as int],
            ));
        }
        out.push(if c == '"' { '\'' } else { c });
        i += 1;
    }
    assert(softened(s@).take(i as int) =~= softened(s@));
    out
}

/// Different numbers have different numerals.
pub proof fn numerals_differ(m: nat, n: nat)
    requires
        decimal(m) == decimal(n),
    ensures
        m == n,
{
    decimal_reads_back(m);
    decimal_reads_back(n);
}

/// What stands between two texts occurs in the whole.
pub(crate) proof fn middle_is_held(a: Seq<char>, part: Seq<char>, b: Seq<char>)
    ensures
        holds(a + part + b, part),
{
    let s = a + part + b;
    let k = a.len() as int;
    assert(s.subrange(k, k + part.len()) =~= part);
}

/// What occurs in a text occurs in a longer one.
pub(crate) proof fn longer_holds(a: Seq<char>, s: Seq<char>, b: Seq<char>, part: Seq<char>)
    requires
        holds(s, part),
    ensures
        holds(a + s + b, part),
{
    let i = choose|i: int|
        0 <= i <= s.len() - part.len() && #[trigger] s.subrange(i, i + part.len()) == part;
    let whole = a + s + b;
    let k = a.len() as int + i;
    assert(whole.subrange(k, k + part.len()) =~= s.subrange(i, i + part.len()));
}

/// A softened text holds no quotation mark, is as long as before, and keeps every other character
/// in its place.
pub proof fn softening_spares_the_rest(s: Seq<char>)
    ensures
        softened(s).len() == s.len(),
        !softened(s).contains('"'),
        forall|i: int| 0 <= i < s.len() && s[i] != '"' ==> #[trigger] softened(s)[i] == s[i],
        forall|i: int| 0 <= i < s.len() && s[i] == '"' ==> #[trigger] softened(s)[i] == '\'',
        !s.contains('"') ==> softened(s) == s,
{
    if !s.contains('"') {
        assert forall|i: int| 0 <= i < s.len() implies softened(s)[i] == s[i] by {
            assert(s.contains(s[i]));
        }
        assert(softened(s) =~= s);
    }
}

/// A numeral of at most 64 bits reads back as its number, with or without a plus sign before it.
/// A text without digits is no number; nor is one that goes on after its digits, or a numeral of
/// more than 64 bits.
pub proof fn numerals_read_back(n: nat, c: char, rest: Seq<char>)
    ensures
        n <= u64::MAX ==> number_in(decimal(n)) == Ok::<u64, NumberError>(n as u64),
        n <= u64::MAX ==> number_in(seq!['+'] + decimal(n)) == Ok::<u64, NumberError>(n as u64),
        n > u64::MAX ==> number_in(decimal(n)) == Err::<u64, NumberError>(NumberError::TooLarge),
        n <= u64::MAX && !is_digit(c) ==> number_in(decimal(n) + seq![c] + rest) == Err::<
            u64,
            NumberError,
        >(NumberError::InvalidDigit),
        number_in(Seq::empty()) == Err::<u64, NumberError>(NumberError::Empty),
        !is_digit(c) && c != '+' ==> number_in(seq![c] + rest) == Err::<u64, NumberError>(
            NumberError::InvalidDigit,
        ),
{
    let d = decimal(n);
    decimal_reads_back(n);
    leading_digits_are(d, d.len() as int);
    assert(d.take(d.len() as int) =~= d);
    assert(is_digit(d[0]));
    assert(unsigned(d) == d);
    let signed = seq!['+'] + d;
    assert(signed.skip(1) =~= d);
    assert(unsigned(signed) == d);
    if !is_digit(c) {
        let s = d + seq![c] + rest;
        assert(s[0] == d[0]);
        assert(unsigned(s) == s);
        assert forall|i: int| 0 <= i < d.len() implies is_digit(#[trigger] s[i]) by {
            assert(s[i] == d[i]);
        }
        assert(s[d.len() as int] == c);
        leading_digits_are(s, d.len() as int);
        assert(s.take(d.len() as int) =~= d);
        assert(d.len() < s.len());
        if c != '+' {
            let t = seq![c] + rest;
            assert(t[0] == c);
            assert(unsigned(t) == t);
            leading_digits_are(t, 0);
            assert(t.take(0) =~= Seq::empty());
            assert(t.len() > 0);
        }
    }
}

/// A text is split where white space stands: the words before it, and then the words behind it.
pub proof fn words_join(a: Seq<char>, c: char, b: Seq<char>)
    requires
        is_white(c),
    ensures
        words(a + seq![c] + b) == words(a) + words(b),
    decreases a.len(),
{
    let s = a + seq![c] + b;
    if a.len() == 0 {
        assert(s[0] == c);
        assert(s.skip(1) =~= b);
        assert(words(a) + words(b) =~= words(b));
    } else if is_white(a[0]) {
        assert(s[0] == a[0]);
        assert(s.skip(1) =~= a.skip(1) + seq![c] + b);
        words_join(a.skip(1), c, b);
    } else {
        let k = word_length(a);
        word_length_within(a);
        word_length_splits(a);
        assert(s[0] == a[0]);
        assert forall|i: int| 0 <= i < k implies !is_white(#[trigger] s[i]) by {
            assert(s[i] == a[i]);
        }
        word_length_is(s, k);
        assert(s.take(k) =~= a.take(k));
        assert(s.skip(k) =~= a.skip(k) + seq![c] + b);
        words_join(a.skip(k), c, b);
        assert(words(s) =~= words(a) + words(b));
    }
}

/// Before the end of a word there is no white space, and behind it there is.
proof fn word_length_splits(s: Seq<char>)
    ensures
        0 <= word_length(s) <= s.len(),
        forall|i: int| 0 <= i < word_length(s) ==> !is_white(#[trigger] s[i]),
        word_length(s) < s.len() ==> is_white(s[word_length(s)]),
    decreases s.len(),
{
    if s.len() > 0 && !is_white(s[0]) {
        word_length_splits(s.skip(1));
        assert forall|i: int| 0 <= i < word_length(s) implies !is_white(#[trigger] s[i]) by {
            if i > 0 {
                assert(s.skip(1)[i - 1] == s[i]);
            }
        }
    }
}

/// A text without white space is one word.
pub proof fn unbroken_texts_are_words(s: Seq<char>)
    requires
        s.len() > 0,
        forall|i: int| 0 <= i < s.len() ==> !is_white(#[trigger] s[i]),
    ensures
        words(s) == seq![s],
{
    word_length_is(s, s.len() as int);
    assert(s.take(s.len() as int) =~= s);
    assert(s.skip(s.len() as int) =~= Seq::empty());
    assert(words(s.skip(s.len() as int)) =~= Seq::empty());
    assert(!is_white(s[0]));
    assert(words(s) =~= seq![s]);
}

/// Each word occurs in the text, is not empty and holds no white space.
pub proof fn words_occur(s: Seq<char>, k: int)
    requires
        0 <= k < words(s).len(),
    ensures
        holds(s, words(s)[k]),
        words(s)[k].len() > 0,
        forall|i: int| 0 <= i < words(s)[k].len() ==> !is_white(#[trigger] words(s)[k][i]),
    decreases s.len(),
{
    if is_white(s[0]) {
        let rest = s.skip(1);
        words_occur(rest, k);
        longer_holds(s.take(1), rest, Seq::empty(), words(s)[k]);
        assert(s =~= s.take(1) + rest + Seq::empty());
    } else {
        let n = word_length(s);
        let word = s.take(n);
        let rest = s.skip(n);
        word_length_within(s);
        word_length_splits(s);
        if k == 0 {
            middle_is_held(Seq::empty(), word, rest);
            assert(s =~= Seq::empty() + word + rest);
            assert(words(s)[0] == word);
        } else {
            words_occur(rest, k - 1);
            assert(words(s)[k] == words(rest)[k - 1]);
            longer_holds(word, rest, Seq::empty(), words(s)[k]);
            assert(s =~= word + rest + Seq::empty());
        }
    }
}

/// The digits that a text starts with are digits, and what follows them is none.
pub(crate) proof fn leading_digits_split(s: Seq<char>)
    ensures
        0 <= leading_digits(s) <= s.len(),
        forall|i: int| 0 <= i < leading_digits(s) ==> is_digit(#[trigger] s[i]),
        leading_digits(s) < s.len() ==> !is_digit(s[leading_digits(s)]),
    decreases s.len(),
{
    if s.len() > 0 && is_digit(s[0]) {
        leading_digits_split(s.skip(1));
        assert forall|i: int| 0 <= i < leading_digits(s) implies is_digit(#[trigger] s[i]) by {
            if i > 0 {
                assert(s.skip(1)[i - 1] == s[i]);
            }
        }
    }
}

/// A numeral is written in decimal digits, the highest first and without leading zeros.
pub proof fn numerals_are_decimal(n: nat, d: nat)
    requires
        d < 10,
    ensures
        decimal(0) == seq!['0'],
        n > 0 ==> decimal(n * 10 + d) == decimal(n) + decimal(d),
        decimal(d).len() == 1 && decimal(d)[0] as int == '0' as int + d,
{
    if n > 0 {
        assert((n * 10 + d) / 10 == n && (n * 10 + d) % 10 == d) by (nonlinear_arith)
            requires
                d < 10,
        ;
        assert(decimal(n * 10 + d) =~= decimal(n) + decimal(d));
    }
}

} // verus!
