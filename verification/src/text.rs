//! Text as sequences of characters: trimming, splitting, searching, and decimal numbers.

use vstd::prelude::*;

verus! {

/// `String::push` adds the character at the end and changes nothing before it.
pub assume_specification[ String::push ](s: &mut String, c: char)
    ensures
        final(s)@ == old(s)@.push(c),
;

/// The lower-case form of a text, as `str::to_lowercase` gives it.
pub uninterp spec fn lowercase(s: Seq<char>) -> Seq<char>;

/// `str::to_lowercase` returns the lower-case form of the text. What that form is, Unicode's tables
/// say; here it only has a name.
pub assume_specification[ str::to_lowercase ](s: &str) -> (lower: String)
    ensures
        lower@ == lowercase(s@),
;

/// A text in double quotes with its special characters escaped, as `str`'s `Debug` writes it.
pub uninterp spec fn quoted(s: Seq<char>) -> Seq<char>;

/// Formats the text with `str`'s `Debug`, which puts it in double quotes and escapes what is not
/// printable. The result is a function of the text; here it only has a name.
#[verifier::external_body]
pub(crate) fn debug_text(s: &str) -> (out: String)
    ensures
        out@ == quoted(s@),
{
    format!("{:?}", s)
}

/// The characters of `s`, one by one.
pub fn chars_of(s: &str) -> (out: Vec<char>)
    ensures
        out@ == s@,
{
    let mut out: Vec<char> = Vec::new();
    for c in it: s.chars()
        invariant
            out@ == it.seq().take(it.index() as int),
            it.seq() == s@,
    {
        out.push(c);
    }
    out
}

/// The string made of `chars`.
pub fn string_of(chars: &[char]) -> (out: String)
    ensures
        out@ == chars@,
{
    let mut out = String::new();
    for i in 0..chars.len()
        invariant
            out@ == chars@.take(i as int),
    {
        out.push(chars[i]);
    }
    out
}

/// Whether two texts are the same.
pub fn same(a: &str, b: &str) -> (r: bool)
    ensures
        r == (a@ == b@),
{
    let left = chars_of(a);
    let right = chars_of(b);
    if left.len() != right.len() {
        return false;
    }
    for i in 0..left.len()
        invariant
            left@.len() == right@.len(),
            left@ == a@,
            right@ == b@,
            forall|j: int| 0 <= j < i ==> left@[j] == right@[j],
    {
        if left[i] != right[i] {
            return false;
        }
    }
    assert(left@ =~= right@);
    true
}

// ---------------------------------------------------------------------------------------------
// Whitespace
// ---------------------------------------------------------------------------------------------

/// Unicode's `White_Space` property.
pub open spec fn is_space(c: char) -> bool {
    ||| '\u{9}' <= c <= '\u{d}'
    ||| c == ' '
    ||| c == '\u{85}'
    ||| c == '\u{a0}'
    ||| c == '\u{1680}'
    ||| '\u{2000}' <= c <= '\u{200a}'
    ||| c == '\u{2028}'
    ||| c == '\u{2029}'
    ||| c == '\u{202f}'
    ||| c == '\u{205f}'
    ||| c == '\u{3000}'
}

/// Whether `c` is whitespace.
pub fn is_whitespace(c: char) -> (r: bool)
    ensures
        r == is_space(c),
{
    ('\u{9}' <= c && c <= '\u{d}') || c == ' ' || c == '\u{85}' || c == '\u{a0}' || c == '\u{1680}'
        || ('\u{2000}' <= c && c <= '\u{200a}') || c == '\u{2028}' || c == '\u{2029}' || c
        == '\u{202f}' || c == '\u{205f}' || c == '\u{3000}'
}

/// `s` without the whitespace at its start.
pub open spec fn trimmed_start(s: Seq<char>) -> Seq<char>
    decreases s.len(),
{
    if s.len() > 0 && is_space(s[0]) {
        trimmed_start(s.skip(1))
    } else {
        s
    }
}

/// `s` without the whitespace at its end.
pub open spec fn trimmed_end(s: Seq<char>) -> Seq<char>
    decreases s.len(),
{
    if s.len() > 0 && is_space(s.last()) {
        trimmed_end(s.drop_last())
    } else {
        s
    }
}

/// `s` without the whitespace at both ends.
pub open spec fn trimmed(s: Seq<char>) -> Seq<char> {
    trimmed_end(trimmed_start(s))
}

/// The characters without the whitespace at both ends.
pub fn trim_chars(s: &[char]) -> (out: Vec<char>)
    ensures
        out@ == trimmed(s@),
{
    let mut from: usize = 0;
    assert(s@.skip(0) =~= s@);
    while from < s.len() && is_whitespace(s[from])
        invariant
            from <= s@.len(),
            trimmed_start(s@.skip(from as int)) == trimmed_start(s@),
        decreases s@.len() - from,
    {
        assert(s@.skip(from as int).skip(1) =~= s@.skip(from + 1));
        from = from + 1;
    }
    let ghost rest = s@.skip(from as int);
    assert(rest == trimmed_start(s@));
    let mut to: usize = s.len();
    assert(s@.subrange(from as int, to as int) =~= rest);
    while to > from && is_whitespace(s[to - 1])
        invariant
            from <= to <= s@.len(),
            trimmed_end(s@.subrange(from as int, to as int)) == trimmed_end(rest),
        decreases to,
    {
        assert(s@.subrange(from as int, to as int).drop_last() =~= s@.subrange(
            from as int,
            to - 1,
        ));
        to = to - 1;
    }
    let mut out: Vec<char> = Vec::new();
    for i in from..to
        invariant
            from <= to <= s@.len(),
            out@ =~= s@.subrange(from as int, i as int),
    {
        out.push(s[i]);
    }
    out
}

/// The text without the whitespace at both ends.
pub fn trim(s: &str) -> (out: String)
    ensures
        out@ == trimmed(s@),
{
    let chars = chars_of(s);
    let kept = trim_chars(chars.as_slice());
    string_of(kept.as_slice())
}

/// How many words `s` holds: maximal runs of characters that are not whitespace.
pub open spec fn words(s: Seq<char>) -> nat
    decreases s.len(),
{
    if s.len() == 0 {
        0
    } else {
        words(s.drop_last()) + if !is_space(s.last()) && (s.len() == 1 || is_space(
            s[s.len() - 2],
        )) {
            1nat
        } else {
            0nat
        }
    }
}

/// Counts the words of a text.
pub fn word_count(s: &str) -> (n: usize)
    ensures
        n == words(s@),
{
    let chars = chars_of(s);
    let mut n: usize = 0;
    let mut gap: bool = true;
    for i in 0..chars.len()
        invariant
            chars@ == s@,
            n == words(s@.take(i as int)),
            n <= i,
            gap == (i == 0 || is_space(s@[i - 1])),
    {
        assert(s@.take(i + 1).drop_last() =~= s@.take(i as int));
        let space = is_whitespace(chars[i]);
        if !space && gap {
            n = n + 1;
        }
        gap = space;
    }
    assert(s@.take(s@.len() as int) =~= s@);
    n
}

// ---------------------------------------------------------------------------------------------
// Splitting, searching, replacing
// ---------------------------------------------------------------------------------------------

/// The parts of `s` between the separators: always one more than there are separators.
pub open spec fn parts(s: Seq<char>, sep: char) -> Seq<Seq<char>>
    decreases s.len(),
{
    if s.len() == 0 {
        seq![Seq::<char>::empty()]
    } else {
        let before = parts(s.drop_last(), sep);
        if s.last() == sep {
            before.push(Seq::empty())
        } else {
            before.drop_last().push(before.last().push(s.last()))
        }
    }
}

/// The character sequences that the vectors hold.
pub open spec fn texts(v: Seq<Vec<char>>) -> Seq<Seq<char>> {
    Seq::new(v.len(), |i: int| v[i]@)
}

/// The character sequences that the strings hold.
pub open spec fn strings(v: Seq<String>) -> Seq<Seq<char>> {
    Seq::new(v.len(), |i: int| v[i]@)
}

/// Splits a text at every separator.
pub fn split(s: &str, sep: char) -> (out: Vec<Vec<char>>)
    ensures
        texts(out@) == parts(s@, sep),
{
    let chars = chars_of(s);
    let mut done: Vec<Vec<char>> = Vec::new();
    let mut part: Vec<char> = Vec::new();
    assert(texts(done@).push(part@) =~= seq![Seq::<char>::empty()]);
    assert(s@.take(0) =~= Seq::empty());
    for i in 0..chars.len()
        invariant
            chars@ == s@,
            texts(done@).push(part@) == parts(s@.take(i as int), sep),
    {
        let ghost before = texts(done@).push(part@);
        let ghost done_before = done@;
        assert(s@.take(i + 1).drop_last() =~= s@.take(i as int));
        if chars[i] == sep {
            let mut full: Vec<char> = Vec::new();
            std::mem::swap(&mut full, &mut part);
            done.push(full);
            assert(texts(done@) =~= before);
        } else {
            part.push(chars[i]);
            assert(before.drop_last() =~= texts(done@));
        }
    }
    assert(s@.take(s@.len() as int) =~= s@);
    let ghost all = texts(done@).push(part@);
    done.push(part);
    assert(texts(done@) =~= all);
    done
}

/// Whether `needle` stands in `s` at position `at`.
pub open spec fn occurs_at(s: Seq<char>, needle: Seq<char>, at: int) -> bool {
    0 <= at && at + needle.len() <= s.len() && s.subrange(at, at + needle.len()) == needle
}

/// Whether `needle` stands anywhere in `s`.
pub open spec fn occurs(s: Seq<char>, needle: Seq<char>) -> bool {
    exists|at: int| occurs_at(s, needle, at)
}

/// Whether `needle` stands in `s` at position `at`.
fn found_at(s: &[char], needle: &[char], at: usize) -> (r: bool)
    requires
        at <= s@.len(),
    ensures
        r == occurs_at(s@, needle@, at as int),
{
    let len = s.len();
    if len - at < needle.len() {
        return false;
    }
    for i in 0..needle.len()
        invariant
            len == s@.len(),
            at + needle@.len() <= len,
            forall|j: int| 0 <= j < i ==> s@[at + j] == needle@[j],
    {
        if s[at + i] != needle[i] {
            assert(s@.subrange(at as int, at + needle@.len())[i as int] != needle@[i as int]);
            return false;
        }
    }
    assert(s@.subrange(at as int, at + needle@.len()) =~= needle@);
    true
}

/// Whether `needle` stands anywhere in `s`.
pub fn contains(s: &str, needle: &str) -> (r: bool)
    ensures
        r == occurs(s@, needle@),
{
    let hay = chars_of(s);
    let wanted = chars_of(needle);
    let mut at: usize = 0;
    while at < hay.len()
        invariant
            at <= hay@.len(),
            hay@ == s@,
            wanted@ == needle@,
            forall|i: int| 0 <= i < at ==> !occurs_at(s@, needle@, i),
        decreases hay@.len() - at,
    {
        if found_at(hay.as_slice(), wanted.as_slice(), at) {
            return true;
        }
        at = at + 1;
    }
    found_at(hay.as_slice(), wanted.as_slice(), at)
}

/// `s` with every occurrence of `from` replaced by `to`, leftmost first and none overlapping.
pub open spec fn replaced(s: Seq<char>, from: Seq<char>, to: Seq<char>) -> Seq<char>
    decreases s.len(),
{
    if s.len() == 0 {
        s
    } else if from.len() > 0 && occurs_at(s, from, 0) {
        to + replaced(s.skip(from.len() as int), from, to)
    } else {
        seq![s[0]] + replaced(s.skip(1), from, to)
    }
}

/// Replaces every occurrence of `from`, which is not empty, by `to`.
pub fn replace(s: &str, from: &str, to: &str) -> (out: String)
    requires
        from@.len() > 0,
    ensures
        out@ == replaced(s@, from@, to@),
{
    let chars = chars_of(s);
    let wanted = chars_of(from);
    let mut out = String::new();
    let mut at: usize = 0;
    assert(s@.skip(0) =~= s@);
    while at < chars.len()
        invariant
            at <= chars@.len(),
            chars@ == s@,
            wanted@ == from@,
            from@.len() > 0,
            out@ + replaced(s@.skip(at as int), from@, to@) == replaced(s@, from@, to@),
        decreases chars@.len() - at,
    {
        let ghost rest = s@.skip(at as int);
        let ghost n = from@.len() as int;
        proof {
            if at + n <= s@.len() {
                assert(rest.subrange(0, n) =~= s@.subrange(at as int, at + n));
            }
            assert(occurs_at(rest, from@, 0) == occurs_at(s@, from@, at as int));
        }
        let ghost so_far = out@;
        if found_at(chars.as_slice(), wanted.as_slice(), at) {
            assert(rest.skip(n) =~= s@.skip(at + n));
            out.append(to);
            at = at + wanted.len();
            assert(out@ + replaced(s@.skip(at as int), from@, to@) =~= so_far + (to@ + replaced(
                s@.skip(at as int),
                from@,
                to@,
            )));
        } else {
            assert(rest.skip(1) =~= s@.skip(at + 1));
            out.push(chars[at]);
            at = at + 1;
            assert(out@ + replaced(s@.skip(at as int), from@, to@) =~= so_far + (seq![rest[0]]
                + replaced(s@.skip(at as int), from@, to@)));
        }
    }
    assert(s@.skip(at as int) =~= Seq::empty());
    assert(out@ + Seq::<char>::empty() =~= out@);
    out
}

// ---------------------------------------------------------------------------------------------
// Decimal numbers
// ---------------------------------------------------------------------------------------------

/// The character of a digit.
pub open spec fn digit(d: nat) -> char {
    if d == 0 {
        '0'
    } else if d == 1 {
        '1'
    } else if d == 2 {
        '2'
    } else if d == 3 {
        '3'
    } else if d == 4 {
        '4'
    } else if d == 5 {
        '5'
    } else if d == 6 {
        '6'
    } else if d == 7 {
        '7'
    } else if d == 8 {
        '8'
    } else {
        '9'
    }
}

/// The decimal digits of `n`, without leading zeros.
pub open spec fn decimal(n: nat) -> Seq<char>
    decreases n,
{
    if n < 10 {
        seq![digit(n)]
    } else {
        decimal(n / 10).push(digit(n % 10))
    }
}

/// The character of a digit below ten.
fn digit_char(d: u128) -> (c: char)
    requires
        d < 10,
    ensures
        c == digit(d as nat),
{
    if d == 0 {
        '0'
    } else if d == 1 {
        '1'
    } else if d == 2 {
        '2'
    } else if d == 3 {
        '3'
    } else if d == 4 {
        '4'
    } else if d == 5 {
        '5'
    } else if d == 6 {
        '6'
    } else if d == 7 {
        '7'
    } else if d == 8 {
        '8'
    } else {
        '9'
    }
}

/// Writes `n` in decimal.
pub fn to_decimal(n: u128) -> (out: String)
    ensures
        out@ == decimal(n as nat),
    decreases n,
{
    if n < 10 {
        let mut out = String::new();
        out.push(digit_char(n));
        assert(out@ =~= seq![digit(n as nat)]);
        out
    } else {
        let mut out = to_decimal(n / 10);
        out.push(digit_char(n % 10));
        out
    }
}

/// Numbers with a comma and a space between them.
pub open spec fn listed(v: Seq<usize>) -> Seq<char>
    decreases v.len(),
{
    if v.len() == 0 {
        Seq::empty()
    } else if v.len() == 1 {
        decimal(v[0] as nat)
    } else {
        listed(v.drop_last()) + ", "@ + decimal(v.last() as nat)
    }
}

/// Writes numbers as a bracketed list.
pub fn show_list(v: &[usize]) -> (out: String)
    ensures
        out@ == "["@ + listed(v@) + "]"@,
{
    let mut inner = String::new();
    for i in 0..v.len()
        invariant
            inner@ == listed(v@.take(i as int)),
    {
        assert(v@.take(i + 1).drop_last() =~= v@.take(i as int));
        let n = to_decimal(v[i] as u128);
        if i > 0 {
            inner.append(", ");
        }
        inner.append(n.as_str());
        assert(inner@ =~= listed(v@.take(i + 1)));
    }
    assert(v@.take(v@.len() as int) =~= v@);
    let mut out = "[".to_string();
    out.append(inner.as_str());
    out.append("]");
    out
}

/// Why a text is no number of the wanted size.
#[derive(Clone, Copy, Debug, PartialEq, Eq, Structural)]
pub enum NumberError {
    /// There is nothing to read.
    Empty,
    /// A character is no decimal digit, or a sign stands alone.
    InvalidDigit,
    /// The number does not fit.
    TooLarge,
}

impl NumberError {
    /// The error in words.
    pub open spec fn words(self) -> Seq<char> {
        match self {
            NumberError::Empty => "cannot parse integer from empty string"@,
            NumberError::InvalidDigit => "invalid digit found in string"@,
            NumberError::TooLarge => "number too large to fit in target type"@,
        }
    }

    /// The error in words.
    pub fn message(&self) -> (out: String)
        ensures
            out@ == self.words(),
    {
        match self {
            NumberError::Empty => "cannot parse integer from empty string".to_string(),
            NumberError::InvalidDigit => "invalid digit found in string".to_string(),
            NumberError::TooLarge => "number too large to fit in target type".to_string(),
        }
    }
}

/// The value of a decimal digit, or 10 for any other character.
pub open spec fn digit_value(c: char) -> nat {
    if '0' <= c <= '9' {
        (c as nat - '0' as nat) as nat
    } else {
        10
    }
}

/// Reads decimal digits from left to right, up to the first that is none or no longer fits.
pub open spec fn read_digits(s: Seq<char>, max: nat) -> Result<nat, NumberError>
    decreases s.len(),
{
    if s.len() == 0 {
        Ok(0)
    } else {
        match read_digits(s.drop_last(), max) {
            Err(e) => Err(e),
            Ok(n) => if digit_value(s.last()) >= 10 {
                Err(NumberError::InvalidDigit)
            } else if n * 10 + digit_value(s.last()) > max {
                Err(NumberError::TooLarge)
            } else {
                Ok(n * 10 + digit_value(s.last()))
            },
        }
    }
}

/// Reads an unsigned number of at most `max`: an optional `+` and then digits only.
pub open spec fn read_number(s: Seq<char>, max: nat) -> Result<nat, NumberError> {
    if s.len() == 0 {
        Err(NumberError::Empty)
    } else if s.len() == 1 && s[0] == '+' {
        Err(NumberError::InvalidDigit)
    } else if s[0] == '+' {
        read_digits(s.skip(1), max)
    } else {
        read_digits(s, max)
    }
}

/// Parses an unsigned number of at most `max`.
pub fn parse_number(s: &[char], max: u64) -> (r: Result<u64, NumberError>)
    ensures
        match r {
            Ok(n) => read_number(s@, max as nat) == Ok::<nat, NumberError>(n as nat) && n <= max,
            Err(e) => read_number(s@, max as nat) == Err::<nat, NumberError>(e),
        },
{
    if s.len() == 0 {
        return Err(NumberError::Empty);
    }
    if s.len() == 1 && s[0] == '+' {
        return Err(NumberError::InvalidDigit);
    }
    let from: usize = if s[0] == '+' {
        1
    } else {
        0
    };
    let ghost digits = s@.skip(from as int);
    assert(s@.skip(0) =~= s@);
    assert(digits.take(0) =~= Seq::empty());
    let mut n: u64 = 0;
    for i in from..s.len()
        invariant
            from <= s@.len(),
            digits == s@.skip(from as int),
            n <= max,
            read_digits(digits.take(i - from), max as nat) == Ok::<nat, NumberError>(n as nat),
            read_number(s@, max as nat) == read_digits(digits, max as nat),
    {
        let c = s[i];
        let ghost k = i - from;
        proof {
            assert(digits.take(k + 1).drop_last() =~= digits.take(k));
            assert(digits.take(k + 1).last() == c);
        }
        if !('0' <= c && c <= '9') {
            proof {
                lemma_read_error(digits, k + 1, max as nat);
            }
            return Err(NumberError::InvalidDigit);
        }
        let d: u64 = c as u64 - '0' as u64;
        let wide: u128 = n as u128 * 10 + d as u128;
        if wide > max as u128 {
            proof {
                lemma_read_error(digits, k + 1, max as nat);
            }
            return Err(NumberError::TooLarge);
        }
        n = wide as u64;
    }
    assert(digits.take(digits.len() as int) =~= digits);
    Ok(n)
}

/// An error met in a prefix is the error of the whole.
proof fn lemma_read_error(s: Seq<char>, k: int, max: nat)
    requires
        0 <= k <= s.len(),
        read_digits(s.take(k), max) is Err,
    ensures
        read_digits(s, max) == read_digits(s.take(k), max),
    decreases s.len() - k,
{
    if k == s.len() {
        assert(s.take(k) =~= s);
    } else {
        assert(s.take(k + 1).drop_last() =~= s.take(k));
        lemma_read_error(s, k + 1, max);
    }
}

/// Reading the decimal digits of a number gives the number.
pub proof fn law_decimal_reads_back(n: nat, max: nat)
    requires
        n <= max,
    ensures
        read_digits(decimal(n), max) == Ok::<nat, NumberError>(n),
        read_number(decimal(n), max) == Ok::<nat, NumberError>(n),
        decimal(n).len() > 0,
        forall|i: int| 0 <= i < decimal(n).len() ==> '0' <= #[trigger] decimal(n)[i] <= '9',
    decreases n,
{
    let s = decimal(n);
    if n < 10 {
        assert(s.drop_last() =~= Seq::empty());
        assert(s.last() == digit(n));
        assert(digit_value(digit(n)) == n);
        assert(read_digits(s.drop_last(), max) == Ok::<nat, NumberError>(0));
    } else {
        law_decimal_reads_back(n / 10, max);
        assert(s.drop_last() =~= decimal(n / 10));
        assert(digit_value(digit(n % 10)) == n % 10);
    }
}

/// Two numbers with the same decimal digits are the same.
pub proof fn law_decimal_is_injective(a: nat, b: nat)
    requires
        decimal(a) == decimal(b),
    ensures
        a == b,
{
    law_decimal_reads_back(a, a + b);
    law_decimal_reads_back(b, a + b);
}

/// The items with a separator between them.
pub open spec fn list_text(items: Seq<Seq<char>>, sep: char) -> Seq<char>
    decreases items.len(),
{
    if items.len() == 0 {
        Seq::empty()
    } else if items.len() == 1 {
        items[0]
    } else {
        list_text(items.drop_last(), sep).push(sep) + items.last()
    }
}

/// Characters other than the separator go to the last part.
proof fn lemma_parts_extend(s: Seq<char>, t: Seq<char>, sep: char)
    requires
        !t.contains(sep),
    ensures
        parts(s, sep).len() > 0,
        parts(s + t, sep) == parts(s, sep).drop_last().push(
            parts(s, sep).last() + t,
        ),
    decreases t.len(),
{
    lemma_parts_some(s, sep);
    let p = parts(s, sep);
    if t.len() == 0 {
        assert(s + t =~= s);
        assert(p.last() + t =~= p.last());
        assert(p.drop_last().push(p.last()) =~= p);
    } else {
        let u = t.drop_last();
        assert forall|i: int| 0 <= i < u.len() implies u[i] != sep by {
            assert(t[i] == u[i]);
        }
        lemma_parts_extend(s, u, sep);
        assert((s + t).drop_last() =~= s + u);
        assert(t.last() != sep);
        let q = parts(s + u, sep);
        assert(q.drop_last() =~= p.drop_last());
        assert((p.last() + u).push(t.last()) =~= p.last() + t);
    }
}

/// There is always at least one part.
proof fn lemma_parts_some(s: Seq<char>, sep: char)
    ensures
        parts(s, sep).len() > 0,
    decreases s.len(),
{
    if s.len() > 0 {
        lemma_parts_some(s.drop_last(), sep);
    }
}

/// Splitting undoes joining: the parts of a list are its items, where there is one at least and none holds
/// the separator.
pub proof fn law_parts_are_the_items(items: Seq<Seq<char>>, sep: char)
    requires
        items.len() > 0,
        forall|i: int| 0 <= i < items.len() ==> !(#[trigger] items[i]).contains(sep),
    ensures
        parts(list_text(items, sep), sep) == items,
    decreases items.len(),
{
    let last = items.last();
    assert(!items[items.len() - 1].contains(sep));
    if items.len() == 1 {
        let none = Seq::<char>::empty();
        lemma_parts_extend(none, last, sep);
        assert(none + last =~= last);
        assert(parts(list_text(items, sep), sep) =~= items);
    } else {
        let earlier = items.drop_last();
        assert forall|i: int| 0 <= i < earlier.len() implies !(#[trigger] earlier[i]).contains(sep) by {
            assert(earlier[i] == items[i]);
        }
        law_parts_are_the_items(earlier, sep);
        let before = list_text(earlier, sep);
        assert(before.push(sep).drop_last() =~= before);
        lemma_parts_extend(before.push(sep), last, sep);
        assert(earlier.push(Seq::<char>::empty()).drop_last() =~= earlier);
        assert(Seq::<char>::empty() + last =~= last);
        assert(parts(list_text(items, sep), sep) =~= items);
    }
}

/// Nothing but whitespace.
pub open spec fn is_blank(s: Seq<char>) -> bool {
    forall|i: int| 0 <= i < s.len() ==> is_space(#[trigger] s[i])
}

/// Whitespace in front is taken off.
proof fn lemma_trim_front(before: Seq<char>, s: Seq<char>)
    requires
        is_blank(before),
    ensures
        trimmed_start(before + s) == trimmed_start(s),
    decreases before.len(),
{
    if before.len() == 0 {
        assert(before + s =~= s);
    } else {
        let rest = before.skip(1);
        assert(is_space(before[0]));
        assert forall|i: int| 0 <= i < rest.len() implies is_space(#[trigger] rest[i]) by {
            assert(rest[i] == before[i + 1]);
        }
        lemma_trim_front(rest, s);
        assert((before + s).skip(1) =~= rest + s);
    }
}

/// Whitespace behind is taken off.
proof fn lemma_trim_back(s: Seq<char>, after: Seq<char>)
    requires
        is_blank(after),
    ensures
        trimmed_end(s + after) == trimmed_end(s),
    decreases after.len(),
{
    if after.len() == 0 {
        assert(s + after =~= s);
    } else {
        let rest = after.drop_last();
        assert(is_space(after[after.len() - 1]));
        assert forall|i: int| 0 <= i < rest.len() implies is_space(#[trigger] rest[i]) by {
            assert(rest[i] == after[i]);
        }
        lemma_trim_back(s, rest);
        assert((s + after).drop_last() =~= s + rest);
    }
}

/// Trimming takes off exactly the whitespace around a text that has none at its ends.
pub proof fn law_trim_takes_whitespace_off(before: Seq<char>, s: Seq<char>, after: Seq<char>)
    requires
        is_blank(before),
        is_blank(after),
        s.len() > 0,
        !is_space(s[0]),
        !is_space(s.last()),
    ensures
        trimmed(before + s + after) == s,
{
    assert(before + s + after =~= before + (s + after));
    lemma_trim_front(before, s + after);
    assert((s + after)[0] == s[0]);
    lemma_trim_back(s, after);
}

/// Numbers in decimal, each with whitespace around it.
pub open spec fn spaced(v: Seq<usize>, before: Seq<Seq<char>>, after: Seq<Seq<char>>) -> Seq<Seq<char>> {
    Seq::new(v.len(), |i: int| before[i] + decimal(v[i] as nat) + after[i])
}

/// There is nothing but whitespace around each of `n` items.
pub open spec fn blanks(n: nat, before: Seq<Seq<char>>, after: Seq<Seq<char>>) -> bool {
    &&& before.len() == n
    &&& after.len() == n
    &&& forall|i: int| 0 <= i < n ==> is_blank(#[trigger] before[i])
    &&& forall|i: int| 0 <= i < n ==> is_blank(#[trigger] after[i])
}

/// A number with whitespace around it is the number once it is trimmed, and holds no comma.
pub proof fn lemma_spaced_number(before: Seq<char>, n: nat, after: Seq<char>)
    requires
        is_blank(before),
        is_blank(after),
    ensures
        trimmed(before + decimal(n) + after) == decimal(n),
        !(before + decimal(n) + after).contains(','),
{
    law_decimal_reads_back(n, n);
    let d = decimal(n);
    let s = before + d + after;
    assert('0' <= d[0] <= '9');
    assert('0' <= d.last() <= '9');
    law_trim_takes_whitespace_off(before, d, after);
    assert forall|i: int| 0 <= i < s.len() implies s[i] != ',' by {
        if i < before.len() {
            assert(is_space(before[i]));
        } else if i < before.len() + d.len() {
            assert(s[i] == d[i - before.len()]);
        } else {
            assert(is_space(after[i - before.len() - d.len()]));
        }
    }
}

// ---------------------------------------------------------------------------------------------
// What the operations are for
// ---------------------------------------------------------------------------------------------

/// Nothing is left of a text of nothing but whitespace; anything else leaves something.
pub proof fn law_only_blanks_trim_to_nothing(s: Seq<char>)
    ensures
        trimmed(s).len() == 0 <==> is_blank(s),
{
    if is_blank(s) {
        let none = Seq::<char>::empty();
        lemma_trim_front(s, none);
        assert(s + none =~= s);
    } else {
        let k = choose|k: int| 0 <= k < s.len() && !is_space(#[trigger] s[k]);
        lemma_trim_start_keeps(s, k);
        let t = trimmed_start(s);
        let j = k - (s.len() - t.len());
        assert(t[j] == s[k]);
        lemma_trim_end_keeps(t, j);
    }
}

/// Trimming the start keeps everything from a character that is no whitespace on.
proof fn lemma_trim_start_keeps(s: Seq<char>, k: int)
    requires
        0 <= k < s.len(),
        !is_space(s[k]),
    ensures
        s.len() - k <= trimmed_start(s).len() <= s.len(),
        trimmed_start(s) == s.skip(s.len() - trimmed_start(s).len()),
    decreases s.len(),
{
    if is_space(s[0]) {
        lemma_trim_start_keeps(s.skip(1), k - 1);
        let t = trimmed_start(s);
        assert(s.skip(1).skip(s.len() - 1 - t.len()) =~= s.skip(s.len() - t.len()));
    } else {
        assert(s.skip(0) =~= s);
    }
}

/// Trimming the end keeps everything up to a character that is no whitespace.
proof fn lemma_trim_end_keeps(s: Seq<char>, k: int)
    requires
        0 <= k < s.len(),
        !is_space(s[k]),
    ensures
        trimmed_end(s).len() > k,
    decreases s.len(),
{
    if is_space(s.last()) {
        lemma_trim_end_keeps(s.drop_last(), k);
    }
}

/// Words on both sides of a gap add up.
pub proof fn law_words_add_up(a: Seq<char>, gap: char, b: Seq<char>)
    requires
        is_space(gap),
    ensures
        words(a.push(gap) + b) == words(a) + words(b),
    decreases b.len(),
{
    let s = a.push(gap) + b;
    if b.len() == 0 {
        assert(s =~= a.push(gap));
        assert(s.drop_last() =~= a);
    } else {
        law_words_add_up(a, gap, b.drop_last());
        assert(s.drop_last() =~= a.push(gap) + b.drop_last());
        if b.len() == 1 {
            assert(s[s.len() - 2] == gap);
        } else {
            assert(s[s.len() - 2] == b[b.len() - 2]);
        }
    }
}

/// Whitespace holds no word.
pub proof fn law_blanks_hold_no_word(s: Seq<char>)
    requires
        is_blank(s),
    ensures
        words(s) == 0,
    decreases s.len(),
{
    if s.len() > 0 {
        assert(is_space(s[s.len() - 1]));
        assert forall|i: int| 0 <= i < s.drop_last().len() implies is_space(
            #[trigger] s.drop_last()[i],
        ) by {
            assert(s[i] == s.drop_last()[i]);
        }
        law_blanks_hold_no_word(s.drop_last());
    }
}

/// Characters without a gap between them are one word.
pub proof fn law_no_gap_is_one_word(s: Seq<char>)
    requires
        s.len() > 0,
        forall|i: int| 0 <= i < s.len() ==> !is_space(#[trigger] s[i]),
    ensures
        words(s) == 1,
    decreases s.len(),
{
    assert(!is_space(s[s.len() - 1]));
    if s.len() > 1 {
        assert forall|i: int| 0 <= i < s.drop_last().len() implies !is_space(
            #[trigger] s.drop_last()[i],
        ) by {
            assert(s[i] == s.drop_last()[i]);
        }
        assert(!is_space(s[s.len() - 2]));
        law_no_gap_is_one_word(s.drop_last());
    } else {
        assert(words(s.drop_last()) == 0);
    }
}

/// Joining undoes splitting: the parts with the separator between them are the text, and no part holds a
/// separator.
pub proof fn law_joining_undoes_splitting(s: Seq<char>, sep: char)
    ensures
        parts(s, sep).len() > 0,
        list_text(parts(s, sep), sep) == s,
        forall|i: int| 0 <= i < parts(s, sep).len() ==> !(#[trigger] parts(s, sep)[i]).contains(sep),
    decreases s.len(),
{
    let p = parts(s, sep);
    if s.len() > 0 {
        let before = parts(s.drop_last(), sep);
        law_joining_undoes_splitting(s.drop_last(), sep);
        if s.last() == sep {
            assert(p.drop_last() =~= before);
            assert(list_text(p, sep) =~= s);
        } else {
            assert(p.drop_last() =~= before.drop_last());
            if before.len() == 1 {
                assert(p[0] =~= before[0].push(s.last()));
            } else {
                assert(p.last() =~= before.last().push(s.last()));
            }
            assert(list_text(p, sep) =~= list_text(before, sep).push(s.last()));
            assert(list_text(p, sep) =~= s);
            assert(!before[before.len() - 1].contains(sep));
            assert forall|i: int| 0 <= i < p.len() implies !(#[trigger] p[i]).contains(sep) by {
                if i < before.len() - 1 {
                    assert(p[i] == before[i]);
                } else {
                    let old = before.last();
                    assert(p[i] == old.push(s.last()));
                    assert forall|k: int| 0 <= k < p[i].len() implies p[i][k] != sep by {
                        if k < old.len() {
                            assert(p[i][k] == old[k]);
                        }
                    }
                }
            }
        }
    } else {
        assert(list_text(p, sep) =~= s);
    }
}

/// A text occurs where something stands before it and something behind it, and nowhere else.
pub proof fn law_occurs_inside(s: Seq<char>, needle: Seq<char>)
    ensures
        occurs(s, needle) <==> exists|a: Seq<char>, b: Seq<char>| s == #[trigger] (a + needle + b),
{
    if occurs(s, needle) {
        let at = choose|at: int| occurs_at(s, needle, at);
        let a = s.take(at);
        let b = s.skip(at + needle.len());
        assert(s =~= a + needle + b);
    }
    if exists|a: Seq<char>, b: Seq<char>| s == #[trigger] (a + needle + b) {
        let (a, b) = choose|a: Seq<char>, b: Seq<char>| s == #[trigger] (a + needle + b);
        assert(s.subrange(a.len() as int, (a.len() + needle.len()) as int) =~= needle);
        assert(occurs_at(s, needle, a.len() as int));
    }
}

/// A text in which the searched one does not occur stays as it is.
pub proof fn law_nothing_to_replace(s: Seq<char>, from: Seq<char>, to: Seq<char>)
    requires
        !occurs(s, from),
    ensures
        replaced(s, from, to) == s,
    decreases s.len(),
{
    if s.len() > 0 {
        assert(!occurs_at(s, from, 0));
        let rest = s.skip(1);
        assert forall|at: int| !occurs_at(rest, from, at) by {
            if occurs_at(rest, from, at) {
                assert(s.subrange(at + 1, at + 1 + from.len()) =~= rest.subrange(
                    at,
                    at + from.len(),
                ));
                assert(occurs_at(s, from, at + 1));
            }
        }
        law_nothing_to_replace(rest, from, to);
        assert(seq![s[0]] + rest =~= s);
    }
}

/// The first occurrence is replaced, what stands before it stays, and the rest is treated alike.
pub proof fn law_first_is_replaced(a: Seq<char>, from: Seq<char>, b: Seq<char>, to: Seq<char>)
    requires
        from.len() > 0,
        forall|at: int| 0 <= at < a.len() ==> !occurs_at(a + from + b, from, at),
    ensures
        replaced(a + from + b, from, to) == a + to + replaced(b, from, to),
    decreases a.len(),
{
    let s = a + from + b;
    if a.len() == 0 {
        assert(s.subrange(0, from.len() as int) =~= from);
        assert(occurs_at(s, from, 0));
        assert(s.skip(from.len() as int) =~= b);
        assert(a + to + replaced(b, from, to) =~= to + replaced(b, from, to));
    } else {
        assert(!occurs_at(s, from, 0));
        let rest = a.skip(1);
        assert(s.skip(1) =~= rest + from + b);
        assert forall|at: int| 0 <= at < rest.len() implies !occurs_at(rest + from + b, from, at) by {
            if occurs_at(rest + from + b, from, at) {
                assert(s.subrange(at + 1, at + 1 + from.len()) =~= (rest + from + b).subrange(
                    at,
                    at + from.len(),
                ));
                assert(occurs_at(s, from, at + 1));
            }
        }
        law_first_is_replaced(rest, from, b, to);
        assert(replaced(s, from, to) =~= a + to + replaced(b, from, to));
    }
}

/// Numbers are written in base ten: below ten there is one digit, whose code lies as far behind that of
/// `0` as the number says, and a digit behind a number is ten times the number and the digit.
pub proof fn law_decimal_is_base_ten(n: nat, d: nat)
    requires
        n > 0,
        d < 10,
    ensures
        decimal(d).len() == 1,
        decimal(d)[0] as nat == '0' as nat + d,
        decimal(10 * n + d) == decimal(n) + decimal(d),
{
    assert((10 * n + d) / 10 == n);
    assert((10 * n + d) % 10 == d);
    assert(decimal(10 * n + d) =~= decimal(n) + decimal(d));
}

/// Two lists written one behind the other, with a comma and a space between them, are the list of both.
pub proof fn law_lists_join(a: Seq<usize>, b: Seq<usize>)
    requires
        a.len() > 0,
        b.len() > 0,
    ensures
        listed(a + b) == listed(a) + ", "@ + listed(b),
    decreases b.len(),
{
    let all = a + b;
    assert(all.last() == b.last());
    if b.len() == 1 {
        assert(all.drop_last() =~= a);
    } else {
        law_lists_join(a, b.drop_last());
        assert(all.drop_last() =~= a + b.drop_last());
        assert(listed(all) =~= listed(a) + ", "@ + listed(b));
    }
}

/// A list of one is the number, and an empty one is nothing.
pub proof fn law_short_lists(n: usize)
    ensures
        listed(seq![n]) == decimal(n as nat),
        listed(Seq::empty()) == Seq::<char>::empty(),
{
}

/// Zeros in front change nothing.
proof fn lemma_zeros_read_away(zeros: nat, t: Seq<char>, max: nat)
    ensures
        read_digits(Seq::new(zeros, |i: int| '0') + t, max) == read_digits(t, max),
    decreases t.len(), zeros,
{
    let z = Seq::new(zeros, |i: int| '0');
    if t.len() == 0 {
        assert(z + t =~= z);
        if zeros > 0 {
            let less = Seq::new((zeros - 1) as nat, |i: int| '0');
            lemma_zeros_read_away((zeros - 1) as nat, t, max);
            assert(z.drop_last() =~= less);
            assert(less + t =~= less);
            assert(z.last() == '0');
        }
    } else {
        lemma_zeros_read_away(zeros, t.drop_last(), max);
        assert((z + t).drop_last() =~= z + t.drop_last());
    }
}

/// A number that does not fit is told apart from one that does.
proof fn lemma_too_large(n: nat, max: nat)
    requires
        n > max,
    ensures
        read_digits(decimal(n), max) == Err::<nat, NumberError>(NumberError::TooLarge),
    decreases n,
{
    let s = decimal(n);
    law_decimal_reads_back(n, n);
    if n < 10 {
        assert(s.drop_last() =~= Seq::empty());
        assert(s.last() == digit(n));
        assert(digit_value(digit(n)) == n);
        assert(read_digits(s.drop_last(), max) == Ok::<nat, NumberError>(0));
    } else {
        assert(s.drop_last() =~= decimal(n / 10));
        assert(digit_value(digit(n % 10)) == n % 10);
        if n / 10 > max {
            lemma_too_large(n / 10, max);
        } else {
            law_decimal_reads_back(n / 10, max);
        }
    }
}

/// A number in decimal, with any zeros in front and with or without a sign, is read as the number where it
/// fits, and is too large where it does not.
pub proof fn law_numbers_are_read(zeros: nat, n: nat, max: nat)
    ensures
        ({
            let digits = Seq::new(zeros, |i: int| '0') + decimal(n);
            let expected = if n <= max {
                Ok::<nat, NumberError>(n)
            } else {
                Err::<nat, NumberError>(NumberError::TooLarge)
            };
            &&& read_number(digits, max) == expected
            &&& read_number(seq!['+'] + digits, max) == expected
        }),
{
    let z = Seq::new(zeros, |i: int| '0');
    let digits = z + decimal(n);
    law_decimal_reads_back(n, n);
    lemma_zeros_read_away(zeros, decimal(n), max);
    if n <= max {
        law_decimal_reads_back(n, max);
    } else {
        lemma_too_large(n, max);
    }
    if zeros > 0 {
        assert(digits[0] == '0');
    } else {
        assert(digits[0] == decimal(n)[0]);
    }
    let signed = seq!['+'] + digits;
    assert(signed.skip(1) =~= digits);
}

/// Only digits are a number: one other character, but for a sign in front, and it is an error; and so is
/// nothing at all, and a sign alone.
pub proof fn law_only_digits_are_numbers(s: Seq<char>, i: int, max: nat)
    requires
        0 <= i < s.len(),
        !('0' <= s[i] <= '9'),
        i == 0 ==> s[i] != '+' || s.len() == 1,
    ensures
        read_number(s, max) is Err,
        read_number(Seq::empty(), max) == Err::<nat, NumberError>(NumberError::Empty),
{
    if s.len() > 1 || s[0] != '+' {
        let from: int = if s[0] == '+' {
            1
        } else {
            0
        };
        let t = s.skip(from);
        assert(s.skip(0) =~= s);
        let k = i - from;
        assert(t.take(k + 1).last() == s[i]);
        assert(read_digits(t.take(k + 1), max) is Err);
        lemma_read_error(t, k + 1, max);
    }
}

/// Strings and characters are taken as they are, item by item.
pub proof fn law_rows_of_texts(v: Seq<String>, w: Seq<Vec<char>>)
    ensures
        strings(v).len() == v.len(),
        forall|i: int| 0 <= i < v.len() ==> #[trigger] strings(v)[i] == v[i]@,
        texts(w).len() == w.len(),
        forall|i: int| 0 <= i < w.len() ==> #[trigger] texts(w)[i] == w[i]@,
{
}

} // verus!
