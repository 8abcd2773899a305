//! Text as sequences of characters: comparing, cutting, trimming and printing.

use vstd::prelude::*;

verus! {

/// `String::push` appends one character to the end of the string.
pub assume_specification[ String::push ](s: &mut String, c: char)
    ensures
        final(s)@ == old(s)@.push(c),
;

/// The characters of a text, in order.
pub fn chars_of(text: &str) -> (chars: Vec<char>)
    ensures
        chars@ == text@,
{
    let mut chars: Vec<char> = Vec::new();
    for c in it: text.chars()
        invariant
            chars@ == it.seq().take(it.index() as int),
            it.seq() == text@,
    {
        chars.push(c);
    }
    chars
}

/// The text made of `chars[from..to]`.
pub fn text_of(chars: &Vec<char>, from: usize, to: usize) -> (text: String)
    requires
        from <= to <= chars@.len(),
    ensures
        text@ == chars@.subrange(from as int, to as int),
{
    let mut text = String::new();
    let mut i: usize = from;
    while i < to
        invariant
            from <= i <= to <= chars@.len(),
            text@ == chars@.subrange(from as int, i as int),
        decreases to - i,
    {
        text.push(chars[i]);
        i += 1;
    }
    text
}

/// Whether two texts hold the same characters.
pub fn same(a: &str, b: &str) -> (r: bool)
    ensures
        r == (a@ == b@),
{
    let a_owned = a.to_owned();
    let b_owned = b.to_owned();
    a_owned == b_owned
}

/// The dictionary order of texts by code point, which is also the order of
/// their UTF-8 bytes.
pub open spec fn precedes(a: Seq<char>, b: Seq<char>) -> bool
    decreases b.len(),
{
    if b.len() == 0 {
        false
    } else if a.len() == 0 {
        true
    } else if a[0] != b[0] {
        a[0] < b[0]
    } else {
        precedes(a.drop_first(), b.drop_first())
    }
}

/// No text precedes itself.
pub proof fn lemma_precedes_irreflexive(a: Seq<char>)
    ensures
        !precedes(a, a),
    decreases a.len(),
{
    if a.len() > 0 {
        lemma_precedes_irreflexive(a.drop_first());
    }
}

/// The order of texts is transitive.
pub proof fn lemma_precedes_transitive(a: Seq<char>, b: Seq<char>, c: Seq<char>)
    requires
        precedes(a, b),
        precedes(b, c),
    ensures
        precedes(a, c),
    decreases c.len(),
{
    if a.len() > 0 && a[0] == b[0] && b[0] == c[0] {
        lemma_precedes_transitive(a.drop_first(), b.drop_first(), c.drop_first());
    }
}

/// Of two different texts one precedes the other.
pub proof fn lemma_precedes_total(a: Seq<char>, b: Seq<char>)
    ensures
        precedes(a, b) || precedes(b, a) || a == b,
    decreases b.len(),
{
    if a.len() > 0 && b.len() > 0 {
        if a[0] == b[0] {
            lemma_precedes_total(a.drop_first(), b.drop_first());
            if a.drop_first() == b.drop_first() {
                assert(a == seq![a[0]] + a.drop_first());
                assert(b == seq![b[0]] + b.drop_first());
            }
        }
    } else if a.len() == 0 && b.len() == 0 {
        assert(a =~= b);
    }
}

/// Whether `a` comes before `b` in dictionary order.
pub fn comes_before(a: &str, b: &str) -> (r: bool)
    ensures
        r == precedes(a@, b@),
{
    let x = chars_of(a);
    let y = chars_of(b);
    let mut i: usize = 0;
    assert(x@.skip(0) =~= x@);
    assert(y@.skip(0) =~= y@);
    while i < x.len() && i < y.len() && x[i] == y[i]
        invariant
            i <= x@.len(),
            i <= y@.len(),
            precedes(x@, y@) == precedes(x@.skip(i as int), y@.skip(i as int)),
        decreases x@.len() - i,
    {
        assert(x@.skip(i as int).drop_first() =~= x@.skip(i + 1));
        assert(y@.skip(i as int).drop_first() =~= y@.skip(i + 1));
        i += 1;
    }
    if i >= y.len() {
        false
    } else if i >= x.len() {
        true
    } else {
        x[i] < y[i]
    }
}

/// Whether a character is an ASCII digit.
pub open spec fn is_digit(c: char) -> bool {
    '0' <= c <= '9'
}

/// Whether every character of a text is an ASCII digit.
pub open spec fn all_digits(s: Seq<char>) -> bool {
    forall|i: int| 0 <= i < s.len() ==> is_digit(#[trigger] s[i])
}

/// The number that a text of decimal digits writes.
pub open spec fn digits_value(s: Seq<char>) -> int
    decreases s.len(),
{
    if s.len() == 0 {
        0
    } else {
        digits_value(s.drop_last()) * 10 + (s.last() as int - '0' as int)
    }
}

/// Whether a text is a decimal literal whose point, if it has one, stands at
/// `point`; a literal without a point has it at the end.
pub open spec fn literal_point(s: Seq<char>, point: int) -> bool {
    &&& 0 < point <= s.len()
    &&& all_digits(s.take(point))
    &&& point < s.len() ==> {
        &&& s[point] == '.'
        &&& point + 1 < s.len()
        &&& all_digits(s.skip(point + 1))
    }
}

/// Digits, or digits, a point and digits.
pub open spec fn is_decimal_literal(s: Seq<char>) -> bool {
    exists|point: int| literal_point(s, point)
}

/// The digits of a decimal literal read as one integer.
pub open spec fn literal_numerator(s: Seq<char>) -> int {
    let point = choose|point: int| literal_point(s, point);
    if point < s.len() {
        digits_value(s.take(point) + s.skip(point + 1))
    } else {
        digits_value(s)
    }
}

/// The power of ten that a decimal literal divides its digits by.
pub open spec fn literal_denominator(s: Seq<char>) -> int {
    let point = choose|point: int| literal_point(s, point);
    if point < s.len() {
        vstd::arithmetic::power::pow(10, (s.len() - point - 1) as nat)
    } else {
        1
    }
}

/// A decimal literal divides by something.
pub proof fn lemma_denominator_positive(s: Seq<char>)
    ensures
        literal_denominator(s) > 0,
{
    let point = choose|point: int| literal_point(s, point);
    if point < s.len() {
        vstd::arithmetic::power::lemma_pow_positive(10, (s.len() - point - 1) as nat);
    }
}

/// The character of a decimal digit.
pub open spec fn digit_char(d: int) -> char {
    if d == 0 {
        '0'
    } else if d == 1 {
        '1'
    } else if d == 2 {
        '2'
    } else if d == 3 {
        '3'
    } else if d == 4 {
        '4'
    } else if d == 5 {
        '5'
    } else if d == 6 {
        '6'
    } else if d == 7 {
        '7'
    } else if d == 8 {
        '8'
    } else {
        '9'
    }
}

/// A natural number in decimal digits, without leading zeros.
pub open spec fn decimal(n: nat) -> Seq<char>
    decreases n,
{
    if n < 10 {
        seq![digit_char(n as int)]
    } else {
        decimal(n / 10).push(digit_char((n % 10) as int))
    }
}

/// Reading the decimal digits of a number gives the number back.
pub proof fn lemma_decimal_reads_back(n: nat)
    ensures
        all_digits(decimal(n)),
        decimal(n).len() > 0,
        digits_value(decimal(n)) == n,
    decreases n,
{
    let s = decimal(n);
    if n < 10 {
        assert(s.drop_last() =~= Seq::<char>::empty());
        assert(digits_value(s.drop_last()) == 0);
    } else {
        lemma_decimal_reads_back(n / 10);
        assert(s.drop_last() =~= decimal(n / 10));
    }
}

fn digit_of(d: u64) -> (c: char)
    requires
        d < 10,
    ensures
        c == digit_char(d as int),
{
    match d {
        0 => '0',
        1 => '1',
        2 => '2',
        3 => '3',
        4 => '4',
        5 => '5',
        6 => '6',
        7 => '7',
        8 => '8',
        _ => '9',
    }
}

/// Prints a natural number in decimal digits.
pub fn decimal_text(n: u64) -> (text: String)
    ensures
        text@ == decimal(n as nat),
    decreases n,
{
    if n < 10 {
        let mut text = String::new();
        text.push(digit_of(n));
        assert(text@ =~= decimal(n as nat));
        text
    } else {
        let mut text = decimal_text(n / 10);
        text.push(digit_of(n % 10));
        text
    }
}

/// The number that an unsigned integer text writes: digits, with or without a
/// leading plus sign, of a value that fits 64 bits.
pub open spec fn natural(s: Seq<char>) -> Option<u64> {
    let digits = if s.len() > 0 && s[0] == '+' {
        s.drop_first()
    } else {
        s
    };
    if digits.len() > 0 && all_digits(digits) && digits_value(digits) <= u64::MAX {
        Some(digits_value(digits) as u64)
    } else {
        None
    }
}

/// Digits before others weigh at least as much as they write alone.
proof fn lemma_digits_grow(s: Seq<char>, n: int)
    requires
        all_digits(s),
        0 <= n <= s.len(),
    ensures
        0 <= digits_value(s.take(n)) <= digits_value(s),
    decreases s.len(),
{
    if s.len() == 0 {
        assert(s.take(n) =~= s);
    } else {
        let front = s.drop_last();
        assert(is_digit(s.last()));
        assert forall|i: int| 0 <= i < front.len() implies is_digit(#[trigger] front[i]) by {
            assert(is_digit(s[i]));
        }
        if n == s.len() {
            lemma_digits_grow(front, front.len() as int);
            assert(s.take(n) =~= s);
            assert(front.take(front.len() as int) =~= front);
        } else {
            lemma_digits_grow(front, n);
            assert(s.take(n) =~= front.take(n));
        }
    }
}

/// Reads an unsigned integer.
pub fn parse_natural(text: &str) -> (r: Option<u64>)
    ensures
        r == natural(text@),
{
    let chars = chars_of(text);
    let start: usize = if chars.len() > 0 && chars[0] == '+' {
        1
    } else {
        0
    };
    let ghost digits = chars@.skip(start as int);
    assert(digits == (if chars@.len() > 0 && chars@[0] == '+' {
        chars@.drop_first()
    } else {
        chars@
    }));
    if start == chars.len() {
        return None;
    }
    let mut value: u64 = 0;
    let mut i: usize = start;
    assert(digits.take(0) =~= Seq::<char>::empty());
    while i < chars.len()
        invariant
            start <= i <= chars@.len(),
            digits == chars@.skip(start as int),
            all_digits(digits.take(i - start)),
            value == digits_value(digits.take(i - start)),
            natural(text@) == (if digits.len() > 0 && all_digits(digits) && digits_value(digits)
                <= u64::MAX {
                Some(digits_value(digits) as u64)
            } else {
                None
            }),
        decreases chars@.len() - i,
    {
        let c = chars[i];
        let ghost k = i - start;
        assert(digits[k] == c);
        if !('0' <= c && c <= '9') {
            assert(!is_digit(digits[k]));
            return None;
        }
        let ghost next = digits.take(k + 1);
        proof {
            assert(next.drop_last() =~= digits.take(k));
            assert forall|j: int| 0 <= j < next.len() implies is_digit(#[trigger] next[j]) by {
                if j < k {
                    assert(is_digit(digits.take(k)[j]));
                }
            }
            if all_digits(digits) {
                lemma_digits_grow(digits, k + 1);
            }
        }
        let d: u64 = (c as u32 - '0' as u32) as u64;
        if value > (u64::MAX - d) / 10 {
            assert(digits_value(next) > u64::MAX);
            return None;
        }
        value = value * 10 + d;
        i += 1;
    }
    assert(digits.take(digits.len() as int) =~= digits);
    Some(value)
}

/// Unicode white space.
pub open spec fn is_space(c: char) -> bool {
    ||| '\u{9}' <= c <= '\u{d}'
    ||| c == '\u{20}'
    ||| c == '\u{85}'
    ||| c == '\u{a0}'
    ||| c == '\u{1680}'
    ||| '\u{2000}' <= c <= '\u{200a}'
    ||| c == '\u{2028}'
    ||| c == '\u{2029}'
    ||| c == '\u{202f}'
    ||| c == '\u{205f}'
    ||| c == '\u{3000}'
}

/// Whether a character is Unicode white space.
pub fn is_whitespace(c: char) -> (r: bool)
    ensures
        r == is_space(c),
{
    ('\u{9}' <= c && c <= '\u{d}') || c == '\u{20}' || c == '\u{85}' || c == '\u{a0}' || c
        == '\u{1680}' || ('\u{2000}' <= c && c <= '\u{200a}') || c == '\u{2028}' || c == '\u{2029}'
        || c == '\u{202f}' || c == '\u{205f}' || c == '\u{3000}'
}

/// A text without its leading white space.
pub open spec fn trim_start(s: Seq<char>) -> Seq<char>
    decreases s.len(),
{
    if s.len() > 0 && is_space(s[0]) {
        trim_start(s.drop_first())
    } else {
        s
    }
}

/// A text without its trailing white space.
pub open spec fn trim_end(s: Seq<char>) -> Seq<char>
    decreases s.len(),
{
    if s.len() > 0 && is_space(s.last()) {
        trim_end(s.drop_last())
    } else {
        s
    }
}

/// A text without the white space around it.
pub open spec fn trimmed(s: Seq<char>) -> Seq<char> {
    trim_end(trim_start(s))
}

/// Cuts the white space around a text.
pub fn trim(text: &str) -> (r: String)
    ensures
        r@ == trimmed(text@),
{
    let chars = chars_of(text);
    let mut from: usize = 0;
    assert(chars@.skip(0) =~= chars@);
    while from < chars.len() && is_whitespace(chars[from])
        invariant
            from <= chars@.len(),
            trim_start(chars@) == trim_start(chars@.skip(from as int)),
        decreases chars@.len() - from,
    {
        assert(chars@.skip(from as int).drop_first() =~= chars@.skip(from + 1));
        from += 1;
    }
    let ghost rest = chars@.skip(from as int);
    assert(trim_start(chars@) == rest);
    let mut to: usize = chars.len();
    assert(chars@.subrange(from as int, to as int) =~= rest);
    while from < to && is_whitespace(chars[to - 1])
        invariant
            from <= to <= chars@.len(),
            trim_end(rest) == trim_end(chars@.subrange(from as int, to as int)),
        decreases to,
    {
        assert(chars@.subrange(from as int, to as int).drop_last() =~= chars@.subrange(
            from as int,
            to - 1,
        ));
        to -= 1;
    }
    text_of(&chars, from, to)
}

/// A text without the trailing characters that are among `cut`.
pub open spec fn without_trailing(s: Seq<char>, cut: Seq<char>) -> Seq<char>
    decreases s.len(),
{
    if s.len() > 0 && cut.contains(s.last()) {
        without_trailing(s.drop_last(), cut)
    } else {
        s
    }
}

/// Cuts the trailing characters of a text that are among `cut`.
pub fn strip_trailing(text: &str, cut: &Vec<char>) -> (r: String)
    ensures
        r@ == without_trailing(text@, cut@),
{
    let chars = chars_of(text);
    let mut to: usize = chars.len();
    assert(chars@.subrange(0, to as int) =~= chars@);
    while to > 0 && holds(cut, chars[to - 1])
        invariant
            to <= chars@.len(),
            without_trailing(chars@, cut@) == without_trailing(
                chars@.subrange(0, to as int),
                cut@,
            ),
        decreases to,
    {
        assert(chars@.subrange(0, to as int).drop_last() =~= chars@.subrange(0, to - 1));
        to -= 1;
    }
    text_of(&chars, 0, to)
}

fn holds(chars: &Vec<char>, c: char) -> (r: bool)
    ensures
        r == chars@.contains(c),
{
    let mut i: usize = 0;
    while i < chars.len()
        invariant
            i <= chars@.len(),
            forall|k: int| 0 <= k < i ==> chars@[k] != c,
        decreases chars@.len() - i,
    {
        if chars[i] == c {
            return true;
        }
        i += 1;
    }
    false
}

/// The place of the first `c` at or after `i`, or the length of the text.
pub open spec fn index_from(s: Seq<char>, i: int, c: char) -> int
    decreases s.len() - i,
{
    if i >= s.len() || s[i] == c {
        i
    } else {
        index_from(s, i + 1, c)
    }
}

/// The first `c` is not before the place where the search starts, and no `c`
/// stands between.
pub proof fn lemma_index_from(s: Seq<char>, i: int, c: char)
    requires
        0 <= i <= s.len(),
    ensures
        i <= index_from(s, i, c) <= s.len(),
        index_from(s, i, c) < s.len() ==> s[index_from(s, i, c)] == c,
        forall|k: int| i <= k < index_from(s, i, c) ==> s[k] != c,
    decreases s.len() - i,
{
    if i < s.len() && s[i] != c {
        lemma_index_from(s, i + 1, c);
    }
}

fn find_from(chars: &Vec<char>, from: usize, c: char) -> (r: usize)
    requires
        from <= chars@.len(),
    ensures
        r == index_from(chars@, from as int, c),
        from <= r <= chars@.len(),
{
    let mut i: usize = from;
    while i < chars.len() && chars[i] != c
        invariant
            from <= i <= chars@.len(),
            index_from(chars@, from as int, c) == index_from(chars@, i as int, c),
        decreases chars@.len() - i,
    {
        i += 1;
    }
    i
}

/// What stands before and after the first `c`.
pub open spec fn halves(s: Seq<char>, c: char) -> Option<(Seq<char>, Seq<char>)> {
    let at = index_from(s, 0, c);
    if at < s.len() {
        Some((s.take(at), s.skip(at + 1)))
    } else {
        None
    }
}

/// Splits a text at the first `c`.
pub fn split_once(text: &str, c: char) -> (r: Option<(String, String)>)
    ensures
        match r {
            Some((before, after)) => halves(text@, c) == Some((before@, after@)),
            None => halves(text@, c) is None,
        },
{
    let chars = chars_of(text);
    let at = find_from(&chars, 0, c);
    if at < chars.len() {
        let before = text_of(&chars, 0, at);
        let after = text_of(&chars, at + 1, chars.len());
        assert(before@ =~= chars@.take(at as int));
        assert(after@ =~= chars@.skip(at + 1));
        Some((before, after))
    } else {
        None
    }
}

/// What follows a leading `c`.
pub open spec fn after_prefix(s: Seq<char>, c: char) -> Option<Seq<char>> {
    if s.len() > 0 && s[0] == c {
        Some(s.drop_first())
    } else {
        None
    }
}

/// Takes a leading `c` off a text.
pub fn strip_prefix(text: &str, c: char) -> (r: Option<String>)
    ensures
        match r {
            Some(rest) => after_prefix(text@, c) == Some(rest@),
            None => after_prefix(text@, c) is None,
        },
{
    let chars = chars_of(text);
    if chars.len() > 0 && chars[0] == c {
        let rest = text_of(&chars, 1, chars.len());
        assert(rest@ =~= chars@.drop_first());
        Some(rest)
    } else {
        None
    }
}

/// A line without the carriage return that ends it.
pub open spec fn without_return(s: Seq<char>) -> Seq<char> {
    if s.len() > 0 && s.last() == '\r' {
        s.drop_last()
    } else {
        s
    }
}

/// The lines of a text from `i` on. A line ends with a line feed or with a
/// carriage return and a line feed; the end of the text ends the last.
pub open spec fn lines_from(s: Seq<char>, i: int) -> Seq<Seq<char>>
    decreases s.len() - i,
{
    if i < 0 || i >= s.len() {
        Seq::empty()
    } else {
        let end = index_from(s, i, '\n');
        proof {
            lemma_index_from(s, i, '\n');
        }
        if end >= s.len() {
            seq![s.skip(i)]
        } else {
            seq![without_return(s.subrange(i, end))] + lines_from(s, end + 1)
        }
    }
}

/// What each text of a list says.
pub open spec fn texts(list: Seq<String>) -> Seq<Seq<char>> {
    list.map_values(|s: String| s@)
}

/// The lines of a text.
pub fn lines(text: &str) -> (r: Vec<String>)
    ensures
        texts(r@) == lines_from(text@, 0),
{
    let chars = chars_of(text);
    let mut r: Vec<String> = Vec::new();
    let mut i: usize = 0;
    assert(texts(r@) + lines_from(chars@, 0) =~= lines_from(chars@, 0));
    while i < chars.len()
        invariant
            i <= chars@.len(),
            lines_from(chars@, 0) == texts(r@) + lines_from(chars@, i as int),
        decreases chars@.len() - i,
    {
        let end = find_from(&chars, i, '\n');
        let ghost before = r@;
        let line: String;
        let next: usize;
        if end >= chars.len() {
            line = text_of(&chars, i, chars.len());
            next = chars.len();
            assert(line@ =~= chars@.skip(i as int));
        } else {
            if i < end && chars[end - 1] == '\r' {
                line = text_of(&chars, i, end - 1);
            } else {
                line = text_of(&chars, i, end);
            }
            next = end + 1;
            assert(line@ =~= without_return(chars@.subrange(i as int, end as int)));
        }
        let ghost said = line@;
        r.push(line);
        proof {
            assert(texts(r@) =~= texts(before) + seq![said]);
            assert(lines_from(chars@, i as int) =~= seq![said] + lines_from(chars@, next as int));
            assert(texts(before) + (seq![said] + lines_from(chars@, next as int)) =~= (texts(before)
                + seq![said]) + lines_from(chars@, next as int));
        }
        i = next;
    }
    assert(texts(r@) + lines_from(chars@, i as int) =~= texts(r@));
    r
}

/// Texts one after another, with a separator between each two.
pub open spec fn joined(parts: Seq<Seq<char>>, separator: Seq<char>) -> Seq<char>
    decreases parts.len(),
{
    if parts.len() == 0 {
        Seq::empty()
    } else if parts.len() == 1 {
        parts[0]
    } else {
        joined(parts.drop_last(), separator) + separator + parts.last()
    }
}

/// Joins texts with a separator between each two.
pub fn join(parts: &Vec<String>, separator: &str) -> (r: String)
    ensures
        r@ == joined(texts(parts@), separator@),
{
    let mut r = String::new();
    let mut i: usize = 0;
    let ghost all = texts(parts@);
    while i < parts.len()
        invariant
            i <= parts@.len(),
            all == texts(parts@),
            r@ == joined(all.take(i as int), separator@),
        decreases parts@.len() - i,
    {
        let ghost next = all.take(i + 1);
        assert(next.drop_last() =~= all.take(i as int));
        assert(next.last() == parts@[i as int]@);
        if i == 0 {
            r = parts[0].clone();
        } else {
            r.append(separator);
            r.append(parts[i].as_str());
        }
        i += 1;
    }
    assert(all.take(all.len() as int) =~= all);
    r
}

/// Texts one after another, each on a line of its own.
pub open spec fn on_lines(parts: Seq<Seq<char>>) -> Seq<char>
    decreases parts.len(),
{
    if parts.len() == 0 {
        Seq::empty()
    } else {
        parts[0] + seq!['\n'] + on_lines(parts.drop_first())
    }
}

/// Whether a text has no end of a line in it.
pub open spec fn is_one_line(s: Seq<char>) -> bool {
    forall|i: int| 0 <= i < s.len() ==> #[trigger] s[i] != '\n' && s[i] != '\r'
}

/// Texts that are written on lines of their own are the lines of what is
/// written.
pub proof fn law_lines_read_back(parts: Seq<Seq<char>>)
    requires
        forall|k: int| 0 <= k < parts.len() ==> is_one_line(#[trigger] parts[k]),
    ensures
        lines_from(on_lines(parts), 0) == parts,
{
    lemma_lines_read_back(Seq::empty(), parts);
    assert(Seq::<char>::empty() + on_lines(parts) =~= on_lines(parts));
}

proof fn lemma_lines_read_back(before: Seq<char>, parts: Seq<Seq<char>>)
    requires
        forall|k: int| 0 <= k < parts.len() ==> is_one_line(#[trigger] parts[k]),
    ensures
        lines_from(before + on_lines(parts), before.len() as int) == parts,
    decreases parts.len(),
{
    let s = before + on_lines(parts);
    let i = before.len() as int;
    if parts.len() == 0 {
        assert(parts =~= Seq::empty());
    } else {
        let line = parts[0];
        let rest = parts.drop_first();
        let next = before + line + seq!['\n'];
        assert(next + on_lines(rest) =~= s);
        assert forall|k: int| 0 <= k < rest.len() implies is_one_line(#[trigger] rest[k]) by {
            assert(rest[k] == parts[k + 1]);
        }
        lemma_lines_read_back(next, rest);
        let end = i + line.len();
        assert(s[end] == '\n');
        assert forall|k: int| i <= k < end implies s[k] != '\n' by {
            assert(is_one_line(line));
            assert(s[k] == line[k - i]);
        }
        lemma_index_from(s, i, '\n');
        assert(index_from(s, i, '\n') == end);
        assert(s.subrange(i, end) =~= line);
        assert(without_return(line) == line) by {
            assert(is_one_line(line));
            if line.len() > 0 {
                assert(line.last() == line[line.len() - 1]);
            }
        }
        assert(seq![line] + rest =~= parts);
    }
}

/// A text that does not start with white space is not blank.
pub proof fn lemma_not_blank(s: Seq<char>)
    requires
        s.len() > 0,
        !is_space(s[0]),
    ensures
        trimmed(s).len() > 0,
{
    lemma_trim_end_keeps(s);
}

proof fn lemma_trim_end_keeps(s: Seq<char>)
    requires
        s.len() > 0,
        !is_space(s[0]),
    ensures
        trim_end(s).len() > 0,
    decreases s.len(),
{
    if is_space(s.last()) {
        assert(s.len() > 1);
        lemma_trim_end_keeps(s.drop_last());
    }
}

/// One text comes before another where it is the start of it, or where it has
/// the lower character at the first place at which the two differ.
pub proof fn law_order_of_texts(a: Seq<char>, b: Seq<char>)
    ensures
        precedes(a, b) <==> exists|k: int|
            0 <= k <= a.len() && k < b.len() && a.take(k) == #[trigger] b.take(k) && (k == a.len()
                || a[k] < b[k]),
    decreases b.len(),
{
    if a.len() > 0 && b.len() > 0 && a[0] == b[0] {
        let (x, y) = (a.drop_first(), b.drop_first());
        law_order_of_texts(x, y);
        if precedes(a, b) {
            let k = choose|k: int|
                0 <= k <= x.len() && k < y.len() && x.take(k) == #[trigger] y.take(k) && (k
                    == x.len() || x[k] < y[k]);
            assert(a.take(k + 1) =~= seq![a[0]] + x.take(k));
            assert(b.take(k + 1) =~= seq![b[0]] + y.take(k));
            assert(a.take(k + 1) == b.take(k + 1));
        }
        if exists|k: int|
            0 <= k <= a.len() && k < b.len() && a.take(k) == #[trigger] b.take(k) && (k == a.len()
                || a[k] < b[k]) {
            let k = choose|k: int|
                0 <= k <= a.len() && k < b.len() && a.take(k) == #[trigger] b.take(k) && (k
                    == a.len() || a[k] < b[k]);
            assert(k > 0);
            assert(x.take(k - 1) =~= a.take(k).drop_first());
            assert(y.take(k - 1) =~= b.take(k).drop_first());
            assert(x.take(k - 1) == y.take(k - 1));
        }
    } else {
        if precedes(a, b) {
            assert(a.take(0) =~= b.take(0));
        }
        if exists|k: int|
            0 <= k <= a.len() && k < b.len() && a.take(k) == #[trigger] b.take(k) && (k == a.len()
                || a[k] < b[k]) {
            let k = choose|k: int|
                0 <= k <= a.len() && k < b.len() && a.take(k) == #[trigger] b.take(k) && (k
                    == a.len() || a[k] < b[k]);
            if k > 0 {
                assert(a.take(k)[0] == b.take(k)[0]);
            }
        }
    }
}

/// Every digit before others weighs ten times as much for each of these; a
/// digit alone weighs what it says.
pub proof fn law_digits_weigh_by_place(a: Seq<char>, b: Seq<char>, c: char)
    ensures
        digits_value(a + b) == digits_value(a) * vstd::arithmetic::power::pow(10, b.len())
            + digits_value(b),
        digits_value(seq![c]) == c as int - '0' as int,
    decreases b.len(),
{
    assert(seq![c].drop_last() =~= Seq::empty());
    assert(digits_value(seq![c].drop_last()) == 0);
    vstd::arithmetic::power::lemma_pow0(10);
    if b.len() == 0 {
        assert(a + b =~= a);
    } else {
        let front = b.drop_last();
        law_digits_weigh_by_place(a, front, c);
        assert((a + b).drop_last() =~= a + front);
        reveal(vstd::arithmetic::power::pow);
        let p = vstd::arithmetic::power::pow(10, front.len());
        let v = digits_value(a);
        assert(vstd::arithmetic::power::pow(10, b.len()) == 10 * p);
        assert((v * p) * 10 == v * (10 * p)) by (nonlinear_arith);
    }
}

/// A number is printed without leading zeros.
pub proof fn law_no_leading_zeros(n: nat)
    ensures
        decimal(n).len() > 1 ==> decimal(n)[0] != '0',
        n > 0 ==> decimal(n)[0] != '0',
    decreases n,
{
    if n >= 10 {
        law_no_leading_zeros(n / 10);
        lemma_decimal_reads_back(n / 10);
        assert(decimal(n)[0] == decimal(n / 10)[0]);
    }
}

/// A text reads as a number exactly where it is digits, or a plus sign and
/// digits, that write it.
pub proof fn law_naturals_read(s: Seq<char>, digits: Seq<char>, n: u64)
    ensures
        natural(s) is Some ==> {
            let told = if s[0] == '+' {
                s.skip(1)
            } else {
                s
            };
            told.len() > 0 && all_digits(told) && digits_value(told) == natural(s)->0
        },
        digits.len() > 0 && all_digits(digits) && digits_value(digits) == n ==> natural(digits)
            == Some(n) && natural(seq!['+'] + digits) == Some(n),
        natural(decimal(n as nat)) == Some(n),
        natural(s) is Some ==> s.len() > 0 && forall|k: int|
            1 <= k < s.len() ==> is_digit(#[trigger] s[k]),
{
    let signed = seq!['+'] + digits;
    assert(signed.drop_first() =~= digits);
    lemma_decimal_reads_back(n as nat);
    assert(is_digit(decimal(n as nat)[0]));
    if digits.len() > 0 && all_digits(digits) {
        assert(is_digit(digits[0]));
    }
    if natural(s) is Some {
        assert(s.drop_first() =~= s.skip(1));
        let told = if s[0] == '+' {
            s.drop_first()
        } else {
            s
        };
        lemma_digits_grow(told, 0);
        assert forall|k: int| 1 <= k < s.len() implies is_digit(#[trigger] s[k]) by {
            if s[0] == '+' {
                assert(is_digit(s.drop_first()[k - 1]));
            }
        }
    }
}

/// Trimming cuts white space off both ends, all of it, and nothing else.
pub proof fn law_trimmed(s: Seq<char>)
    ensures
        exists|from: int, to: int|
            0 <= from <= to <= s.len() && trimmed(s) == #[trigger] s.subrange(from, to) && (forall|
                k: int,
            |
                0 <= k < from || to <= k < s.len() ==> is_space(#[trigger] s[k])),
        trimmed(s).len() > 0 ==> !is_space(trimmed(s)[0]) && !is_space(trimmed(s).last()),
{
    let from = lemma_trim_start(s);
    let rest = trim_start(s);
    let n = lemma_trim_end(rest);
    let to = from + n;
    assert(trimmed(s) =~= s.subrange(from, to));
    assert forall|k: int| 0 <= k < from || to <= k < s.len() implies is_space(
        #[trigger] s[k],
    ) by {
        if k >= to {
            assert(s[k] == rest[k - from]);
        }
    }
    if n > 0 {
        assert(trimmed(s)[0] == rest[0]);
    }
}

/// Where a text starts without its leading white space.
proof fn lemma_trim_start(s: Seq<char>) -> (from: int)
    ensures
        0 <= from <= s.len(),
        trim_start(s) == s.skip(from),
        forall|k: int| 0 <= k < from ==> is_space(#[trigger] s[k]),
        trim_start(s).len() > 0 ==> !is_space(trim_start(s)[0]),
    decreases s.len(),
{
    if s.len() > 0 && is_space(s[0]) {
        let rest = s.drop_first();
        let from = lemma_trim_start(rest);
        assert(s.skip(from + 1) =~= rest.skip(from));
        assert forall|k: int| 0 <= k < from + 1 implies is_space(#[trigger] s[k]) by {
            if k > 0 {
                assert(s[k] == rest[k - 1]);
            }
        }
        from + 1
    } else {
        assert(s.skip(0) =~= s);
        0
    }
}

/// Where a text ends without its trailing white space.
proof fn lemma_trim_end(s: Seq<char>) -> (to: int)
    ensures
        0 <= to <= s.len(),
        trim_end(s) == s.take(to),
        forall|k: int| to <= k < s.len() ==> is_space(#[trigger] s[k]),
        trim_end(s).len() > 0 ==> !is_space(trim_end(s).last()),
    decreases s.len(),
{
    if s.len() > 0 && is_space(s.last()) {
        let front = s.drop_last();
        let to = lemma_trim_end(front);
        assert(s.take(to) =~= front.take(to));
        assert forall|k: int| to <= k < s.len() implies is_space(#[trigger] s[k]) by {
            if k < front.len() {
                assert(s[k] == front[k]);
            }
        }
        to
    } else {
        assert(s.take(s.len() as int) =~= s);
        s.len() as int
    }
}

/// Cutting trailing characters cuts those that are to be cut off the end, all
/// of them, and nothing else.
pub proof fn law_trailing_is_cut(s: Seq<char>, cut: Seq<char>)
    ensures
        without_trailing(s, cut).len() <= s.len(),
        without_trailing(s, cut) == s.take(without_trailing(s, cut).len() as int),
        forall|k: int|
            without_trailing(s, cut).len() <= k < s.len() ==> cut.contains(#[trigger] s[k]),
        without_trailing(s, cut).len() > 0 ==> !cut.contains(without_trailing(s, cut).last()),
    decreases s.len(),
{
    if s.len() > 0 && cut.contains(s.last()) {
        let front = s.drop_last();
        law_trailing_is_cut(front, cut);
        let n = without_trailing(front, cut).len() as int;
        assert(s.take(n) =~= front.take(n));
        assert forall|k: int| n <= k < s.len() implies cut.contains(#[trigger] s[k]) by {
            if k < front.len() {
                assert(s[k] == front[k]);
            }
        }
    } else {
        assert(s.take(s.len() as int) =~= s);
    }
}

/// A text splits at the first of its separators: what stands before holds
/// none, and the two sides with one between them are the text. A text without
/// one does not split.
pub proof fn law_halves(s: Seq<char>, c: char, a: Seq<char>, b: Seq<char>)
    ensures
        match halves(s, c) {
            Some((before, after)) => s == before + seq![c] + after && !before.contains(c),
            None => !s.contains(c),
        },
        !a.contains(c) ==> halves(a + seq![c] + b, c) == Some((a, b)),
{
    lemma_index_from(s, 0, c);
    let at = index_from(s, 0, c);
    if at < s.len() {
        assert(s =~= s.take(at) + seq![c] + s.skip(at + 1));
    }
    let w = a + seq![c] + b;
    lemma_index_from(w, 0, c);
    let end = index_from(w, 0, c);
    if !a.contains(c) {
        assert(w[a.len() as int] == c);
        if end < a.len() {
            assert(w[end] == a[end]);
        }
        assert(end == a.len());
        assert(w.take(end) =~= a);
        assert(w.skip(end + 1) =~= b);
    }
}

/// A prefix comes off exactly where it is there, and the rest stays.
pub proof fn law_prefix(s: Seq<char>, c: char, rest: Seq<char>)
    ensures
        after_prefix(s, c) == Some(rest) <==> s == seq![c] + rest,
        after_prefix(s, c) is None <==> s.len() == 0 || s[0] != c,
{
    if s.len() > 0 {
        assert(s =~= seq![s[0]] + s.drop_first());
    }
    if s == seq![c] + rest {
        assert(s.drop_first() =~= rest);
    }
}

/// The lines from a place on are the lines of what stands there.
proof fn lemma_lines_skip(s: Seq<char>, i: int)
    requires
        0 <= i <= s.len(),
    ensures
        lines_from(s, i) == lines_from(s.skip(i), 0),
    decreases s.len() - i,
{
    let t = s.skip(i);
    if i < s.len() {
        lemma_index_from(s, i, '\n');
        lemma_index_from(t, 0, '\n');
        let end = index_from(s, i, '\n');
        let other = index_from(t, 0, '\n');
        if end < s.len() {
            assert(t[end - i] == '\n');
        }
        if other < t.len() {
            assert(s[i + other] == '\n');
        }
        assert(other == end - i);
        if end < s.len() {
            assert(t.subrange(0, other) =~= s.subrange(i, end));
            lemma_lines_skip(s, end + 1);
            lemma_lines_skip(t, other + 1);
            assert(t.skip(other + 1) =~= s.skip(end + 1));
        } else {
            assert(t.skip(0) =~= t);
        }
    }
}

/// A line ends at a line feed, and loses a carriage return before it. What
/// follows has its own lines, and a last line needs no end. Nothing has no
/// lines.
pub proof fn law_lines(line: Seq<char>, rest: Seq<char>)
    requires
        !line.contains('\n'),
    ensures
        lines_from(line + seq!['\n'] + rest, 0) == seq![
            if line.len() > 0 && line.last() == '\r' {
                line.drop_last()
            } else {
                line
            },
        ] + lines_from(rest, 0),
        lines_from(line, 0) == (if line.len() == 0 {
            Seq::<Seq<char>>::empty()
        } else {
            seq![line]
        }),
{
    let s = line + seq!['\n'] + rest;
    let n = line.len() as int;
    lemma_index_from(s, 0, '\n');
    lemma_index_from(line, 0, '\n');
    let end = index_from(s, 0, '\n');
    assert(s[n] == '\n');
    if end < n {
        assert(line[end] == s[end]);
    }
    assert(end == n);
    assert(s.subrange(0, n) =~= line);
    lemma_lines_skip(s, n + 1);
    assert(s.skip(n + 1) =~= rest);
    assert(line.skip(0) =~= line);
    if index_from(line, 0, '\n') < n {
        assert(line.contains('\n'));
    }
}

/// Joining puts one separator between each two texts, and none around them.
pub proof fn law_joined(a: Seq<Seq<char>>, b: Seq<Seq<char>>, one: Seq<char>, separator: Seq<char>)
    ensures
        a.len() > 0 && b.len() > 0 ==> joined(a + b, separator) == joined(a, separator) + separator
            + joined(b, separator),
        joined(seq![one], separator) == one,
        joined(Seq::<Seq<char>>::empty(), separator) == Seq::<char>::empty(),
    decreases b.len(),
{
    if a.len() > 0 && b.len() > 0 {
        assert((a + b).drop_last() =~= a + b.drop_last());
        assert((a + b).last() == b.last());
        if b.len() == 1 {
            assert(a + b.drop_last() =~= a);
        } else {
            law_joined(a, b.drop_last(), one, separator);
            let (x, y) = (joined(a, separator), joined(b.drop_last(), separator));
            assert(x + separator + y + separator + b.last() =~= x + separator + (y + separator
                + b.last()));
        }
    }
}

/// A literal of digits is the whole number that they write. One with a point is
/// that of the digits before it and behind it, divided by ten for each digit
/// behind it.
pub proof fn law_literals(whole: Seq<char>, part: Seq<char>)
    requires
        whole.len() > 0,
        all_digits(whole),
        part.len() > 0,
        all_digits(part),
    ensures
        is_decimal_literal(whole),
        literal_numerator(whole) == digits_value(whole),
        literal_denominator(whole) == 1,
        is_decimal_literal(whole + seq!['.'] + part),
        literal_numerator(whole + seq!['.'] + part) == digits_value(whole)
            * vstd::arithmetic::power::pow(10, part.len()) + digits_value(part),
        literal_denominator(whole + seq!['.'] + part) == vstd::arithmetic::power::pow(
            10,
            part.len(),
        ),
{
    let n = whole.len() as int;
    assert(whole.take(n) =~= whole);
    assert(literal_point(whole, n));
    let p = choose|p: int| literal_point(whole, p);
    if p < n {
        assert(is_digit(whole[p]));
    }
    let s = whole + seq!['.'] + part;
    assert(s.take(n) =~= whole);
    assert(s.skip(n + 1) =~= part);
    assert(literal_point(s, n));
    let q = choose|q: int| literal_point(s, q);
    assert(q == n) by {
        if q < n {
            assert(s[q] == whole[q]);
            assert(is_digit(whole[q]));
        } else if q > n {
            assert(s.take(q)[n] == '.');
            assert(is_digit(s.take(q)[n]));
        }
    }
    law_digits_weigh_by_place(whole, part, '0');
}

/// Which characters are white space, and which are digits.
pub proof fn law_white_space(c: char)
    ensures
        is_space(c) <==> seq![
            0x9int,
            0xa,
            0xb,
            0xc,
            0xd,
            0x20,
            0x85,
            0xa0,
            0x1680,
            0x2000,
            0x2001,
            0x2002,
            0x2003,
            0x2004,
            0x2005,
            0x2006,
            0x2007,
            0x2008,
            0x2009,
            0x200a,
            0x2028,
            0x2029,
            0x202f,
            0x205f,
            0x3000,
        ].contains(c as int),
        is_digit(c) <==> 0x30 <= c as int <= 0x39,
{
    let spaces = seq![
        0x9int,
        0xa,
        0xb,
        0xc,
        0xd,
        0x20,
        0x85,
        0xa0,
        0x1680,
        0x2000,
        0x2001,
        0x2002,
        0x2003,
        0x2004,
        0x2005,
        0x2006,
        0x2007,
        0x2008,
        0x2009,
        0x200a,
        0x2028,
        0x2029,
        0x202f,
        0x205f,
        0x3000,
    ];
    assert(spaces[0] == 0x9 && spaces[1] == 0xa && spaces[2] == 0xb && spaces[3] == 0xc && spaces[4]
        == 0xd && spaces[5] == 0x20 && spaces[6] == 0x85 && spaces[7] == 0xa0 && spaces[8]
        == 0x1680 && spaces[9] == 0x2000 && spaces[10] == 0x2001 && spaces[11] == 0x2002
        && spaces[12] == 0x2003 && spaces[13] == 0x2004 && spaces[14] == 0x2005 && spaces[15]
        == 0x2006 && spaces[16] == 0x2007 && spaces[17] == 0x2008 && spaces[18] == 0x2009
        && spaces[19] == 0x200a && spaces[20] == 0x2028 && spaces[21] == 0x2029 && spaces[22]
        == 0x202f && spaces[23] == 0x205f && spaces[24] == 0x3000);
}

}
