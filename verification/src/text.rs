//! Text as sequences of characters: the comparisons, searches and number formats that
//! symbol lookup, expressions and messages are made of.

use vstd::prelude::*;

verus! {

/// `String::push`: one character is appended, nothing else changes.
pub assume_specification[ String::push ](string: &mut String, c: char)
    ensures
        final(string)@ == old(string)@.push(c),
;

/// The characters of a text, in order.
pub fn chars_of(text: &str) -> (chars: Vec<char>)
    ensures
        chars@ == text@,
{
    let mut chars: Vec<char> = Vec::new();
    for c in iter: text.chars()
        invariant
            iter.seq() == text@,
            chars@ == text@.take(iter.index()),
    {
        chars.push(c);
    }
    chars
}

/// A text from its characters.
pub fn string_of(chars: &[char]) -> (text: String)
    ensures
        text@ == chars@,
{
    let mut text = String::new();
    let mut i: usize = 0;
    while i < chars.len()
        invariant
            i <= chars@.len(),
            text@ == chars@.take(i as int),
        decreases chars@.len() - i,
    {
        text.push(chars[i]);
        i = i + 1;
    }
    assert(chars@.take(i as int) == chars@);
    text
}

// -----------------------------------------------------------------------------------------
// ASCII case folding
// -----------------------------------------------------------------------------------------

/// `c` with the letters `A` to `Z` replaced by `a` to `z`; every other character is kept.
pub open spec fn lower_char(c: char) -> char {
    if 'A' <= c <= 'Z' {
        (c as u32 + 32) as char
    } else {
        c
    }
}

/// Every character folded by [`lower_char`].
pub open spec fn lower(text: Seq<char>) -> Seq<char> {
    text.map_values(|c: char| lower_char(c))
}

/// Folding leaves no upper-case ASCII letter, keeps the length, and folding again changes
/// nothing.
pub proof fn lemma_lower(text: Seq<char>)
    ensures
        lower(text).len() == text.len(),
        forall|i: int| 0 <= i < text.len() ==> !('A' <= #[trigger] lower(text)[i] <= 'Z'),
        lower(lower(text)) == lower(text),
{
    assert forall|i: int| 0 <= i < text.len() implies !('A' <= #[trigger] lower(text)[i]
        <= 'Z') by {
        assert(lower(text)[i] == lower_char(text[i]));
    }
}

fn to_lower_char(c: char) -> (r: char)
    ensures
        r == lower_char(c),
{
    if 'A' <= c && c <= 'Z' {
        (c as u8 + 32) as char
    } else {
        c
    }
}

/// The characters of `text`, folded to ASCII lower case.
fn lower_chars(text: &str) -> (chars: Vec<char>)
    ensures
        chars@ == lower(text@),
{
    let source = chars_of(text);
    let mut chars: Vec<char> = Vec::new();
    let mut i: usize = 0;
    while i < source.len()
        invariant
            i <= source@.len(),
            source@ == text@,
            chars@ == lower(text@.take(i as int)),
        decreases source@.len() - i,
    {
        chars.push(to_lower_char(source[i]));
        i = i + 1;
        assert(lower(text@.take(i as int)) == lower(text@.take(i - 1)).push(
            lower_char(text@[i - 1]),
        ));
    }
    assert(text@.take(i as int) == text@);
    chars
}

/// `text` with its ASCII letters in lower case.
pub fn to_ascii_lowercase(text: &str) -> (r: String)
    ensures
        r@ == lower(text@),
{
    string_of(lower_chars(text).as_slice())
}

fn same_chars(a: &[char], b: &[char]) -> (r: bool)
    ensures
        r == (a@ == b@),
{
    if a.len() != b.len() {
        return false;
    }
    let mut i: usize = 0;
    while i < a.len()
        invariant
            i <= a@.len(),
            a@.len() == b@.len(),
            forall|j: int| 0 <= j < i ==> a@[j] == b@[j],
        decreases a@.len() - i,
    {
        if a[i] != b[i] {
            return false;
        }
        i = i + 1;
    }
    assert(a@ == b@);
    true
}

/// Whether two texts are the same.
pub fn same_text(a: &str, b: &str) -> (r: bool)
    ensures
        r == (a@ == b@),
{
    same_chars(chars_of(a).as_slice(), chars_of(b).as_slice())
}

/// Whether two texts are the same up to the case of ASCII letters.
pub fn eq_ignore_ascii_case(a: &str, b: &str) -> (r: bool)
    ensures
        r == (lower(a@) == lower(b@)),
{
    same_chars(lower_chars(a).as_slice(), lower_chars(b).as_slice())
}

// -----------------------------------------------------------------------------------------
// Searching
// -----------------------------------------------------------------------------------------

/// `part` stands in `text` at position `at`.
pub open spec fn occurs_at(text: Seq<char>, part: Seq<char>, at: int) -> bool {
    0 <= at && at + part.len() <= text.len() && text.subrange(at, at + part.len()) == part
}

/// `part` stands somewhere in `text`.
pub open spec fn occurs_in(text: Seq<char>, part: Seq<char>) -> bool {
    exists|at: int| occurs_at(text, part, at)
}

fn chars_occur_at(text: &[char], part: &[char], at: usize) -> (r: bool)
    requires
        at + part@.len() <= text@.len(),
    ensures
        r == occurs_at(text@, part@, at as int),
{
    let end: usize = text.len();
    let mut i: usize = 0;
    while i < part.len()
        invariant
            i <= part@.len(),
            at + part@.len() <= text@.len(),
            end == text@.len(),
            forall|j: int| 0 <= j < i ==> text@[at + j] == part@[j],
        decreases part@.len() - i,
    {
        if text[at + i] != part[i] {
            assert(text@.subrange(at as int, at + part@.len())[i as int] != part@[i as int]);
            return false;
        }
        i = i + 1;
    }
    assert(text@.subrange(at as int, at + part@.len()) == part@);
    true
}

fn chars_contain(text: &[char], part: &[char]) -> (r: bool)
    ensures
        r == occurs_in(text@, part@),
{
    if part.len() > text.len() {
        return false;
    }
    let last: usize = text.len() - part.len();
    let mut at: usize = 0;
    while at < last
        invariant
            at <= last,
            last + part@.len() == text@.len(),
            forall|k: int| 0 <= k < at ==> !occurs_at(text@, part@, k),
        decreases last - at,
    {
        if chars_occur_at(text, part, at) {
            return true;
        }
        at = at + 1;
    }
    chars_occur_at(text, part, last)
}

/// Whether `part` stands somewhere in `text`.
pub fn contains(text: &str, part: &str) -> (r: bool)
    ensures
        r == occurs_in(text@, part@),
{
    chars_contain(chars_of(text).as_slice(), chars_of(part).as_slice())
}

/// Whether `part` stands somewhere in `text`, up to the case of ASCII letters.
pub fn contains_ignore_ascii_case(text: &str, part: &str) -> (r: bool)
    ensures
        r == occurs_in(lower(text@), lower(part@)),
{
    chars_contain(lower_chars(text).as_slice(), lower_chars(part).as_slice())
}

/// The position of the first `c` in `text`, or the length of `text` if there is none.
pub open spec fn first_at(text: Seq<char>, c: char) -> int
    decreases text.len(),
{
    if text.len() == 0 || text[0] == c {
        0
    } else {
        1 + first_at(text.drop_first(), c)
    }
}

/// `first_at` is where the first `c` stands.
pub proof fn lemma_first_at(text: Seq<char>, c: char)
    ensures
        0 <= first_at(text, c) <= text.len(),
        forall|i: int| 0 <= i < first_at(text, c) ==> text[i] != c,
        first_at(text, c) < text.len() ==> text[first_at(text, c)] == c,
    decreases text.len(),
{
    if text.len() > 0 && text[0] != c {
        let rest = text.drop_first();
        lemma_first_at(rest, c);
        assert forall|i: int| 0 <= i < first_at(text, c) implies text[i] != c by {
            if i > 0 {
                assert(rest[i - 1] == text[i]);
            }
        }
        if first_at(text, c) < text.len() {
            assert(rest[first_at(rest, c)] == text[first_at(text, c)]);
        }
    }
}

/// The position of the first `c` in `text`, or the length of `text` if there is none.
pub fn position_of(text: &[char], c: char) -> (at: usize)
    ensures
        at == first_at(text@, c),
{
    proof {
        lemma_first_at(text@, c);
    }
    let mut at: usize = 0;
    while at < text.len()
        invariant
            at <= first_at(text@, c) <= text@.len(),
            first_at(text@, c) < text@.len() ==> text@[first_at(text@, c)] == c,
            forall|i: int| 0 <= i < first_at(text@, c) ==> text@[i] != c,
        decreases text@.len() - at,
    {
        if text[at] == c {
            return at;
        }
        at = at + 1;
    }
    at
}

/// The parts of `text` between the separators: one more part than there are separators.
pub open spec fn split_on(text: Seq<char>, separator: char) -> Seq<Seq<char>>
    decreases text.len(),
{
    if text.len() == 0 {
        seq![Seq::empty()]
    } else {
        let parts = split_on(text.drop_last(), separator);
        if text.last() == separator {
            parts.push(Seq::empty())
        } else {
            parts.update(parts.len() - 1, parts.last().push(text.last()))
        }
    }
}

/// The texts of a sequence of strings.
pub open spec fn texts(strings: Seq<String>) -> Seq<Seq<char>> {
    strings.map_values(|s: String| s@)
}

/// The parts of `text` between the separators.
pub fn split(text: &str, separator: char) -> (parts: Vec<String>)
    ensures
        texts(parts@) == split_on(text@, separator),
{
    let chars = chars_of(text);
    let mut parts: Vec<String> = Vec::new();
    let mut part = String::new();
    let mut i: usize = 0;
    assert(text@.take(0) == Seq::<char>::empty());
    assert(texts(parts@).push(part@) == split_on(text@.take(0), separator));
    while i < chars.len()
        invariant
            i <= chars@.len(),
            chars@ == text@,
            texts(parts@).push(part@) == split_on(text@.take(i as int), separator),
        decreases chars@.len() - i,
    {
        let c = chars[i];
        let ghost before = split_on(text@.take(i as int), separator);
        let ghost old_parts = parts@;
        assert(text@.take(i + 1).drop_last() == text@.take(i as int));
        if c == separator {
            parts.push(part);
            part = String::new();
            assert(texts(parts@) == before);
        } else {
            part.push(c);
            assert(texts(parts@).push(part@) == before.update(
                before.len() - 1,
                before.last().push(c),
            ));
        }
        i = i + 1;
    }
    assert(text@.take(i as int) == text@);
    let ghost done = texts(parts@).push(part@);
    parts.push(part);
    assert(texts(parts@) == done);
    parts
}

/// The parts with the separator between them.
pub open spec fn join_with(parts: Seq<Seq<char>>, separator: char) -> Seq<char>
    decreases parts.len(),
{
    if parts.len() == 0 {
        Seq::empty()
    } else if parts.len() == 1 {
        parts[0]
    } else {
        join_with(parts.drop_last(), separator).push(separator) + parts.last()
    }
}

/// Splitting cuts at the separators and only there: there is at least one part, no part
/// holds a separator, and the parts with the separators put back are the text.
pub proof fn lemma_split_on(text: Seq<char>, separator: char)
    ensures
        split_on(text, separator).len() > 0,
        forall|i: int|
            0 <= i < split_on(text, separator).len() ==> !(#[trigger] split_on(
                text,
                separator,
            )[i]).contains(separator),
        join_with(split_on(text, separator), separator) == text,
    decreases text.len(),
{
    let parts = split_on(text, separator);
    if text.len() > 0 {
        let before = text.drop_last();
        let heads = split_on(before, separator);
        lemma_split_on(before, separator);
        assert(text == before.push(text.last()));
        if text.last() == separator {
            assert(parts.drop_last() == heads);
            assert(join_with(parts, separator) == join_with(heads, separator).push(separator)
                + Seq::<char>::empty());
        } else {
            assert(parts.drop_last() == heads.drop_last());
            let grown = heads.last().push(text.last());
            assert forall|i: int| 0 <= i < parts.len() implies !(#[trigger] parts[i]).contains(
                separator,
            ) by {
                if i == parts.len() - 1 {
                    if grown.contains(separator) {
                        let k = choose|k: int| 0 <= k < grown.len() && grown[k] == separator;
                        assert(heads.last()[k] == separator);
                        assert(heads[heads.len() - 1].contains(separator));
                    }
                } else {
                    assert(parts[i] == heads[i]);
                }
            }
            if parts.len() > 1 {
                let stem = join_with(heads.drop_last(), separator).push(separator);
                assert(stem + grown == (stem + heads.last()).push(text.last()));
            }
        }
    }
}

/// The parts of two texts with the separator between them are the parts of the one and then
/// those of the other.
pub proof fn lemma_split_join(first: Seq<char>, rest: Seq<char>, separator: char)
    ensures
        split_on(first.push(separator) + rest, separator) == split_on(first, separator) + split_on(
            rest,
            separator,
        ),
    decreases rest.len(),
{
    let text = first.push(separator) + rest;
    let head = split_on(first, separator);
    if rest.len() == 0 {
        assert(text == first.push(separator));
        assert(text.drop_last() == first);
    } else {
        let before = rest.drop_last();
        let tail = split_on(before, separator);
        lemma_split_join(first, before, separator);
        lemma_split_on(before, separator);
        assert(text.drop_last() == first.push(separator) + before);
        if rest.last() == separator {
            assert((head + tail).push(Seq::empty()) == head + tail.push(Seq::empty()));
        } else {
            let grown = tail.last().push(rest.last());
            assert((head + tail).last() == tail.last());
            assert((head + tail).update((head + tail).len() - 1, grown) == head + tail.update(
                tail.len() - 1,
                grown,
            ));
        }
    }
}

/// A text without the separator is its own only part.
pub proof fn lemma_split_absent(text: Seq<char>, separator: char)
    requires
        !text.contains(separator),
    ensures
        split_on(text, separator) == seq![text],
    decreases text.len(),
{
    if text.len() > 0 {
        let before = text.drop_last();
        assert(!before.contains(separator)) by {
            if before.contains(separator) {
                let i = choose|i: int| 0 <= i < before.len() && before[i] == separator;
                assert(text[i] == separator);
            }
        }
        lemma_split_absent(before, separator);
        assert(text[text.len() - 1] != separator);
        assert(before.push(text.last()) == text);
    } else {
        assert(text == Seq::<char>::empty());
    }
}

// -----------------------------------------------------------------------------------------
// Numbers
// -----------------------------------------------------------------------------------------

/// The character of a digit below sixteen, letters in upper case.
pub open spec fn digit_char(digit: int) -> char {
    if digit < 10 {
        ('0' as u32 + digit) as char
    } else {
        ('A' as u32 + (digit - 10)) as char
    }
}

fn digit_to_char(digit: u8) -> (c: char)
    requires
        digit < 16,
    ensures
        c == digit_char(digit as int),
{
    if digit < 10 {
        (48u8 + digit) as char
    } else {
        (65u8 + (digit - 10)) as char
    }
}

/// The decimal digits of `n`, without leading zeros.
pub open spec fn decimal_text(n: nat) -> Seq<char>
    decreases n,
{
    if n < 10 {
        seq![digit_char(n as int)]
    } else {
        decimal_text(n / 10).push(digit_char((n % 10) as int))
    }
}

/// `n` in decimal.
pub fn decimal(n: u64) -> (text: String)
    ensures
        text@ == decimal_text(n as nat),
    decreases n,
{
    let mut text = if n < 10 {
        String::new()
    } else {
        decimal(n / 10)
    };
    text.push(digit_to_char((n % 10) as u8));
    assert(text@ == decimal_text(n as nat));
    text
}

/// The hexadecimal digits of `n` in upper case, with zeros in front up to `width` digits.
pub open spec fn hex_text(n: nat, width: nat) -> Seq<char>
    decreases n + width,
{
    if n < 16 && width <= 1 {
        seq![digit_char(n as int)]
    } else {
        hex_text(n / 16, if width == 0 { 0 } else { (width - 1) as nat }).push(
            digit_char((n % 16) as int),
        )
    }
}

/// `n` in upper-case hexadecimal, at least `width` digits wide.
pub fn hex(n: u64, width: u8) -> (text: String)
    ensures
        text@ == hex_text(n as nat, width as nat),
    decreases n + width,
{
    let mut text = if n < 16 && width <= 1 {
        String::new()
    } else {
        hex(n / 16, if width == 0 { 0 } else { width - 1 })
    };
    text.push(digit_to_char((n % 16) as u8));
    assert(text@ == hex_text(n as nat, width as nat));
    text
}

/// The number that a sequence of decimal digits stands for; `None` if it holds anything else.
pub open spec fn digits_value(digits: Seq<char>) -> Option<nat>
    decreases digits.len(),
{
    if digits.len() == 0 {
        Some(0)
    } else {
        match digits_value(digits.drop_last()) {
            Some(v) if '0' <= digits.last() <= '9' => Some(
                (10 * v + (digits.last() as u32 - '0' as u32)) as nat,
            ),
            _ => None,
        }
    }
}

/// The number that `text` stands for: at least one decimal digit, one `+` allowed in front,
/// and a value that fits in `usize`.
pub open spec fn usize_value(text: Seq<char>) -> Option<usize> {
    let digits = if text.len() > 0 && text[0] == '+' {
        text.drop_first()
    } else {
        text
    };
    match digits_value(digits) {
        Some(v) if digits.len() > 0 && v <= usize::MAX => Some(v as usize),
        _ => None,
    }
}

proof fn lemma_digits_value_prefix(digits: Seq<char>, n: int)
    requires
        0 <= n <= digits.len(),
    ensures
        digits_value(digits) matches Some(v) ==> digits_value(digits.take(n)) matches Some(w) && w
            <= v,
    decreases digits.len() - n,
{
    if n < digits.len() {
        lemma_digits_value_prefix(digits, n + 1);
        assert(digits.take(n + 1).drop_last() == digits.take(n));
    } else {
        assert(digits.take(n) == digits);
    }
}

/// Reads a number in the form that [`usize_value`] describes.
pub fn parse_usize(text: &[char]) -> (value: Option<usize>)
    ensures
        value == usize_value(text@),
{
    let start: usize = if text.len() > 0 && text[0] == '+' {
        1
    } else {
        0
    };
    let ghost digits = text@.skip(start as int);
    assert(start == 1 ==> digits == text@.drop_first());
    assert(start == 0 ==> digits == text@);
    if start == text.len() {
        return None;
    }
    let mut value: usize = 0;
    let mut i: usize = start;
    assert(digits.take(0) == Seq::<char>::empty());
    while i < text.len()
        invariant
            start <= i <= text@.len(),
            start < text@.len(),
            digits == text@.skip(start as int),
            digits_value(digits.take(i - start)) == Some(value as nat),
            usize_value(text@) == (match digits_value(digits) {
                Some(v) if v <= usize::MAX => Some(v as usize),
                _ => None,
            }),
        decreases text@.len() - i,
    {
        let c = text[i];
        proof {
            lemma_digits_value_prefix(digits, i + 1 - start);
            assert(digits.take(i + 1 - start).drop_last() == digits.take(i - start));
            assert(digits[i - start] == c);
        }
        if !('0' <= c && c <= '9') {
            return None;
        }
        let digit: usize = (c as u8 - 48) as usize;
        match value.checked_mul(10) {
            None => {
                return None;
            },
            Some(tens) => match tens.checked_add(digit) {
                None => {
                    return None;
                },
                Some(sum) => {
                    value = sum;
                },
            },
        }
        i = i + 1;
    }
    assert(digits.take(i - start) == digits);
    Some(value)
}

// -----------------------------------------------------------------------------------------
// Laws
// -----------------------------------------------------------------------------------------

/// The characters are the same, or the same ASCII letter in either case.
pub open spec fn same_letter(a: char, b: char) -> bool {
    a == b || 'A' <= a <= 'Z' && b as u32 == a as u32 + 32 || 'A' <= b <= 'Z' && a as u32 == b as u32
        + 32
}

/// Folding changes the letters `A` to `Z`, each into the one 32 places on, and nothing else.
pub proof fn lemma_lower_letters(text: Seq<char>, i: int)
    requires
        0 <= i < text.len(),
    ensures
        'A' <= text[i] <= 'Z' ==> lower(text)[i] as u32 == text[i] as u32 + 32,
        !('A' <= text[i] <= 'Z') ==> lower(text)[i] == text[i],
{
}

/// Two texts are the same up to the case of ASCII letters exactly if they are equally long and
/// each character of the one is the same letter as the character of the other in its place.
pub proof fn lemma_same_up_to_case(a: Seq<char>, b: Seq<char>)
    ensures
        lower(a) == lower(b) <==> a.len() == b.len() && forall|i: int|
            0 <= i < a.len() ==> same_letter(#[trigger] a[i], b[i]),
{
    if lower(a) == lower(b) {
        assert(lower(a).len() == lower(b).len());
        assert forall|i: int| 0 <= i < a.len() implies same_letter(#[trigger] a[i], b[i]) by {
            assert(lower(a)[i] == lower(b)[i]);
            lemma_lower_letters(a, i);
            lemma_lower_letters(b, i);
        }
    }
    if a.len() == b.len() && forall|i: int| 0 <= i < a.len() ==> same_letter(#[trigger] a[i], b[i]) {
        assert forall|i: int| 0 <= i < a.len() implies lower(a)[i] == lower(b)[i] by {
            assert(same_letter(a[i], b[i]));
        }
        assert(lower(a) == lower(b));
    }
}

/// A part stands in a text exactly if the text is the part with something, perhaps nothing, in
/// front of it and behind it.
pub proof fn lemma_occurs_in(text: Seq<char>, part: Seq<char>)
    ensures
        occurs_in(text, part) <==> exists|front: Seq<char>, back: Seq<char>|
            text == #[trigger] (front + part + back),
{
    if occurs_in(text, part) {
        let at = choose|at: int| occurs_at(text, part, at);
        let front = text.take(at);
        let back = text.skip(at + part.len());
        assert(text == front + part + back);
    }
    if exists|front: Seq<char>, back: Seq<char>| text == #[trigger] (front + part + back) {
        let (front, back) = choose|front: Seq<char>, back: Seq<char>|
            text == #[trigger] (front + part + back);
        let at = front.len() as int;
        assert(text.subrange(at, at + part.len()) == part);
        assert(occurs_at(text, part, at));
    }
}

/// Joining puts one separator between each two parts, and nothing before the first or behind the
/// last.
pub proof fn lemma_join_with(parts: Seq<Seq<char>>, part: Seq<char>, separator: char)
    ensures
        join_with(Seq::empty(), separator) == Seq::<char>::empty(),
        join_with(seq![part], separator) == part,
        parts.len() > 0 ==> join_with(parts.push(part), separator) == join_with(parts, separator)
            + seq![separator] + part,
{
    assert(parts.push(part).drop_last() == parts);
    if parts.len() > 0 {
        let joined = join_with(parts, separator);
        assert(joined.push(separator) + part == joined + seq![separator] + part);
    }
}

/// Splitting what was joined gives the parts back, if no part holds the separator.
pub proof fn lemma_split_of_join(parts: Seq<Seq<char>>, separator: char)
    requires
        parts.len() > 0,
        forall|i: int| 0 <= i < parts.len() ==> !(#[trigger] parts[i]).contains(separator),
    ensures
        split_on(join_with(parts, separator), separator) == parts,
    decreases parts.len(),
{
    let last = parts.last();
    lemma_split_absent(last, separator);
    if parts.len() == 1 {
        assert(parts == seq![last]);
    } else {
        let before = parts.drop_last();
        assert forall|i: int| 0 <= i < before.len() implies !(#[trigger] before[i]).contains(
            separator,
        ) by {
            assert(before[i] == parts[i]);
        }
        lemma_split_of_join(before, separator);
        lemma_split_join(join_with(before, separator), last, separator);
        assert(before + seq![last] == parts);
    }
}

/// The number that a character stands for as a digit.
pub open spec fn digit_number(c: char) -> int {
    if '0' <= c <= '9' {
        c as u32 - 48
    } else {
        c as u32 - 55
    }
}

/// The number that digits stand for, where each digit weighs `base` times as much as the next.
pub open spec fn number_in(digits: Seq<char>, base: int) -> int
    decreases digits.len(),
{
    if digits.len() == 0 {
        0
    } else {
        base * number_in(digits.drop_last(), base) + digit_number(digits.last())
    }
}

/// A number in decimal is made of decimal digits that stand for it, without needless zeros.
pub proof fn lemma_decimal_text(n: nat)
    ensures
        decimal_text(n).len() > 0,
        forall|i: int| 0 <= i < decimal_text(n).len() ==> '0' <= #[trigger] decimal_text(n)[i] <= '9',
        decimal_text(n).len() > 1 ==> decimal_text(n)[0] != '0',
        number_in(decimal_text(n), 10) == n,
    decreases n,
{
    let digits = decimal_text(n);
    if n < 10 {
        assert(digits.drop_last() == Seq::<char>::empty());
        assert(number_in(digits.drop_last(), 10) == 0);
    } else {
        lemma_decimal_text(n / 10);
        let before = decimal_text(n / 10);
        assert(digits.drop_last() == before);
        assert forall|i: int| 0 <= i < digits.len() implies '0' <= #[trigger] digits[i] <= '9' by {
            if i < before.len() {
                assert(digits[i] == before[i]);
            }
        }
        assert(digits[0] == before[0]);
        if before.len() == 1 {
            assert(before.drop_last() == Seq::<char>::empty());
            assert(number_in(before.drop_last(), 10) == 0);
        }
    }
}

/// A number in hexadecimal is made of decimal digits and the letters `A` to `F` that stand for
/// it; it has at least `width` digits, and no more than needed for that or for the number.
pub proof fn lemma_hex_text(n: nat, width: nat)
    ensures
        hex_text(n, width).len() >= width,
        hex_text(n, width).len() > 0,
        forall|i: int|
            0 <= i < hex_text(n, width).len() ==> '0' <= #[trigger] hex_text(n, width)[i] <= '9'
                || 'A' <= hex_text(n, width)[i] <= 'F',
        hex_text(n, width).len() > width && hex_text(n, width).len() > 1 ==> hex_text(n, width)[0]
            != '0',
        number_in(hex_text(n, width), 16) == n,
    decreases n + width,
{
    let digits = hex_text(n, width);
    if n < 16 && width <= 1 {
        assert(digits.drop_last() == Seq::<char>::empty());
        assert(number_in(digits.drop_last(), 16) == 0);
    } else {
        let less: nat = if width == 0 {
            0
        } else {
            (width - 1) as nat
        };
        lemma_hex_text(n / 16, less);
        let before = hex_text(n / 16, less);
        assert(digits.drop_last() == before);
        assert forall|i: int| 0 <= i < digits.len() implies '0' <= #[trigger] digits[i] <= '9'
            || 'A' <= digits[i] <= 'F' by {
            if i < before.len() {
                assert(digits[i] == before[i]);
            }
        }
        assert(digits[0] == before[0]);
        if before.len() == 1 {
            assert(before.drop_last() == Seq::<char>::empty());
            assert(number_in(before.drop_last(), 16) == 0);
        }
    }
}

/// Every character is a decimal digit.
pub open spec fn all_digits(text: Seq<char>) -> bool {
    forall|i: int| 0 <= i < text.len() ==> '0' <= #[trigger] text[i] <= '9'
}

proof fn lemma_digits_value(digits: Seq<char>)
    ensures
        digits_value(digits) is Some <==> all_digits(digits),
        digits_value(digits) matches Some(v) ==> v == number_in(digits, 10),
    decreases digits.len(),
{
    if digits.len() > 0 {
        let before = digits.drop_last();
        lemma_digits_value(before);
        if all_digits(digits) {
            assert forall|i: int| 0 <= i < before.len() implies '0' <= #[trigger] before[i] <= '9' by {
                assert(before[i] == digits[i]);
            }
            assert('0' <= digits[digits.len() - 1] <= '9');
        }
        if digits_value(digits) is Some {
            assert forall|i: int| 0 <= i < digits.len() implies '0' <= #[trigger] digits[i]
                <= '9' by {
                if i < before.len() {
                    assert(digits[i] == before[i]);
                }
            }
        }
    }
}

/// A text stands for a number exactly if it is made of decimal digits, at least one, perhaps
/// behind a `+`, and the number is in range.
pub proof fn lemma_usize_value(digits: Seq<char>)
    requires
        digits.len() > 0,
        all_digits(digits),
    ensures
        number_in(digits, 10) <= usize::MAX ==> usize_value(digits) == Some(
            number_in(digits, 10) as usize,
        ) && usize_value(seq!['+'] + digits) == Some(number_in(digits, 10) as usize),
        number_in(digits, 10) > usize::MAX ==> usize_value(digits) is None && usize_value(
            seq!['+'] + digits,
        ) is None,
{
    lemma_digits_value(digits);
    assert('0' <= digits[0] <= '9');
    assert((seq!['+'] + digits).drop_first() == digits);
}

/// A text that is not made of decimal digits, perhaps behind a `+`, stands for no number.
pub proof fn lemma_no_usize_value(text: Seq<char>)
    ensures
        text.len() == 0 ==> usize_value(text) is None,
        text == seq!['+'] ==> usize_value(text) is None,
        text.len() > 0 && text[0] == '+' && !all_digits(text.skip(1)) ==> usize_value(text) is None,
        text.len() > 0 && text[0] != '+' && !all_digits(text) ==> usize_value(text) is None,
{
    lemma_digits_value(text);
    if text.len() > 0 {
        lemma_digits_value(text.drop_first());
        assert(text.drop_first() == text.skip(1));
    }
}

/// A number that is written in decimal is read back.
pub proof fn lemma_decimal_is_read_back(n: usize)
    ensures
        usize_value(decimal_text(n as nat)) == Some(n),
{
    lemma_decimal_text(n as nat);
    lemma_usize_value(decimal_text(n as nat));
}

/// The texts of strings are the text of each, in order.
pub proof fn lemma_texts(strings: Seq<String>)
    ensures
        texts(strings).len() == strings.len(),
        forall|i: int| 0 <= i < strings.len() ==> #[trigger] texts(strings)[i] == strings[i]@,
{
}

} // verus!
