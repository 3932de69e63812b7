//! Texts as sequences of characters: filters, trimming, decimal numbers.
use vstd::prelude::*;

verus! {

/// `String::push` appends one character and leaves what was there before.
pub assume_specification[ String::push ](s: &mut String, c: char)
    ensures
        final(s)@ == old(s)@.push(c),
;

/// The characters of a text.
pub fn to_chars(text: &str) -> (chars: Vec<char>)
    ensures
        chars@ == text@,
{
    let mut chars: Vec<char> = Vec::new();
    for c in it: text.chars()
        invariant
            chars@ == text@.take(it.index()),
            it.seq() == text@,
    {
        chars.push(c);
        assert(text@.take(it.index() + 1) == text@.take(it.index()).push(c));
    }
    assert(text@.take(text@.len() as int) == text@);
    chars
}

/// The text made of the given characters.
pub fn from_chars(chars: &[char]) -> (text: String)
    ensures
        text@ == chars@,
{
    let mut text: String = String::new();
    let mut i: usize = 0;
    while i < chars.len()
        invariant
            i <= chars@.len(),
            text@ == chars@.take(i as int),
        decreases chars.len() - i,
    {
        text.push(chars[i]);
        assert(chars@.take(i + 1) == chars@.take(i as int).push(chars@[i as int]));
        i = i + 1;
    }
    assert(chars@.take(chars@.len() as int) == chars@);
    text
}

/// Whether two texts hold the same characters.
pub fn same_text(a: &str, b: &str) -> (r: bool)
    ensures
        r == (a@ == b@),
{
    let left: Vec<char> = to_chars(a);
    let right: Vec<char> = to_chars(b);
    same_chars(&left, &right)
}

pub fn same_chars(a: &[char], b: &[char]) -> (r: bool)
    ensures
        r == (a@ == b@),
{
    if a.len() != b.len() {
        return false;
    }
    let mut i: usize = 0;
    while i < a.len()
        invariant
            i <= a@.len(),
            a@.len() == b@.len(),
            forall|j: int| 0 <= j < i ==> a@[j] == b@[j],
        decreases a.len() - i,
    {
        if a[i] != b[i] {
            return false;
        }
        i = i + 1;
    }
    assert(a@ =~= b@);
    true
}

/// Chinese characters: the unified ideographs, their extension A and the
/// compatibility ideographs.
pub open spec fn is_chinese(c: char) -> bool {
    let code = c as u32;
    ||| 0x4E00 <= code <= 0x9FFF
    ||| 0x3400 <= code <= 0x4DBF
    ||| 0xF900 <= code <= 0xFAFF
}

pub open spec fn chinese_only(text: Seq<char>) -> Seq<char> {
    text.filter(|c: char| is_chinese(c))
}

/// Whether a character is Chinese.
pub fn is_chinese_char(c: char) -> (r: bool)
    ensures
        r == is_chinese(c),
{
    let code: u32 = c as u32;
    (0x4E00 <= code && code <= 0x9FFF) || (0x3400 <= code && code <= 0x4DBF) || (0xF900 <= code
        && code <= 0xFAFF)
}

/// Drops every character that is not Chinese: digits, levels, punctuation.
pub fn filter_chinese_only(text: &str) -> (kept: String)
    ensures
        kept@ == chinese_only(text@),
{
    let chars: Vec<char> = to_chars(text);
    let mut kept: String = String::new();
    let mut i: usize = 0;
    proof {
        reveal(Seq::filter);
    }
    assert(chars@.take(0) =~= Seq::<char>::empty());
    while i < chars.len()
        invariant
            i <= chars@.len(),
            kept@ == chinese_only(chars@.take(i as int)),
        decreases chars.len() - i,
    {
        let c: char = chars[i];
        proof {
            reveal(Seq::filter);
            assert(chars@.take(i + 1).drop_last() =~= chars@.take(i as int));
            assert(chars@.take(i + 1).last() == c);
        }
        if is_chinese_char(c) {
            kept.push(c);
        }
        i = i + 1;
    }
    assert(chars@.take(chars@.len() as int) =~= chars@);
    kept
}

/// Characters with the Unicode property of white space.
pub open spec fn is_white_space(c: char) -> bool {
    let code = c as u32;
    ||| 0x09 <= code <= 0x0D
    ||| code == 0x20
    ||| code == 0x85
    ||| code == 0xA0
    ||| code == 0x1680
    ||| 0x2000 <= code <= 0x200A
    ||| code == 0x2028
    ||| code == 0x2029
    ||| code == 0x202F
    ||| code == 0x205F
    ||| code == 0x3000
}

/// The text without the white space that it begins with.
pub open spec fn trimmed_start(text: Seq<char>) -> Seq<char>
    decreases text.len(),
{
    if text.len() > 0 && is_white_space(text.first()) {
        trimmed_start(text.drop_first())
    } else {
        text
    }
}

/// The text without the white space that it ends with.
pub open spec fn trimmed_end(text: Seq<char>) -> Seq<char>
    decreases text.len(),
{
    if text.len() > 0 && is_white_space(text.last()) {
        trimmed_end(text.drop_last())
    } else {
        text
    }
}

/// The text without the white space around it.
pub open spec fn trimmed(text: Seq<char>) -> Seq<char> {
    trimmed_end(trimmed_start(text))
}

fn white_space(c: char) -> (r: bool)
    ensures
        r == is_white_space(c),
{
    let code: u32 = c as u32;
    (0x09 <= code && code <= 0x0D) || code == 0x20 || code == 0x85 || code == 0xA0 || code
        == 0x1680 || (0x2000 <= code && code <= 0x200A) || code == 0x2028 || code == 0x2029 || code
        == 0x202F || code == 0x205F || code == 0x3000
}

/// Cuts the white space around a text off.
pub fn trim_chars(chars: &[char]) -> (r: Vec<char>)
    ensures
        r@ == trimmed(chars@),
{
    let mut start: usize = 0;
    assert(chars@.skip(0) =~= chars@);
    while start < chars.len() && white_space(chars[start])
        invariant
            start <= chars@.len(),
            trimmed_start(chars@) == trimmed_start(chars@.skip(start as int)),
        decreases chars.len() - start,
    {
        assert(chars@.skip(start as int).drop_first() =~= chars@.skip(start + 1));
        start = start + 1;
    }
    let ghost rest = chars@.skip(start as int);
    assert(trimmed_start(chars@) == rest);
    let mut end: usize = chars.len();
    assert(chars@.subrange(start as int, end as int) =~= rest);
    while end > start && white_space(chars[end - 1])
        invariant
            start <= end <= chars@.len(),
            trimmed_end(rest) == trimmed_end(chars@.subrange(start as int, end as int)),
        decreases end,
    {
        assert(chars@.subrange(start as int, end as int).drop_last() =~= chars@.subrange(
            start as int,
            end - 1,
        ));
        end = end - 1;
    }
    let mut r: Vec<char> = Vec::new();
    let mut i: usize = start;
    while i < end
        invariant
            start <= i <= end <= chars@.len(),
            r@ == chars@.subrange(start as int, i as int),
        decreases end - i,
    {
        r.push(chars[i]);
        assert(chars@.subrange(start as int, i + 1) =~= chars@.subrange(
            start as int,
            i as int,
        ).push(chars@[i as int]));
        i = i + 1;
    }
    r
}

/// Cuts the white space around a text off.
pub fn trim(text: &str) -> (r: String)
    ensures
        r@ == trimmed(text@),
{
    let chars: Vec<char> = to_chars(text);
    let cut: Vec<char> = trim_chars(&chars);
    from_chars(&cut)
}

/// Trimming a trimmed text changes nothing.
pub proof fn law_trimming_twice_is_trimming_once(text: Seq<char>)
    ensures
        trimmed(trimmed(text)) == trimmed(text),
{
    lemma_trimmed_start_has_no_white_space(text);
    let cut = trimmed_start(text);
    lemma_trimmed_end_is_a_prefix(cut);
    let both = trimmed_end(cut);
    lemma_trimmed_end_has_no_white_space(cut);
    if both.len() > 0 {
        assert(both.first() == cut.first());
    }
}

proof fn lemma_trimmed_start_has_no_white_space(text: Seq<char>)
    ensures
        trimmed_start(text).len() > 0 ==> !is_white_space(trimmed_start(text).first()),
    decreases text.len(),
{
    if text.len() > 0 && is_white_space(text.first()) {
        lemma_trimmed_start_has_no_white_space(text.drop_first());
    }
}

proof fn lemma_trimmed_end_has_no_white_space(text: Seq<char>)
    ensures
        trimmed_end(text).len() > 0 ==> !is_white_space(trimmed_end(text).last()),
    decreases text.len(),
{
    if text.len() > 0 && is_white_space(text.last()) {
        lemma_trimmed_end_has_no_white_space(text.drop_last());
    }
}

proof fn lemma_trimmed_end_is_a_prefix(text: Seq<char>)
    ensures
        trimmed_end(text).len() <= text.len(),
        trimmed_end(text) == text.take(trimmed_end(text).len() as int),
    decreases text.len(),
{
    if text.len() > 0 && is_white_space(text.last()) {
        lemma_trimmed_end_is_a_prefix(text.drop_last());
        let n = trimmed_end(text).len() as int;
        assert(text.drop_last().take(n) =~= text.take(n));
    } else {
        assert(text.take(text.len() as int) =~= text);
    }
}

pub open spec fn is_digit(c: char) -> bool {
    '0' <= c <= '9'
}

pub open spec fn digit_value(c: char) -> int {
    c as u32 - '0' as u32
}

pub open spec fn all_digits(text: Seq<char>) -> bool {
    forall|i: int| 0 <= i < text.len() ==> is_digit(#[trigger] text[i])
}

/// The number that decimal digits write.
pub open spec fn digits_value(digits: Seq<char>) -> int
    decreases digits.len(),
{
    if digits.len() == 0 {
        0
    } else {
        10 * digits_value(digits.drop_last()) + digit_value(digits.last())
    }
}

/// The 32-bit number that a text writes: decimal digits behind at most one sign.
pub open spec fn decimal(text: Seq<char>) -> Option<int> {
    let signed = text.len() > 0 && (text.first() == '-' || text.first() == '+');
    let digits = if signed {
        text.drop_first()
    } else {
        text
    };
    let value = if signed && text.first() == '-' {
        -digits_value(digits)
    } else {
        digits_value(digits)
    };
    if digits.len() > 0 && all_digits(digits) && i32::MIN <= value <= i32::MAX {
        Some(value)
    } else {
        None
    }
}

proof fn lemma_digits_value_grows(digits: Seq<char>, n: int)
    requires
        0 <= n <= digits.len(),
        all_digits(digits),
    ensures
        0 <= digits_value(digits.take(n)) <= digits_value(digits),
    decreases digits.len(),
{
    if n == digits.len() {
        assert(digits.take(n) =~= digits);
        if n > 0 {
            assert(all_digits(digits.drop_last()));
            lemma_digits_value_grows(digits.drop_last(), n - 1);
        }
    } else {
        assert(all_digits(digits.drop_last()));
        lemma_digits_value_grows(digits.drop_last(), n);
        assert(digits.drop_last().take(n) =~= digits.take(n));
        assert(is_digit(digits[digits.len() - 1]));
    }
}

/// Reads a 32-bit decimal number.
pub fn parse_i32(chars: &[char]) -> (r: Option<i32>)
    ensures
        match r {
            Some(n) => decimal(chars@) == Some(n as int),
            None => decimal(chars@) is None,
        },
{
    let signed: bool = chars.len() > 0 && (chars[0] == '-' || chars[0] == '+');
    let negative: bool = chars.len() > 0 && chars[0] == '-';
    let start: usize = if signed {
        1
    } else {
        0
    };
    let ghost digits = if signed {
        chars@.drop_first()
    } else {
        chars@
    };
    assert(digits =~= chars@.skip(start as int));
    if start == chars.len() {
        return None;
    }
    let mut value: i64 = 0;
    let mut i: usize = start;
    assert(digits.take(0) =~= Seq::<char>::empty());
    while i < chars.len()
        invariant
            start <= i <= chars@.len(),
            digits == chars@.skip(start as int),
            forall|j: int| 0 <= j < i - start ==> is_digit(#[trigger] digits[j]),
            value == digits_value(digits.take(i - start)),
            0 <= value <= 2147483648,
            digits.len() > 0,
            signed == (chars@.len() > 0 && (chars@[0] == '-' || chars@[0] == '+')),
            start == (if signed {
                1int
            } else {
                0int
            }),
        decreases chars.len() - i,
    {
        let c: char = chars[i];
        assert(c == digits[i - start]);
        if c < '0' || c > '9' {
            assert(!all_digits(digits));
            return None;
        }
        let d: i64 = (c as u32 - '0' as u32) as i64;
        assert(digits.take(i - start + 1).drop_last() =~= digits.take(i - start));
        assert(digits.take(i - start + 1).last() == c);
        value = 10 * value + d;
        i = i + 1;
        assert(value == digits_value(digits.take(i - start)));
        if value > 2147483648 {
            assert(digits == if signed {
                chars@.drop_first()
            } else {
                chars@
            });
            proof {
                if all_digits(digits) {
                    lemma_digits_value_grows(digits, i - start);
                }
            }
            return None;
        }
    }
    assert(digits.take(i - start) =~= digits);
    assert(all_digits(digits));
    if negative {
        return Some((-value) as i32);
    }
    if value > 2147483647 {
        return None;
    }
    Some(value as i32)
}

/// The digit with the given value.
pub open spec fn digit_char(value: int) -> char {
    (48 + value) as char
}

/// The digits that write a number, without leading zeros.
pub open spec fn digits_text(n: nat) -> Seq<char>
    decreases n,
{
    if n < 10 {
        seq![digit_char(n as int)]
    } else {
        digits_text(n / 10).push(digit_char((n % 10) as int))
    }
}

/// A number as it is written, a negative one behind a minus sign.
pub open spec fn decimal_text(n: int) -> Seq<char> {
    if n < 0 {
        seq!['-'] + digits_text((-n) as nat)
    } else {
        digits_text(n as nat)
    }
}

proof fn lemma_digits_text(n: nat)
    ensures
        digits_text(n).len() > 0,
        all_digits(digits_text(n)),
        digits_value(digits_text(n)) == n,
    decreases n,
{
    reveal_with_fuel(digits_value, 2);
    if n < 10 {
        assert(digits_text(n).drop_last() =~= Seq::<char>::empty());
    } else {
        lemma_digits_text(n / 10);
        assert(digits_text(n).drop_last() =~= digits_text(n / 10));
        let whole = digits_text(n);
        let part = digits_text(n / 10);
        assert forall|i: int| 0 <= i < whole.len() implies is_digit(#[trigger] whole[i]) by {
            if i < part.len() {
                assert(whole[i] == part[i]);
            }
        }
    }
}

/// A 32-bit number is read back from the text that writes it, and that text has
/// neither white space around it nor a comma in it.
pub proof fn law_written_numbers_are_read_back(n: int)
    requires
        i32::MIN <= n <= i32::MAX,
    ensures
        decimal(decimal_text(n)) == Some(n),
        trimmed(decimal_text(n)) == decimal_text(n),
        forall|i: int| 0 <= i < decimal_text(n).len() ==> #[trigger] decimal_text(n)[i] != ',',
{
    let written = decimal_text(n);
    if n < 0 {
        lemma_digits_text((-n) as nat);
        let digits = digits_text((-n) as nat);
        assert(written.drop_first() =~= digits);
        assert(written.last() == digits.last());
        assert forall|i: int| 0 <= i < written.len() implies #[trigger] written[i] != ',' by {
            if i > 0 {
                assert(written[i] == digits[i - 1]);
            }
        }
    } else {
        lemma_digits_text(n as nat);
    }
}

/// `needle` stands in `text` at place `start`.
pub open spec fn occurs_at(text: Seq<char>, needle: Seq<char>, start: int) -> bool {
    0 <= start <= text.len() - needle.len() && text.subrange(start, start + needle.len()) == needle
}

/// `needle` stands somewhere in `text`.
pub open spec fn occurs_in(text: Seq<char>, needle: Seq<char>) -> bool {
    exists|start: int| occurs_at(text, needle, start)
}

/// Whether `needle` stands somewhere in `text`.
pub fn contains(text: &[char], needle: &[char]) -> (r: bool)
    ensures
        r == occurs_in(text@, needle@),
{
    if text.len() < needle.len() {
        return false;
    }
    let mut start: usize = 0;
    let last: usize = text.len() - needle.len();
    while start <= last
        invariant
            last == text@.len() - needle@.len(),
            start <= last + 1,
            text@.len() <= usize::MAX,
            forall|s: int| 0 <= s < start ==> !occurs_at(text@, needle@, s),
        decreases last + 1 - start,
    {
        let window: &[char] = &text[start..start + needle.len()];
        if same_chars(window, needle) {
            assert(occurs_at(text@, needle@, start as int));
            return true;
        }
        if start == last {
            return false;
        }
        start = start + 1;
    }
    false
}

/// The Chinese characters of a text are those of its parts, one part after the other, and
/// of a single character they are the character itself where its code lies among the
/// ideographs.
pub proof fn law_chinese_characters_are_kept_in_order(a: Seq<char>, b: Seq<char>, c: char)
    ensures
        chinese_only(a + b) == chinese_only(a) + chinese_only(b),
        chinese_only(Seq::empty()) == Seq::<char>::empty(),
        0x4E00 <= c as u32 <= 0x9FFF || 0x3400 <= c as u32 <= 0x4DBF || 0xF900 <= c as u32 <= 0xFAFF
            ==> chinese_only(seq![c]) == seq![c],
        (c as u32) < 0x3400 || 0x4DBF < (c as u32) < 0x4E00 || 0x9FFF < (c as u32) < 0xF900
            || 0xFAFF < (c as u32) ==> chinese_only(seq![c]) == Seq::<char>::empty(),
    decreases b.len(),
{
    reveal(Seq::filter);
    let one = seq![c];
    assert(one.drop_last() =~= Seq::<char>::empty());
    assert(chinese_only(one.drop_last()) =~= Seq::<char>::empty());
    assert(Seq::<char>::empty().push(c) =~= one);
    if b.len() == 0 {
        assert(a + b =~= a);
        assert(chinese_only(a) + chinese_only(b) =~= chinese_only(a));
    } else {
        law_chinese_characters_are_kept_in_order(a, b.drop_last(), c);
        assert((a + b).drop_last() =~= a + b.drop_last());
        assert((a + b).last() == b.last());
        if is_chinese(b.last()) {
            assert(chinese_only(a) + chinese_only(b.drop_last()).push(b.last()) =~= (chinese_only(a)
                + chinese_only(b.drop_last())).push(b.last()));
        }
    }
}

/// Trimming cuts white space off at both ends and nothing else: what is left begins and
/// ends with something else, or is nothing.
pub proof fn law_trimming_cuts_white_space_only(text: Seq<char>)
    ensures
        exists|start: int, end: int| #[trigger] text.subrange(start, end) == trimmed(text) && 0
            <= start <= end <= text.len() && (forall|i: int|
            0 <= i < start || end <= i < text.len() ==> is_white_space(#[trigger] text[i])),
        trimmed(text).len() > 0 ==> !is_white_space(trimmed(text).first()) && !is_white_space(
            trimmed(text).last(),
        ),
{
    let rest = trimmed_start(text);
    let start = lemma_trimmed_start_is_a_suffix(text);
    lemma_trimmed_end_is_a_prefix(rest);
    lemma_trimmed_end_cuts_white_space(rest);
    lemma_trimmed_start_has_no_white_space(text);
    lemma_trimmed_end_has_no_white_space(rest);
    let cut = trimmed_end(rest);
    let end = start + cut.len();
    assert(text.subrange(start, end) =~= cut);
    assert forall|i: int| 0 <= i < start || end <= i < text.len() implies is_white_space(
        #[trigger] text[i],
    ) by {
        if i >= end {
            assert(rest[i - start] == text[i]);
        }
    }
    if cut.len() > 0 {
        assert(cut.first() == rest.first());
    }
}

proof fn lemma_trimmed_start_is_a_suffix(text: Seq<char>) -> (start: int)
    ensures
        0 <= start <= text.len(),
        trimmed_start(text) == text.skip(start),
        forall|i: int| 0 <= i < start ==> is_white_space(#[trigger] text[i]),
    decreases text.len(),
{
    if text.len() > 0 && is_white_space(text.first()) {
        let fewer = text.drop_first();
        let start = lemma_trimmed_start_is_a_suffix(fewer);
        assert(fewer.skip(start) =~= text.skip(start + 1));
        assert forall|i: int| 0 <= i < start + 1 implies is_white_space(#[trigger] text[i]) by {
            if i > 0 {
                assert(fewer[i - 1] == text[i]);
            }
        }
        start + 1
    } else {
        assert(text.skip(0) =~= text);
        0
    }
}

proof fn lemma_trimmed_end_cuts_white_space(text: Seq<char>)
    ensures
        forall|i: int|
            trimmed_end(text).len() <= i < text.len() ==> is_white_space(#[trigger] text[i]),
    decreases text.len(),
{
    if text.len() > 0 && is_white_space(text.last()) {
        let fewer = text.drop_last();
        lemma_trimmed_end_cuts_white_space(fewer);
        assert forall|i: int| trimmed_end(text).len() <= i < text.len() implies is_white_space(
            #[trigger] text[i],
        ) by {
            if i < fewer.len() {
                assert(fewer[i] == text[i]);
            }
        }
    }
}

/// A space, a tab and the ends of lines are white space, and so is the wide space of
/// Chinese text; what is printed is not.
pub proof fn law_printed_characters_are_no_white_space(c: char)
    ensures
        0x09 <= c as u32 <= 0x0D || c as u32 == 0x20 || c as u32 == 0x3000 ==> is_white_space(c),
        0x21 <= c as u32 <= 0x7E ==> !is_white_space(c),
        is_chinese(c) ==> !is_white_space(c),
{
}

/// A number is read from its digits, whatever zeros and whatever plus sign stand before
/// them, and with the other sign behind a minus.
pub proof fn law_numbers_are_read_from_their_digits(n: nat, zeros: nat)
    requires
        n <= i32::MAX,
    ensures
        ({
            let digits = Seq::new(zeros, |i: int| '0') + digits_text(n);
            &&& decimal(digits) == Some(n as int)
            &&& decimal(seq!['+'] + digits) == Some(n as int)
            &&& decimal(seq!['-'] + digits) == Some(-(n as int))
        }),
{
    lemma_digits_text(n);
    let front = Seq::new(zeros, |i: int| '0');
    let digits = front + digits_text(n);
    lemma_leading_zeros(zeros, digits_text(n));
    assert forall|i: int| 0 <= i < digits.len() implies is_digit(#[trigger] digits[i]) by {
        if i >= zeros {
            assert(digits[i] == digits_text(n)[i - zeros]);
        }
    }
    assert(is_digit(digits[0]));
    assert((seq!['+'] + digits).drop_first() =~= digits);
    assert((seq!['-'] + digits).drop_first() =~= digits);
}

proof fn lemma_leading_zeros(zeros: nat, digits: Seq<char>)
    ensures
        digits_value(Seq::new(zeros, |i: int| '0') + digits) == digits_value(digits),
    decreases zeros + digits.len(),
{
    let front = Seq::new(zeros, |i: int| '0');
    let all = front + digits;
    if digits.len() > 0 {
        lemma_leading_zeros(zeros, digits.drop_last());
        assert(all.drop_last() =~= front + digits.drop_last());
        assert(all.last() == digits.last());
    } else if zeros > 0 {
        let fewer = Seq::new((zeros - 1) as nat, |i: int| '0');
        lemma_leading_zeros((zeros - 1) as nat, digits);
        assert(all.drop_last() =~= fewer + digits);
        assert(all.last() == '0');
    } else {
        assert(all =~= digits);
    }
}

/// A text with any other character in it than digits and a sign in front writes no number,
/// nor does a text without digits.
pub proof fn law_other_characters_write_no_number(text: Seq<char>, i: int)
    ensures
        0 <= i < text.len() && !is_digit(text[i]) && !(i == 0 && (text[0] == '-' || text[0] == '+'))
            ==> decimal(text) is None,
        text.len() == 0 ==> decimal(text) is None,
        text.len() == 1 && !is_digit(text[0]) ==> decimal(text) is None,
{
    if 0 <= i < text.len() && !is_digit(text[i]) && i > 0 {
        assert(text.drop_first()[i - 1] == text[i]);
    }
}

/// A text is found wherever it stands, whatever stands around it, and a text that is found
/// stands there character by character.
pub proof fn law_texts_are_found_where_they_stand(
    before: Seq<char>,
    needle: Seq<char>,
    after: Seq<char>,
    text: Seq<char>,
)
    ensures
        occurs_in(before + needle + after, needle),
        occurs_in(text, needle) ==> exists|start: int|
            0 <= start <= text.len() - needle.len() && #[trigger] text.subrange(
                start,
                start + needle.len(),
            ) =~= needle,
{
    let whole = before + needle + after;
    let start = before.len() as int;
    assert(whole.subrange(start, start + needle.len()) =~= needle);
    assert(occurs_at(whole, needle, start));
    if occurs_in(text, needle) {
        let at = choose|at: int| occurs_at(text, needle, at);
        assert(text.subrange(at, at + needle.len()) =~= needle);
    }
}

} // verus!
