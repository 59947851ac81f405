//! Rendering numbers and lists as text.
//!
//! Every readout of the crate is put together from these few pieces, so what a label looks like is
//! stated once here and composed everywhere else.

use vstd::prelude::*;
use vstd::string::*;

verus! {

/// The text of one decimal digit.
pub open spec fn digit_text(digit: nat) -> Seq<char> {
    if digit == 0 {
        "0"@
    } else if digit == 1 {
        "1"@
    } else if digit == 2 {
        "2"@
    } else if digit == 3 {
        "3"@
    } else if digit == 4 {
        "4"@
    } else if digit == 5 {
        "5"@
    } else if digit == 6 {
        "6"@
    } else if digit == 7 {
        "7"@
    } else if digit == 8 {
        "8"@
    } else {
        "9"@
    }
}

/// A number in decimal, without leading zeros.
pub open spec fn decimal_text(number: nat) -> Seq<char>
    decreases number,
{
    if number < 10 {
        digit_text(number)
    } else {
        decimal_text(number / 10) + digit_text(number % 10)
    }
}

/// A number in decimal, padded with zeros to at least four digits.
pub open spec fn padded_text(number: nat) -> Seq<char> {
    if number < 10 {
        "000"@ + decimal_text(number)
    } else if number < 100 {
        "00"@ + decimal_text(number)
    } else if number < 1000 {
        "0"@ + decimal_text(number)
    } else {
        decimal_text(number)
    }
}

/// Texts one after another, with a comma and a space between.
pub open spec fn joined_text(items: Seq<Seq<char>>) -> Seq<char>
    decreases items.len(),
{
    if items.len() == 0 {
        Seq::empty()
    } else if items.len() == 1 {
        items[0]
    } else {
        joined_text(items.drop_last()) + ", "@ + items.last()
    }
}

/// A bracketed list of texts.
pub open spec fn bracketed_text(items: Seq<Seq<char>>) -> Seq<char> {
    "["@ + joined_text(items) + "]"@
}

/// Texts one after another, each behind its place in the list.
pub open spec fn numbered_text(items: Seq<Seq<char>>) -> Seq<char> {
    joined_text(Seq::new(items.len(), |i: int| decimal_text(i as nat) + ": "@ + items[i]))
}

/// A bracketed list of numbers.
pub open spec fn numbers_text(numbers: Seq<usize>) -> Seq<char> {
    bracketed_text(numbers.map_values(|n: usize| decimal_text(n as nat)))
}

/// A bracketed list of bracketed lists of numbers.
pub open spec fn nested_numbers_text(lists: Seq<Seq<usize>>) -> Seq<char> {
    bracketed_text(lists.map_values(|list: Seq<usize>| numbers_text(list)))
}

fn digit(value: usize) -> (text: &'static str)
    requires
        value < 10,
    ensures
        text@ == digit_text(value as nat),
{
    if value == 0 {
        "0"
    } else if value == 1 {
        "1"
    } else if value == 2 {
        "2"
    } else if value == 3 {
        "3"
    } else if value == 4 {
        "4"
    } else if value == 5 {
        "5"
    } else if value == 6 {
        "6"
    } else if value == 7 {
        "7"
    } else if value == 8 {
        "8"
    } else {
        "9"
    }
}

/// A number in decimal.
pub fn decimal(number: usize) -> (text: String)
    ensures
        text@ == decimal_text(number as nat),
    decreases number,
{
    if number < 10 {
        String::from_str(digit(number))
    } else {
        let mut text = decimal(number / 10);
        text.append(digit(number % 10));
        text
    }
}

/// A number in decimal, padded with zeros to at least four digits.
pub fn padded(number: usize) -> (text: String)
    ensures
        text@ == padded_text(number as nat),
{
    let digits = decimal(number);
    let mut text = if number < 10 {
        String::from_str("000")
    } else if number < 100 {
        String::from_str("00")
    } else if number < 1000 {
        String::from_str("0")
    } else {
        return digits;
    };
    text.append(digits.as_str());
    text
}

/// Texts one after another, with a comma and a space between.
pub fn joined(items: &Vec<String>) -> (text: String)
    ensures
        text@ == joined_text(items@.map_values(|item: String| item@)),
{
    let ghost views = items@.map_values(|item: String| item@);
    let mut text = String::new();
    let mut i: usize = 0;
    while i < items.len()
        invariant
            i <= items.len(),
            views == items@.map_values(|item: String| item@),
            text@ == joined_text(views.take(i as int)),
        decreases items.len() - i,
    {
        if i > 0 {
            text.append(", ");
        }
        text.append(items[i].as_str());
        proof {
            assert(views.take(i + 1).drop_last() =~= views.take(i as int));
            assert(views.take(i + 1).last() == items@[i as int]@);
            if i == 0 {
                assert(text@ =~= views[0]);
            }
        }
        i += 1;
    }
    proof {
        assert(views.take(i as int) =~= views);
    }
    text
}

/// A bracketed list of texts.
pub fn bracketed(items: &Vec<String>) -> (text: String)
    ensures
        text@ == bracketed_text(items@.map_values(|item: String| item@)),
{
    let mut text = String::from_str("[");
    text.append(joined(items).as_str());
    text.append("]");
    text
}

/// Texts one after another, each behind its place in the list.
pub fn numbered(items: &Vec<String>) -> (text: String)
    ensures
        text@ == numbered_text(items@.map_values(|item: String| item@)),
{
    let ghost views = items@.map_values(|item: String| item@);
    let mut lines: Vec<String> = Vec::new();
    let mut i: usize = 0;
    while i < items.len()
        invariant
            i <= items.len(),
            views == items@.map_values(|item: String| item@),
            lines.len() == i,
            forall|k: int|
                0 <= k < i ==> (#[trigger] lines@[k])@ == decimal_text(k as nat) + ": "@ + views[k],
        decreases items.len() - i,
    {
        let mut line = decimal(i);
        line.append(": ");
        line.append(items[i].as_str());
        lines.push(line);
        i += 1;
    }
    proof {
        assert(lines@.map_values(|item: String| item@) =~= Seq::new(
            views.len(),
            |i: int| decimal_text(i as nat) + ": "@ + views[i],
        ));
    }
    joined(&lines)
}

/// A bracketed list of numbers.
pub fn numbers(list: &[usize]) -> (text: String)
    ensures
        text@ == numbers_text(list@),
{
    let mut items: Vec<String> = Vec::new();
    let mut i: usize = 0;
    while i < list.len()
        invariant
            i <= list.len(),
            items.len() == i,
            forall|k: int| 0 <= k < i ==> (#[trigger] items@[k])@ == decimal_text(list@[k] as nat),
        decreases list.len() - i,
    {
        items.push(decimal(list[i]));
        i += 1;
    }
    proof {
        assert(items@.map_values(|item: String| item@) =~= list@.map_values(
            |n: usize| decimal_text(n as nat),
        ));
    }
    bracketed(&items)
}

/// A bracketed list of bracketed lists of numbers.
pub fn nested_numbers(lists: &Vec<Vec<usize>>) -> (text: String)
    ensures
        text@ == nested_numbers_text(lists@.map_values(|list: Vec<usize>| list@)),
{
    let mut items: Vec<String> = Vec::new();
    let mut i: usize = 0;
    while i < lists.len()
        invariant
            i <= lists.len(),
            items.len() == i,
            forall|k: int| 0 <= k < i ==> (#[trigger] items@[k])@ == numbers_text(lists@[k]@),
        decreases lists.len() - i,
    {
        items.push(numbers(lists[i].as_slice()));
        i += 1;
    }
    proof {
        assert(items@.map_values(|item: String| item@) =~= lists@.map_values(
            |list: Vec<usize>| list@,
        ).map_values(|list: Seq<usize>| numbers_text(list)));
    }
    bracketed(&items)
}

/// One character of a quoted string: a backslash and a quote are escaped, anything else stands for
/// itself.
pub open spec fn escaped_char(c: char) -> Seq<char> {
    if c == '\\' {
        "\\\\"@
    } else if c == '"' {
        "\\\""@
    } else {
        seq![c]
    }
}

/// A text with every backslash and every quote escaped.
pub open spec fn escaped_text(text: Seq<char>) -> Seq<char>
    decreases text.len(),
{
    if text.len() == 0 {
        Seq::empty()
    } else {
        escaped_text(text.drop_last()) + escaped_char(text.last())
    }
}

/// A text as a quoted string.
pub open spec fn quoted_text(text: Seq<char>) -> Seq<char> {
    "\""@ + escaped_text(text) + "\""@
}

/// A text as a quoted string, with every backslash and every quote in it escaped.
pub fn quoted(text: &str) -> (result: String)
    ensures
        result@ == quoted_text(text@),
{
    let mut inner = String::new();
    let len: usize = text.unicode_len();
    let mut i: usize = 0;
    while i < len
        invariant
            i <= len == text@.len(),
            inner@ == escaped_text(text@.take(i as int)),
        decreases len - i,
    {
        let c = text.get_char(i);
        if c == '\\' {
            inner.append("\\\\");
        } else if c == '"' {
            inner.append("\\\"");
        } else {
            let one = text.substring_char(i, i + 1);
            proof {
                assert(one@ =~= seq![c]);
            }
            inner.append(one);
        }
        proof {
            assert(text@.take(i + 1).drop_last() =~= text@.take(i as int));
            assert(text@.take(i + 1).last() == c);
        }
        i += 1;
    }
    proof {
        assert(text@.take(i as int) =~= text@);
    }
    let mut result = String::from_str("\"");
    result.append(inner.as_str());
    result.append("\"");
    result
}

/// Whether two texts are the same.
pub fn same(left: &str, right: &str) -> (equal: bool)
    ensures
        equal == (left@ == right@),
{
    let len: usize = left.unicode_len();
    if len != right.unicode_len() {
        return false;
    }
    let mut i: usize = 0;
    while i < len
        invariant
            i <= len == left@.len() == right@.len(),
            left@.take(i as int) == right@.take(i as int),
        decreases len - i,
    {
        if left.get_char(i) != right.get_char(i) {
            assert(left@[i as int] != right@[i as int]);
            return false;
        }
        assert(left@.take(i + 1) =~= left@.take(i as int).push(left@[i as int]));
        assert(right@.take(i + 1) =~= right@.take(i as int).push(right@[i as int]));
        i += 1;
    }
    assert(left@.take(i as int) =~= left@);
    assert(right@.take(i as int) =~= right@);
    true
}

/// Whether one text comes before another from position `at` on, the first difference deciding and a
/// prefix coming before what it is a prefix of.
pub open spec fn before_from(left: Seq<char>, right: Seq<char>, at: int) -> bool
    decreases left.len() - at,
{
    if at >= right.len() {
        false
    } else if at >= left.len() {
        true
    } else if left[at] != right[at] {
        left[at] < right[at]
    } else {
        before_from(left, right, at + 1)
    }
}

/// Whether one text comes before another in dictionary order, letters ordered by code point.
pub open spec fn text_before(left: Seq<char>, right: Seq<char>) -> bool {
    before_from(left, right, 0)
}

/// Whether one text comes before another in dictionary order.
pub fn before(left: &str, right: &str) -> (earlier: bool)
    ensures
        earlier == text_before(left@, right@),
{
    let left_len: usize = left.unicode_len();
    let right_len: usize = right.unicode_len();
    let mut at: usize = 0;
    loop
        invariant
            at <= left_len == left@.len(),
            at <= right_len == right@.len(),
            text_before(left@, right@) == before_from(left@, right@, at as int),
        decreases left_len - at,
    {
        if at >= right_len {
            return false;
        }
        if at >= left_len {
            return true;
        }
        let l = left.get_char(at);
        let r = right.get_char(at);
        if l != r {
            return l < r;
        }
        at += 1;
    }
}

/// No text comes before itself, and of two texts at most one comes before the other.
pub proof fn lemma_before_is_asymmetric(left: Seq<char>, right: Seq<char>)
    ensures
        !(text_before(left, right) && text_before(right, left)),
        !text_before(left, left),
{
    lemma_before_asymmetric_from(left, right, 0);
    lemma_before_asymmetric_from(left, left, 0);
}

proof fn lemma_before_asymmetric_from(left: Seq<char>, right: Seq<char>, at: int)
    requires
        at >= 0,
    ensures
        !(before_from(left, right, at) && before_from(right, left, at)),
    decreases left.len() - at,
{
    if at < left.len() && at < right.len() {
        lemma_before_asymmetric_from(left, right, at + 1);
    }
}

/// Of two different texts one comes before the other.
pub proof fn lemma_before_is_total(left: Seq<char>, right: Seq<char>)
    ensures
        text_before(left, right) || text_before(right, left) || left == right,
{
    assert(left.take(0) =~= right.take(0));
    lemma_before_total_from(left, right, 0);
}

proof fn lemma_before_total_from(left: Seq<char>, right: Seq<char>, at: int)
    requires
        0 <= at <= left.len(),
        at <= right.len(),
        left.take(at) == right.take(at),
    ensures
        before_from(left, right, at) || before_from(right, left, at) || left == right,
    decreases left.len() - at,
{
    if at < left.len() && at < right.len() {
        if left[at] == right[at] {
            assert(left.take(at + 1) =~= left.take(at).push(left[at]));
            assert(right.take(at + 1) =~= right.take(at).push(right[at]));
            lemma_before_total_from(left, right, at + 1);
        }
    } else if at == left.len() && at == right.len() {
        assert(left.take(at) =~= left);
        assert(right.take(at) =~= right);
    }
}

/// The order of texts is transitive.
pub proof fn lemma_before_is_transitive(a: Seq<char>, b: Seq<char>, c: Seq<char>)
    requires
        text_before(a, b),
        text_before(b, c),
    ensures
        text_before(a, c),
{
    lemma_before_transitive_from(a, b, c, 0);
}

proof fn lemma_before_transitive_from(a: Seq<char>, b: Seq<char>, c: Seq<char>, at: int)
    requires
        at >= 0,
        before_from(a, b, at),
        before_from(b, c, at),
    ensures
        before_from(a, c, at),
    decreases a.len() - at,
{
    if at < a.len() && at < b.len() && at < c.len() && a[at] == b[at] && b[at] == c[at] {
        lemma_before_transitive_from(a, b, c, at + 1);
    }
}

proof fn lemma_before_concat_from(
    left: Seq<char>,
    right: Seq<char>,
    left_rest: Seq<char>,
    right_rest: Seq<char>,
    at: int,
)
    requires
        left.len() == right.len(),
        0 <= at <= left.len(),
    ensures
        before_from(left, right, at) ==> before_from(left + left_rest, right + right_rest, at),
        left == right ==> before_from(left + left_rest, right + right_rest, at) == before_from(
            left + left_rest,
            right + right_rest,
            left.len() as int,
        ),
    decreases left.len() - at,
{
    if at < left.len() {
        lemma_before_concat_from(left, right, left_rest, right_rest, at + 1);
    }
}

proof fn lemma_before_tail(front: Seq<char>, left: Seq<char>, right: Seq<char>, at: int)
    requires
        at >= 0,
    ensures
        before_from(front + left, front + right, front.len() + at) == before_from(left, right, at),
    decreases left.len() - at,
{
    if at < left.len() && at < right.len() {
        lemma_before_tail(front, left, right, at + 1);
    }
}

/// Of two texts that start equally long, the starts decide the order, and where they are the same the rests do.
pub proof fn lemma_starts_decide(
    left: Seq<char>,
    right: Seq<char>,
    left_rest: Seq<char>,
    right_rest: Seq<char>,
)
    requires
        left.len() == right.len(),
    ensures
        text_before(left, right) ==> text_before(left + left_rest, right + right_rest),
        left == right ==> text_before(left + left_rest, right + right_rest) == text_before(
            left_rest,
            right_rest,
        ),
{
    lemma_before_concat_from(left, right, left_rest, right_rest, 0);
    if left == right {
        lemma_before_tail(left, left_rest, right_rest, 0);
    }
}

/// How many digits a number has when it is padded to at least four.
pub open spec fn padded_width(number: nat) -> nat
    decreases number,
{
    if number < 10000 {
        4
    } else {
        1 + padded_width(number / 10)
    }
}

/// The last digits of a number, this many.
pub open spec fn digits(number: nat, width: nat) -> Seq<char>
    decreases width,
{
    if width == 0 {
        Seq::empty()
    } else {
        digits(number / 10, (width - 1) as nat) + digit_text(number % 10)
    }
}

/// A number without its last digits, this many of them.
pub open spec fn shortened(number: nat, count: nat) -> nat
    decreases count,
{
    if count == 0 {
        number
    } else {
        shortened(number / 10, (count - 1) as nat)
    }
}

proof fn lemma_digit(digit: nat)
    requires
        digit < 10,
    ensures
        digit_text(digit).len() == 1,
        digit_text(digit)[0] as int == '0' as int + digit,
{
    reveal_strlit("0");
    reveal_strlit("1");
    reveal_strlit("2");
    reveal_strlit("3");
    reveal_strlit("4");
    reveal_strlit("5");
    reveal_strlit("6");
    reveal_strlit("7");
    reveal_strlit("8");
    reveal_strlit("9");
}

proof fn lemma_padded_small(number: nat)
    requires
        number < 10000,
    ensures
        padded_text(number) == digits(number, 4),
{
    reveal_strlit("0");
    reveal_strlit("00");
    reveal_strlit("000");
    let ones = digit_text(number % 10);
    let tens = digit_text((number / 10) % 10);
    let hundreds = digit_text((number / 10 / 10) % 10);
    let thousands = digit_text((number / 10 / 10 / 10) % 10);
    lemma_digit(number % 10);
    lemma_digit((number / 10) % 10);
    lemma_digit((number / 10 / 10) % 10);
    lemma_digit((number / 10 / 10 / 10) % 10);
    assert(digits(number, 4) =~= thousands + hundreds + tens + ones) by {
        reveal_with_fuel(digits, 5);
    }
    if number < 10 {
        assert(decimal_text(number) == ones);
        assert(padded_text(number) =~= thousands + hundreds + tens + ones);
    } else if number < 100 {
        assert(decimal_text(number / 10) == tens);
        assert(decimal_text(number) == tens + ones);
        assert(padded_text(number) =~= thousands + hundreds + tens + ones);
    } else if number < 1000 {
        assert(decimal_text(number / 10 / 10) == hundreds);
        assert(decimal_text(number / 10) == hundreds + tens);
        assert(decimal_text(number) == hundreds + tens + ones);
        assert(padded_text(number) =~= thousands + hundreds + tens + ones);
    } else {
        assert(decimal_text(number / 10 / 10 / 10) == thousands);
        assert(decimal_text(number / 10 / 10) == thousands + hundreds);
        assert(decimal_text(number / 10) == thousands + hundreds + tens);
        assert(decimal_text(number) == thousands + hundreds + tens + ones);
        assert(padded_text(number) =~= thousands + hundreds + tens + ones);
    }
}

proof fn lemma_padded_digits(number: nat)
    ensures
        padded_text(number) == digits(number, padded_width(number)),
        shortened(number, padded_width(number)) == 0,
    decreases number,
{
    if number < 10000 {
        lemma_padded_small(number);
        reveal_with_fuel(shortened, 5);
    } else {
        lemma_padded_digits(number / 10);
        assert(padded_text(number / 10) == decimal_text(number / 10));
    }
}

proof fn lemma_digits_order(left: nat, right: nat, width: nat)
    requires
        shortened(left, width) == 0,
        shortened(right, width) == 0,
    ensures
        digits(left, width).len() == width,
        digits(right, width).len() == width,
        left < right ==> text_before(digits(left, width), digits(right, width)),
    decreases width,
{
    if width > 0 {
        let shorter = (width - 1) as nat;
        lemma_digits_order(left / 10, right / 10, shorter);
        lemma_digit(left % 10);
        lemma_digit(right % 10);
        lemma_starts_decide(
            digits(left / 10, shorter),
            digits(right / 10, shorter),
            digit_text(left % 10),
            digit_text(right % 10),
        );
        if left < right && left / 10 == right / 10 {
            assert(left % 10 < right % 10);
            assert(text_before(digit_text(left % 10), digit_text(right % 10)));
        }
    }
}

proof fn lemma_digits_split(number: nat, width: nat, count: nat) -> (rest: Seq<char>)
    ensures
        digits(number, width + count) == digits(shortened(number, count), width) + rest,
        rest.len() == count,
        shortened(shortened(number, count), width) == shortened(number, width + count),
    decreases count,
{
    if count == 0 {
        let rest = Seq::<char>::empty();
        assert(digits(number, width) + rest =~= digits(number, width));
        rest
    } else {
        let inner = lemma_digits_split(number / 10, width, (count - 1) as nat);
        lemma_digit(number % 10);
        let rest = inner + digit_text(number % 10);
        assert(digits(number, width + count) =~= digits(shortened(number, count), width) + rest);
        rest
    }
}

proof fn lemma_padded_width_grows(left: nat, right: nat)
    requires
        left <= right,
    ensures
        padded_width(left) <= padded_width(right),
        padded_width(left) >= 4,
    decreases right,
{
    if left >= 10000 {
        lemma_padded_width_grows(left / 10, right / 10);
    } else if right >= 10000 {
        lemma_padded_width_grows(0, right / 10);
    }
}

/// Of two numbers padded to at least four digits, the lower comes before the higher in dictionary order exactly
/// when it is no more than the higher cut to as many digits; so always when they have as many digits, and below
/// ten thousand in particular.
pub proof fn lemma_padded_numbers_in_order(left: nat, right: nat)
    requires
        left < right,
    ensures
        padded_width(left) <= padded_width(right),
        text_before(padded_text(left), padded_text(right)) <==> left <= shortened(
            right,
            (padded_width(right) - padded_width(left)) as nat,
        ),
        padded_width(left) == padded_width(right) ==> text_before(
            padded_text(left),
            padded_text(right),
        ),
        right < 10000 ==> text_before(padded_text(left), padded_text(right)),
{
    lemma_padded_width_grows(left, right);
    lemma_padded_digits(left);
    lemma_padded_digits(right);
    let width = padded_width(left);
    let more = (padded_width(right) - width) as nat;
    let rest = lemma_digits_split(right, width, more);
    let start = shortened(right, more);
    lemma_digits_order(left, start, width);
    lemma_digits_order(start, left, width);
    let empty = Seq::<char>::empty();
    lemma_starts_decide(digits(left, width), digits(start, width), empty, rest);
    lemma_starts_decide(digits(start, width), digits(left, width), rest, empty);
    assert(digits(left, width) + empty =~= digits(left, width));
    lemma_before_is_asymmetric(padded_text(left), padded_text(right));
}

/// Whether a list of texts is in strictly ascending order.
pub open spec fn ascending(texts: Seq<Seq<char>>) -> bool {
    forall|i: int, j: int|
        0 <= i < j < texts.len() ==> text_before(#[trigger] texts[i], #[trigger] texts[j])
}

/// The texts of a list of strings.
pub open spec fn texts_of(strings: Seq<String>) -> Seq<Seq<char>> {
    strings.map_values(|string: String| string@)
}

/// Put a list of distinct strings in ascending order.
pub fn sorted(strings: Vec<String>) -> (result: Vec<String>)
    requires
        texts_of(strings@).no_duplicates(),
    ensures
        ascending(texts_of(result@)),
        texts_of(result@).to_set() == texts_of(strings@).to_set(),
        result.len() == strings.len(),
{
    let ghost given = texts_of(strings@);
    let mut result: Vec<String> = Vec::new();
    let mut i: usize = 0;
    while i < strings.len()
        invariant
            i <= strings.len(),
            given == texts_of(strings@),
            given.no_duplicates(),
            result.len() == i,
            ascending(texts_of(result@)),
            forall|t: Seq<char>| #[trigger]
                texts_of(result@).contains(t) <==> given.take(i as int).contains(t),
        decreases strings.len() - i,
    {
        let text = strings[i].clone();
        let ghost front = texts_of(result@);
        assert(!front.contains(text@)) by {
            if front.contains(text@) {
                let k = choose|k: int| 0 <= k < given.take(i as int).len() && given.take(i as int)[k]
                    == text@;
                assert(given[k] == given[i as int]);
            }
        }
        let mut at: usize = 0;
        while at < result.len() && before(result[at].as_str(), text.as_str())
            invariant
                at <= result.len(),
                front == texts_of(result@),
                forall|j: int| 0 <= j < at ==> text_before(#[trigger] front[j], text@),
            decreases result.len() - at,
        {
            assert(front[at as int] == result@[at as int]@);
            at += 1;
        }
        proof {
            assert forall|j: int| at <= j < front.len() implies text_before(
                text@,
                #[trigger] front[j],
            ) by {
                assert(front[at as int] == result@[at as int]@);
                assert(front.contains(front[at as int]));
                lemma_before_is_total(text@, front[at as int]);
                if j > at {
                    lemma_before_is_transitive(text@, front[at as int], front[j]);
                }
            }
        }
        result.insert(at, text);
        proof {
            let after = texts_of(result@);
            let done = given.take(i as int);
            let next = given.take(i + 1);
            assert(after =~= front.insert(at as int, text@));
            assert forall|t: Seq<char>| #[trigger]
                after.contains(t) <==> next.contains(t) by {
                assert(next =~= done.push(text@));
                if after.contains(t) {
                    let k = choose|k: int| 0 <= k < after.len() && after[k] == t;
                    if k < at {
                        assert(front[k] == t);
                        assert(front.contains(t));
                    } else if k > at {
                        assert(front[k - 1] == t);
                        assert(front.contains(t));
                    }
                    if done.contains(t) {
                        let l = choose|l: int|
                            0 <= l < done.len() && done[l] == t;
                        assert(next[l] == t);
                    } else {
                        assert(next[i as int] == t);
                    }
                }
                if next.contains(t) {
                    let l = choose|l: int|
                        0 <= l < next.len() && next[l] == t;
                    if l < i {
                        assert(done[l] == t);
                        assert(front.contains(t));
                        let k = choose|k: int| 0 <= k < front.len() && front[k] == t;
                        if k < at {
                            assert(after[k] == t);
                        } else {
                            assert(after[k + 1] == t);
                        }
                    } else {
                        assert(after[at as int] == t);
                    }
                }
            }
        }
        i += 1;
    }
    proof {
        assert(given.take(i as int) =~= given);
        assert forall|t: Seq<char>|
            texts_of(result@).to_set().contains(t) <==> given.to_set().contains(t) by {
            assert(texts_of(result@).contains(t) <==> given.contains(t));
        }
        assert(texts_of(result@).to_set() =~= given.to_set());
    }
    result
}

} // verus!
