//! The best scores and line counts of past games, and the text in which they are kept.
//!
//! The text has two lines, the scores first and the line counts second,
//! each a list of decimal numbers with one space between them, and each line
//! ended by a newline. Reading it back, the first line gives the first list
//! and the second line the second; what follows the second line is not
//! looked at, and a piece between two spaces that is not a number is passed
//! over. A text that was written reads back as the lists that it was written
//! from.

use vstd::prelude::*;
use vstd::seq_lib::to_multiset_update;

verus! {

/// How many entries a list of best results holds.
pub const NB_HIGHSCORES: usize = 5;

/// The byte of a space.
pub const SPACE: u8 = 32;

/// The byte of a newline.
pub const NEWLINE: u8 = 10;

/// The byte of a plus sign.
pub const PLUS: u8 = 43;

/// The byte of the digit zero.
pub const ZERO: u8 = 48;

/// The decimal digits of a number, the leading one first.
pub open spec fn decimal(n: nat) -> Seq<u8>
    decreases n,
{
    if n < 10 {
        seq![(48 + n) as u8]
    } else {
        decimal(n / 10).push((48 + n % 10) as u8)
    }
}

/// The numbers in decimal, with one space between two of them.
pub open spec fn joined(values: Seq<u32>) -> Seq<u8>
    decreases values.len(),
{
    if values.len() == 0 {
        Seq::empty()
    } else if values.len() == 1 {
        decimal(values[0] as nat)
    } else {
        joined(values.drop_last()).push(SPACE) + decimal(values.last() as nat)
    }
}

/// The text that keeps two lists: a line for each.
pub open spec fn record_text(highscores: Seq<u32>, number_of_lines: Seq<u32>) -> Seq<u8> {
    joined(highscores).push(NEWLINE) + joined(number_of_lines).push(NEWLINE)
}

/// Whether a byte is a decimal digit.
pub open spec fn is_digit(b: u8) -> bool {
    48 <= b <= 57
}

/// Whether every byte is a decimal digit.
pub open spec fn all_digits(digits: Seq<u8>) -> bool {
    forall|i: int| 0 <= i < digits.len() ==> is_digit(#[trigger] digits[i])
}

/// The number that decimal digits stand for.
pub open spec fn digits_value(digits: Seq<u8>) -> nat
    decreases digits.len(),
{
    if digits.len() == 0 {
        0
    } else {
        (digits_value(digits.drop_last()) * 10 + (digits.last() - 48)) as nat
    }
}

/// The digits of a token: all of it, but for a plus sign in front.
pub open spec fn token_digits(token: Seq<u8>) -> Seq<u8> {
    if token.len() > 0 && token[0] == PLUS {
        token.subrange(1, token.len() as int)
    } else {
        token
    }
}

/// The number that a token stands for: it is made of one decimal digit or
/// more, with or without a plus sign in front, and is at most the largest `u32`.
pub open spec fn token_value(token: Seq<u8>) -> Option<u32> {
    let digits = token_digits(token);
    if digits.len() > 0 && all_digits(digits) && digits_value(digits) <= u32::MAX {
        Some(digits_value(digits) as u32)
    } else {
        None
    }
}

/// `token_value` as a function value.
pub open spec fn token_parser() -> spec_fn(Seq<u8>) -> Option<u32> {
    |token: Seq<u8>| token_value(token)
}

/// The pieces into which a text falls at each occurrence of `sep`. There is
/// always one piece more than there are separators; a piece may be empty.
pub open spec fn split(text: Seq<u8>, sep: u8) -> Seq<Seq<u8>>
    decreases text.len(),
{
    if text.len() == 0 {
        seq![Seq::empty()]
    } else {
        let before = split(text.drop_last(), sep);
        if text.last() == sep {
            before.push(Seq::empty())
        } else {
            before.drop_last().push(before.last().push(text.last()))
        }
    }
}

/// The numbers of a line: of its pieces between spaces, those that are numbers.
pub open spec fn parsed_line(line: Seq<u8>) -> Seq<u32> {
    split(line, SPACE).filter_map(token_parser())
}

/// The first line of a text: what lies before its first newline, or all of
/// it where it holds none.
pub open spec fn first_line(text: Seq<u8>) -> Seq<u8> {
    match text.index_of_first(NEWLINE) {
        Some(end) => text.subrange(0, end),
        None => text,
    }
}

/// The two lists that a text keeps, the first on its first line and the
/// second on its second; none if the text holds no newline.
pub open spec fn parsed_record(content: Seq<u8>) -> Option<(Seq<u32>, Seq<u32>)> {
    match content.index_of_first(NEWLINE) {
        Some(at) => Some(
            (
                parsed_line(content.subrange(0, at)),
                parsed_line(first_line(content.subrange(at + 1, content.len() as int))),
            ),
        ),
        None => None,
    }
}

/// The decimal form of each number of a list, in the list's order.
pub open spec fn decimals(values: Seq<u32>) -> Seq<Seq<u8>> {
    Seq::new(values.len(), |i: int| decimal(values[i] as nat))
}

/// A text always falls into at least one piece.
pub proof fn lemma_split_nonempty(text: Seq<u8>, sep: u8)
    ensures
        split(text, sep).len() >= 1,
    decreases text.len(),
{
    if text.len() > 0 {
        lemma_split_nonempty(text.drop_last(), sep);
    }
}

/// Bytes without a separator, put behind a text, lengthen its last piece.
pub proof fn lemma_split_tail(text: Seq<u8>, tail: Seq<u8>, sep: u8)
    requires
        forall|i: int| 0 <= i < tail.len() ==> tail[i] != sep,
    ensures
        split(text, sep).len() >= 1,
        split(text + tail, sep) == split(text, sep).drop_last().push(
            split(text, sep).last() + tail,
        ),
    decreases tail.len(),
{
    lemma_split_nonempty(text, sep);
    let pieces = split(text, sep);
    if tail.len() == 0 {
        assert(text + tail == text);
        assert(pieces.last() + tail == pieces.last());
        assert(pieces.drop_last().push(pieces.last()) == pieces);
    } else {
        let shorter = tail.drop_last();
        lemma_split_tail(text, shorter, sep);
        let whole = text + tail;
        assert(whole.drop_last() == text + shorter);
        assert(whole.last() == tail.last());
        let before = split(text + shorter, sep);
        assert(before.drop_last() == pieces.drop_last());
        assert(before.last().push(tail.last()) == pieces.last() + tail);
    }
}

/// The decimal form of a number is made of digits, one at least, and stands for the number.
pub proof fn lemma_decimal(n: nat)
    ensures
        decimal(n).len() >= 1,
        all_digits(decimal(n)),
        digits_value(decimal(n)) == n,
    decreases n,
{
    if n < 10 {
        let d = decimal(n);
        assert(d.drop_last() == Seq::<u8>::empty());
        assert(digits_value(d.drop_last()) == 0);
        assert(d.last() == (48 + n) as u8);
    } else {
        lemma_decimal(n / 10);
        let front = decimal(n / 10);
        let d = decimal(n);
        assert(d == front.push((48 + n % 10) as u8));
        assert(d.drop_last() == front);
        assert(d.last() == (48 + n % 10) as u8);
        assert forall|i: int| 0 <= i < d.len() implies is_digit(#[trigger] d[i]) by {
            if i < front.len() {
                assert(d[i] == front[i]);
            }
        }
    }
}

/// A number's decimal form reads back as the number.
pub proof fn lemma_token_of_decimal(n: u32)
    ensures
        token_value(decimal(n as nat)) == Some(n),
        forall|i: int| 0 <= i < decimal(n as nat).len() ==> decimal(n as nat)[i] != SPACE,
        forall|i: int| 0 <= i < decimal(n as nat).len() ==> decimal(n as nat)[i] != NEWLINE,
{
    lemma_decimal(n as nat);
    let d = decimal(n as nat);
    assert(is_digit(d[0]));
    assert(token_digits(d) == d);
    assert forall|i: int| 0 <= i < d.len() implies d[i] != SPACE && d[i] != NEWLINE by {
        assert(is_digit(d[i]));
    }
}

/// A written list holds no newline.
pub proof fn lemma_joined_has_no_newline(values: Seq<u32>)
    ensures
        forall|i: int| 0 <= i < joined(values).len() ==> joined(values)[i] != NEWLINE,
    decreases values.len(),
{
    if values.len() == 1 {
        lemma_token_of_decimal(values[0]);
    } else if values.len() > 1 {
        lemma_joined_has_no_newline(values.drop_last());
        lemma_token_of_decimal(values.last());
        let front = joined(values.drop_last()).push(SPACE);
        let tail = decimal(values.last() as nat);
        assert forall|i: int| 0 <= i < joined(values).len() implies joined(values)[i]
            != NEWLINE by {
            if i < front.len() - 1 {
                assert(joined(values)[i] == joined(values.drop_last())[i]);
            } else if i == front.len() - 1 {
                assert(joined(values)[i] == SPACE);
            } else {
                assert(joined(values)[i] == tail[i - front.len()]);
            }
        }
    }
}

/// A written list falls, at its spaces, into the decimal forms of its numbers.
pub proof fn lemma_split_joined(values: Seq<u32>)
    requires
        values.len() >= 1,
    ensures
        split(joined(values), SPACE) == decimals(values),
    decreases values.len(),
{
    let tail = decimal(values.last() as nat);
    lemma_token_of_decimal(values.last());
    if values.len() == 1 {
        let nothing = Seq::<u8>::empty();
        lemma_split_tail(nothing, tail, SPACE);
        assert(nothing + tail == tail);
        assert(split(nothing, SPACE) == seq![nothing]);
        assert(seq![nothing].drop_last().push(nothing + tail) == decimals(values));
    } else {
        let shorter = values.drop_last();
        lemma_split_joined(shorter);
        let front = joined(shorter).push(SPACE);
        assert(front.drop_last() == joined(shorter));
        assert(split(front, SPACE) == decimals(shorter).push(Seq::<u8>::empty()));
        lemma_split_tail(front, tail, SPACE);
        assert(Seq::<u8>::empty() + tail == tail);
        assert(decimals(shorter).push(Seq::<u8>::empty()).drop_last() == decimals(shorter));
        assert(decimals(shorter).push(tail) == decimals(values));
    }
}

/// The decimal forms of the numbers of a list read back as the list.
pub proof fn lemma_decimals_read_back(values: Seq<u32>)
    ensures
        decimals(values).filter_map(token_parser()) == values,
    decreases values.len(),
{
    if values.len() > 0 {
        let shorter = values.drop_last();
        lemma_decimals_read_back(shorter);
        lemma_token_of_decimal(values.last());
        assert(decimals(values).drop_last() == decimals(shorter));
        assert(decimals(values).last() == decimal(values.last() as nat));
        assert(shorter + seq![values.last()] == values);
    }
}

/// A written list reads back as the list.
pub proof fn lemma_line_round_trip(values: Seq<u32>)
    ensures
        parsed_line(joined(values)) == values,
{
    if values.len() == 0 {
        let nothing = Seq::<u8>::empty();
        assert(split(nothing, SPACE) == seq![nothing]);
        assert(seq![nothing].drop_last() == Seq::<Seq<u8>>::empty());
        assert(token_value(nothing).is_none());
        assert(seq![nothing].filter_map(token_parser()) == Seq::<u32>::empty()) by {
            assert(Seq::<Seq<u8>>::empty().filter_map(token_parser()) == Seq::<u32>::empty());
        }
        assert(values == Seq::<u32>::empty());
    } else {
        lemma_split_joined(values);
        lemma_decimals_read_back(values);
    }
}

/// Reading undoes writing: the text written for two lists reads back as those lists.
pub proof fn lemma_record_round_trip(highscores: Seq<u32>, number_of_lines: Seq<u32>)
    ensures
        parsed_record(record_text(highscores, number_of_lines)) == Some(
            (highscores, number_of_lines),
        ),
{
    let first = joined(highscores);
    let second = joined(number_of_lines);
    let content = record_text(highscores, number_of_lines);
    lemma_joined_has_no_newline(highscores);
    lemma_joined_has_no_newline(number_of_lines);
    lemma_line_round_trip(highscores);
    lemma_line_round_trip(number_of_lines);
    let at = first.len() as int;
    assert(content.len() == first.len() + second.len() + 2);
    assert forall|j: int| 0 <= j < at implies content[j] != NEWLINE by {
        assert(content[j] == first[j]);
    }
    assert(content[at] == NEWLINE);
    lemma_first_newline(content, at);
    assert(content.subrange(0, at) == first);
    let rest = content.subrange(at + 1, content.len() as int);
    assert(rest == second.push(NEWLINE));
    assert forall|j: int| 0 <= j < second.len() implies rest[j] != NEWLINE by {
        assert(rest[j] == second[j]);
    }
    lemma_first_newline(rest, second.len() as int);
    assert(rest.subrange(0, second.len() as int) == second);
}

/// The digits read so far never stand for more than all the digits do.
pub proof fn lemma_digits_value_grows(digits: Seq<u8>, k: int)
    requires
        all_digits(digits),
        0 <= k <= digits.len(),
    ensures
        digits_value(digits.subrange(0, k)) <= digits_value(digits),
    decreases digits.len() - k,
{
    if k == digits.len() {
        assert(digits.subrange(0, k) == digits);
    } else {
        let longer = digits.subrange(0, k + 1);
        assert(longer.drop_last() == digits.subrange(0, k));
        assert(is_digit(digits[k]));
        assert(longer.last() == digits[k]);
        lemma_digits_value_grows(digits, k + 1);
    }
}

/// Appends the decimal digits of `n`.
fn push_decimal(out: &mut Vec<u8>, n: u32)
    ensures
        final(out)@ == old(out)@ + decimal(n as nat),
    decreases n,
{
    if n >= 10 {
        push_decimal(out, n / 10);
    }
    out.push(ZERO + (n % 10) as u8);
}

/// The numbers in decimal, with one space between two of them.
pub fn slice_to_string(slice: &[u32]) -> (text: Vec<u8>)
    ensures
        text@ == joined(slice@),
{
    let mut text: Vec<u8> = Vec::new();
    let mut i: usize = 0;
    while i < slice.len()
        invariant
            0 <= i <= slice.len(),
            text@ == joined(slice@.subrange(0, i as int)),
        decreases slice.len() - i,
    {
        proof {
            assert(slice@.subrange(0, i + 1).drop_last() == slice@.subrange(0, i as int));
            assert(slice@.subrange(0, i + 1).last() == slice@[i as int]);
        }
        if i > 0 {
            text.push(SPACE);
        }
        push_decimal(&mut text, slice[i]);
        i += 1;
    }
    assert(slice@.subrange(0, i as int) == slice@);
    text
}

/// The text in which the two lists are kept: the scores on the first line,
/// the line counts on the second.
pub fn save_highscores_and_lines(highscores: &[u32], number_of_lines: &[u32]) -> (content: Vec<u8>)
    ensures
        content@ == record_text(highscores@, number_of_lines@),
{
    let mut content = slice_to_string(highscores);
    content.push(NEWLINE);
    let mut second = slice_to_string(number_of_lines);
    second.push(NEWLINE);
    content.append(&mut second);
    content
}

/// The number that the bytes from `start` up to `end` stand for, if they stand for one.
fn parse_token(line: &[u8], start: usize, end: usize) -> (value: Option<u32>)
    requires
        start <= end <= line.len(),
    ensures
        value == token_value(line@.subrange(start as int, end as int)),
{
    let ghost token = line@.subrange(start as int, end as int);
    let mut i = start;
    if i < end && line[i] == PLUS {
        i += 1;
    }
    let first = i;
    let ghost digits = line@.subrange(first as int, end as int);
    assert(digits == token_digits(token));
    if i == end {
        return None;
    }
    let mut acc: u64 = 0;
    while i < end
        invariant
            start <= first <= i <= end <= line.len(),
            first < end,
            token == line@.subrange(start as int, end as int),
            digits == line@.subrange(first as int, end as int),
            digits == token_digits(token),
            all_digits(digits.subrange(0, i - first)),
            acc == digits_value(digits.subrange(0, i - first)),
            acc <= u32::MAX,
        decreases end - i,
    {
        let b = line[i];
        if b < 48 || b > 57 {
            assert(!is_digit(digits[i - first]));
            return None;
        }
        proof {
            let longer = digits.subrange(0, i + 1 - first);
            assert(longer.drop_last() == digits.subrange(0, i - first));
            assert(longer.last() == b);
            assert forall|j: int| 0 <= j < longer.len() implies is_digit(#[trigger] longer[j]) by {
                if j < i - first {
                    assert(longer[j] == digits.subrange(0, i - first)[j]);
                }
            }
        }
        acc = acc * 10 + (b - 48) as u64;
        if acc > u32::MAX as u64 {
            proof {
                if all_digits(digits) {
                    lemma_digits_value_grows(digits, i + 1 - first);
                }
            }
            return None;
        }
        i += 1;
    }
    assert(digits.subrange(0, i - first) == digits);
    Some(acc as u32)
}

/// The numbers of a line: of its pieces between spaces, those that are numbers, in their order.
pub fn line_to_slice(line: &[u8]) -> (values: Vec<u32>)
    ensures
        values@ == parsed_line(line@),
{
    assert(line@.subrange(0, line@.len() as int) == line@);
    parse_range(line, 0, line.len())
}

/// The numbers of the part of a text from `from` up to `to`.
fn parse_range(text: &[u8], from: usize, to: usize) -> (values: Vec<u32>)
    requires
        from <= to <= text.len(),
    ensures
        values@ == parsed_line(text@.subrange(from as int, to as int)),
{
    let ghost line = text@.subrange(from as int, to as int);
    let mut values: Vec<u32> = Vec::new();
    let mut start = from;
    let mut i = from;
    assert(line.subrange(0, 0) == Seq::<u8>::empty());
    assert(split(line.subrange(0, 0), SPACE) == seq![Seq::<u8>::empty()]);
    assert(seq![Seq::<u8>::empty()].drop_last().filter_map(token_parser()) == Seq::<u32>::empty());
    assert(text@.subrange(from as int, from as int) == Seq::<u8>::empty());
    while i < to
        invariant
            from <= start <= i <= to <= text.len(),
            line == text@.subrange(from as int, to as int),
            split(line.subrange(0, i - from), SPACE).len() >= 1,
            values@ == split(line.subrange(0, i - from), SPACE).drop_last().filter_map(
                token_parser(),
            ),
            split(line.subrange(0, i - from), SPACE).last() == text@.subrange(
                start as int,
                i as int,
            ),
        decreases to - i,
    {
        let ghost pieces = split(line.subrange(0, i - from), SPACE);
        proof {
            let longer = line.subrange(0, i + 1 - from);
            assert(longer.drop_last() == line.subrange(0, i - from));
            assert(longer.last() == text@[i as int]);
        }
        if text[i] == SPACE {
            let value = parse_token(text, start, i);
            proof {
                let after = pieces.push(Seq::empty());
                assert(after.drop_last() == pieces);
                assert(split(line.subrange(0, i + 1 - from), SPACE) == after);
                assert(text@.subrange(i + 1, i + 1) == Seq::<u8>::empty());
            }
            match value {
                Some(v) => {
                    values.push(v);
                },
                None => {},
            }
            start = i + 1;
        } else {
            proof {
                let after = pieces.drop_last().push(pieces.last().push(text@[i as int]));
                assert(split(line.subrange(0, i + 1 - from), SPACE) == after);
                assert(after.drop_last() == pieces.drop_last());
                assert(text@.subrange(start as int, i + 1) == pieces.last().push(text@[i as int]));
            }
        }
        i += 1;
    }
    assert(line.subrange(0, to - from) == line);
    let value = parse_token(text, start, to);
    match value {
        Some(v) => {
            values.push(v);
        },
        None => {},
    }
    values
}

/// The mathematical value of two lists that may be absent.
pub open spec fn lists_view(lists: Option<(Vec<u32>, Vec<u32>)>) -> Option<(Seq<u32>, Seq<u32>)> {
    match lists {
        Some((highscores, number_of_lines)) => Some((highscores@, number_of_lines@)),
        None => None,
    }
}

/// The place of the first newline at or after `from`, or the length of the
/// text where there is none.
fn find_newline(content: &[u8], from: usize) -> (at: usize)
    requires
        from <= content.len(),
    ensures
        from <= at <= content.len(),
        forall|j: int| from <= j < at ==> content@[j] != NEWLINE,
        at < content.len() ==> content@[at as int] == NEWLINE,
{
    let mut at: usize = from;
    while at < content.len() && content[at] != NEWLINE
        invariant
            from <= at <= content.len(),
            forall|j: int| from <= j < at ==> content@[j] != NEWLINE,
        decreases content.len() - at,
    {
        at += 1;
    }
    at
}

/// The first newline of a text is where a newline stands with none before it.
pub proof fn lemma_first_newline(text: Seq<u8>, at: int)
    requires
        0 <= at <= text.len(),
        forall|j: int| 0 <= j < at ==> text[j] != NEWLINE,
        at < text.len() ==> text[at] == NEWLINE,
    ensures
        at < text.len() ==> text.index_of_first(NEWLINE) == Some(at),
        at == text.len() ==> text.index_of_first(NEWLINE).is_none(),
        first_line(text) == text.subrange(0, at),
{
    text.index_of_first_ensures(NEWLINE);
    if at < text.len() {
        assert(text.contains(NEWLINE));
    } else {
        assert(!text.contains(NEWLINE));
        assert(text.subrange(0, at) == text);
    }
}

/// The two lists that a text keeps: the first is read from its first line,
/// the second from its second line, which ends at the second newline or with
/// the text. A text without a newline keeps nothing.
pub fn load_highscores_and_lines(content: &[u8]) -> (lists: Option<(Vec<u32>, Vec<u32>)>)
    ensures
        lists_view(lists) == parsed_record(content@),
        lists.is_some() <==> content@.contains(NEWLINE),
{
    let at = find_newline(content, 0);
    proof {
        lemma_first_newline(content@, at as int);
        content@.index_of_first_ensures(NEWLINE);
    }
    if at == content.len() {
        return None;
    }
    let end = find_newline(content, at + 1);
    proof {
        let rest = content@.subrange(at + 1, content@.len() as int);
        lemma_first_newline(rest, end - (at + 1));
        assert(rest.subrange(0, end - (at + 1)) == content@.subrange(at + 1, end as int));
    }
    let highscores = parse_range(content, 0, at);
    let number_of_lines = parse_range(content, at + 1, end);
    Some((highscores, number_of_lines))
}

/// Whether a list goes from its smallest entry to its largest.
pub open spec fn ascending(list: Seq<u32>) -> bool {
    forall|i: int, j: int| 0 <= i <= j < list.len() ==> list[i] <= list[j]
}

/// Whether `at` is the place of the list's smallest entry, the first such
/// place where the smallest entry stands more than once.
pub open spec fn first_minimum(list: Seq<u32>, at: int) -> bool {
    &&& 0 <= at < list.len()
    &&& forall|j: int| 0 <= j < list.len() ==> list[at] <= #[trigger] list[j]
    &&& forall|j: int| 0 <= j < at ==> #[trigger] list[j] > list[at]
}

/// Whether `after` and `is_new` are what entering `value` into `list`
/// gives. A list of fewer than five entries takes the value in and is put in
/// ascending order. From a full list the smallest entry leaves when the
/// value beats it: the value takes its place, the first such place, and the
/// other entries stay as they are. A value that does not beat the smallest
/// entry leaves the list as it is and is nothing new.
pub open spec fn entered(list: Seq<u32>, value: u32, after: Seq<u32>, is_new: bool) -> bool {
    if list.len() < NB_HIGHSCORES {
        &&& is_new
        &&& ascending(after)
        &&& after.to_multiset() == list.push(value).to_multiset()
    } else {
        exists|at: int|
            #[trigger] first_minimum(list, at) && if value > list[at] {
                is_new && after == list.update(at, value)
            } else {
                !is_new && after == list
            }
    }
}

/// What entering a value does to a full list: the list keeps its length; the
/// value is new exactly when it beats the smallest entry; and then the list
/// holds the entries that it held, without one smallest and with the value,
/// so that no entry that stays is smaller than the one that left.
pub proof fn lemma_entered_full(list: Seq<u32>, value: u32, after: Seq<u32>, is_new: bool)
    requires
        list.len() >= NB_HIGHSCORES,
        entered(list, value, after, is_new),
    ensures
        after.len() == list.len(),
        exists|at: int|
            {
                &&& #[trigger] first_minimum(list, at)
                &&& is_new == (value > list[at])
                &&& is_new ==> after.to_multiset() == list.to_multiset().insert(value).remove(
                    list[at],
                )
                &&& forall|j: int| 0 <= j < after.len() ==> list[at] <= #[trigger] after[j]
            },
        !is_new ==> after == list,
{
    let at = choose|at: int|
        #[trigger] first_minimum(list, at) && if value > list[at] {
            is_new && after == list.update(at, value)
        } else {
            !is_new && after == list
        };
    if is_new {
        to_multiset_update(list, at, value);
        assert forall|j: int| 0 <= j < after.len() implies list[at] <= #[trigger] after[j] by {
            if j != at {
                assert(after[j] == list[j]);
            }
        }
    } else {
        assert forall|j: int| 0 <= j < after.len() implies list[at] <= #[trigger] after[j] by {
            assert(after[j] == list[j]);
        }
    }
}

/// `sort` of std's slices, on the vector's entries: afterwards they are in
/// ascending order and are the same entries, each as often as before.
#[verifier::external_body]
fn sort_ascending(v: &mut Vec<u32>)
    ensures
        ascending(final(v)@),
        final(v)@.to_multiset() == old(v)@.to_multiset(),
{
    v.sort();
}

/// Enters a result into a list of best results and says whether it is a
/// new best. A list of fewer than five entries takes every result; from a
/// full list the smallest entry leaves for a result that beats it.
pub fn update_vec(v: &mut Vec<u32>, value: u32) -> (is_new: bool)
    ensures
        entered(old(v)@, value, final(v)@, is_new),
{
    if v.len() < NB_HIGHSCORES {
        v.push(value);
        sort_ascending(v);
        true
    } else {
        let mut lowest: usize = 0;
        let mut i: usize = 1;
        while i < v.len()
            invariant
                1 <= i <= v.len(),
                0 <= lowest < i,
                v.len() >= NB_HIGHSCORES,
                *v == *old(v),
                forall|j: int| 0 <= j < i ==> v@[lowest as int] <= #[trigger] v@[j],
                forall|j: int| 0 <= j < lowest ==> #[trigger] v@[j] > v@[lowest as int],
            decreases v.len() - i,
        {
            if v[i] < v[lowest] {
                lowest = i;
            }
            i += 1;
        }
        assert(first_minimum(old(v)@, lowest as int));
        if value > v[lowest] {
            v[lowest] = value;
            true
        } else {
            false
        }
    }
}

/// The lists of best results after a game, and what is new in them.
#[derive(Debug, PartialEq, Eq)]
pub struct GameRecord {
    /// The best scores.
    pub highscores: Vec<u32>,
    /// The best line counts.
    pub number_of_lines: Vec<u32>,
    /// The game's score is a new best.
    pub new_highscore: bool,
    /// The game's line count is a new best.
    pub new_lines: bool,
    /// The lists have changed and are to be kept again.
    pub save: bool,
}

/// Enters a game's score and line count into the lists that were kept.
/// Where nothing was kept, each list starts with the game's own result,
/// which is then a new best. The lists are to be kept again when either
/// holds a new best.
pub fn record_game(stored: Option<(Vec<u32>, Vec<u32>)>, score: u32, nb_lines: u32) -> (record:
    GameRecord)
    ensures
        match stored {
            Some((highscores, number_of_lines)) => {
                &&& entered(highscores@, score, record.highscores@, record.new_highscore)
                &&& entered(number_of_lines@, nb_lines, record.number_of_lines@, record.new_lines)
                &&& record.save == (record.new_highscore || record.new_lines)
            },
            None => {
                &&& record.highscores@ == seq![score]
                &&& record.number_of_lines@ == seq![nb_lines]
                &&& record.new_highscore
                &&& record.new_lines
                &&& record.save
            },
        },
{
    match stored {
        Some((mut highscores, mut number_of_lines)) => {
            let new_highscore = update_vec(&mut highscores, score);
            let new_lines = update_vec(&mut number_of_lines, nb_lines);
            GameRecord {
                highscores,
                number_of_lines,
                new_highscore,
                new_lines,
                save: new_highscore || new_lines,
            }
        },
        None => {
            let mut highscores: Vec<u32> = Vec::new();
            highscores.push(score);
            let mut number_of_lines: Vec<u32> = Vec::new();
            number_of_lines.push(nb_lines);
            GameRecord {
                highscores,
                number_of_lines,
                new_highscore: true,
                new_lines: true,
                save: true,
            }
        },
    }
}

} // verus!
