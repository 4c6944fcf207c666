//! Text primitives: building strings, trimming, splitting, and decimal numbers.

use vstd::prelude::*;
use vstd::utf8;

verus! {

/// `String::push` appends one character to the end of the string.
pub assume_specification[ String::push ](s: &mut String, c: char)
    ensures
        final(s)@ == old(s)@.push(c),
;

/// The text of each string of a sequence.
pub open spec fn texts(v: Seq<String>) -> Seq<Seq<char>> {
    Seq::new(v.len(), |i: int| v[i]@)
}

/// The text of an optional string.
pub open spec fn optional_text(s: Option<&str>) -> Option<Seq<char>> {
    match s {
        Some(s) => Some(s@),
        None => None,
    }
}

/// The text of an optional string that is owned.
pub open spec fn owned_text(s: Option<String>) -> Option<Seq<char>> {
    match s {
        Some(s) => Some(s@),
        None => None,
    }
}

/// The text that stands for bytes that are not UTF-8.
pub uninterp spec fn repaired_utf8(bytes: Seq<u8>) -> Seq<char>;

/// The text of `bytes`: what they encode where they are UTF-8, and a text with replacement
/// characters where they are not.
pub open spec fn lossy_text(bytes: Seq<u8>) -> Seq<char> {
    if utf8::valid_utf8(bytes) {
        utf8::decode_utf8(bytes)
    } else {
        repaired_utf8(bytes)
    }
}

/// Decodes bytes with `String::from_utf8_lossy`, which gives the text that valid UTF-8
/// encodes. Of other bytes it is claimed that the text depends on them alone; where the
/// replacement characters go is not stated.
#[verifier::external_body]
pub(crate) fn decode_lossy(bytes: &[u8]) -> (s: String)
    ensures
        s@ == (if utf8::valid_utf8(bytes@) {
            utf8::decode_utf8(bytes@)
        } else {
            repaired_utf8(bytes@)
        }),
{
    String::from_utf8_lossy(bytes).into_owned()
}

/// Collects the characters of a string.
pub fn chars_of(s: &str) -> (chars: Vec<char>)
    ensures
        chars@ == s@,
{
    let mut chars: Vec<char> = Vec::new();
    for c in it: s.chars()
        invariant
            it.seq() == s@,
            chars@ == s@.take(it.index() as int),
    {
        chars.push(c);
        assert(chars@ =~= s@.take(it.index() + 1));
    }
    assert(chars@ =~= s@);
    chars
}

/// Appends the characters from `from` up to, not including, `to`.
pub fn push_chars(s: &mut String, chars: &Vec<char>, from: usize, to: usize)
    requires
        from <= to <= chars.len(),
    ensures
        final(s)@ == old(s)@ + chars@.subrange(from as int, to as int),
{
    let mut i: usize = from;
    assert(s@ =~= old(s)@ + chars@.subrange(from as int, i as int));
    while i < to
        invariant
            from <= i <= to <= chars.len(),
            s@ == old(s)@ + chars@.subrange(from as int, i as int),
        decreases to - i,
    {
        s.push(chars[i]);
        i += 1;
        assert(s@ =~= old(s)@ + chars@.subrange(from as int, i as int));
    }
}

/// Makes a string of the characters from `from` up to, not including, `to`.
pub fn string_of(chars: &Vec<char>, from: usize, to: usize) -> (s: String)
    requires
        from <= to <= chars.len(),
    ensures
        s@ == chars@.subrange(from as int, to as int),
{
    let mut s = String::new();
    push_chars(&mut s, chars, from, to);
    assert(s@ =~= chars@.subrange(from as int, to as int));
    s
}

/// Characters with the Unicode property White_Space.
pub open spec fn white_space(c: char) -> bool {
    ||| '\u{9}' <= c <= '\u{d}'
    ||| c == '\u{20}'
    ||| c == '\u{85}'
    ||| c == '\u{a0}'
    ||| c == '\u{1680}'
    ||| '\u{2000}' <= c <= '\u{200a}'
    ||| c == '\u{2028}'
    ||| c == '\u{2029}'
    ||| c == '\u{202f}'
    ||| c == '\u{205f}'
    ||| c == '\u{3000}'
}

/// Whether `c` is a white space character.
pub fn is_white_space(c: char) -> (yes: bool)
    ensures
        yes == white_space(c),
{
    ('\u{9}' <= c && c <= '\u{d}') || c == '\u{20}' || c == '\u{85}' || c == '\u{a0}' || c
        == '\u{1680}' || ('\u{2000}' <= c && c <= '\u{200a}') || c == '\u{2028}' || c
        == '\u{2029}' || c == '\u{202f}' || c == '\u{205f}' || c == '\u{3000}'
}

/// `s` without the white space at its end.
pub open spec fn trim_end(s: Seq<char>) -> Seq<char>
    decreases s.len(),
{
    if s.len() > 0 && white_space(s.last()) {
        trim_end(s.drop_last())
    } else {
        s
    }
}

/// `s` without the white space at its start.
pub open spec fn trim_start(s: Seq<char>) -> Seq<char>
    decreases s.len(),
{
    if s.len() > 0 && white_space(s[0]) {
        trim_start(s.drop_first())
    } else {
        s
    }
}

/// `s` without the white space around it.
pub open spec fn trim(s: Seq<char>) -> Seq<char> {
    trim_start(trim_end(s))
}

/// Finds where the white space at the end of `chars[from..to]` begins.
pub fn find_trimmed_end(chars: &Vec<char>, from: usize, to: usize) -> (end: usize)
    requires
        from <= to <= chars.len(),
    ensures
        from <= end <= to,
        chars@.subrange(from as int, end as int) == trim_end(
            chars@.subrange(from as int, to as int),
        ),
{
    let mut end: usize = to;
    while end > from && is_white_space(chars[end - 1])
        invariant
            from <= end <= to <= chars.len(),
            trim_end(chars@.subrange(from as int, end as int)) == trim_end(
                chars@.subrange(from as int, to as int),
            ),
        decreases end,
    {
        assert(chars@.subrange(from as int, end as int).drop_last() =~= chars@.subrange(
            from as int,
            end - 1,
        ));
        end -= 1;
    }
    end
}

/// Finds where the white space at the start of `chars[from..to]` ends.
pub fn find_trimmed_start(chars: &Vec<char>, from: usize, to: usize) -> (start: usize)
    requires
        from <= to <= chars.len(),
    ensures
        from <= start <= to,
        chars@.subrange(start as int, to as int) == trim_start(
            chars@.subrange(from as int, to as int),
        ),
{
    let mut start: usize = from;
    while start < to && is_white_space(chars[start])
        invariant
            from <= start <= to <= chars.len(),
            trim_start(chars@.subrange(start as int, to as int)) == trim_start(
                chars@.subrange(from as int, to as int),
            ),
        decreases to - start,
    {
        assert(chars@.subrange(start as int, to as int).drop_first() =~= chars@.subrange(
            start + 1,
            to as int,
        ));
        start += 1;
    }
    start
}

/// The pieces of `s` between the occurrences of `separator`.
pub open spec fn split(s: Seq<char>, separator: char) -> Seq<Seq<char>>
    decreases s.len(),
{
    if s.len() == 0 {
        seq![seq![]]
    } else {
        let pieces = split(s.drop_last(), separator);
        if s.last() == separator {
            pieces.push(seq![])
        } else {
            pieces.drop_last().push(pieces.last().push(s.last()))
        }
    }
}

/// The pieces with the white space around them removed, empty ones left out.
pub open spec fn trimmed_pieces(pieces: Seq<Seq<char>>) -> Seq<Seq<char>>
    decreases pieces.len(),
{
    if pieces.len() == 0 {
        seq![]
    } else {
        let before = trimmed_pieces(pieces.drop_last());
        let piece = trim(pieces.last());
        if piece.len() == 0 {
            before
        } else {
            before.push(piece)
        }
    }
}

/// The items of a list written with `separator` between them: white space around
/// an item does not belong to it, and empty items do not count.
pub open spec fn list_items(s: Seq<char>, separator: char) -> Seq<Seq<char>> {
    trimmed_pieces(split(s, separator))
}

/// Reads a list written with `separator` between its items.
pub fn read_list(s: &str, separator: char) -> (items: Vec<String>)
    ensures
        texts(items@) == list_items(s@, separator),
{
    let chars = chars_of(s);
    let mut items: Vec<String> = Vec::new();
    let mut start: usize = 0;
    let mut i: usize = 0;
    let ghost mut done: Seq<Seq<char>> = seq![];
    assert(chars@.take(0) =~= seq![]);
    assert(done.push(chars@.subrange(0, 0)) =~= split(chars@.take(0), separator));
    while i < chars.len()
        invariant
            chars@ == s@,
            start <= i <= chars.len(),
            split(chars@.take(i as int), separator) == done.push(
                chars@.subrange(start as int, i as int),
            ),
            texts(items@) == trimmed_pieces(done),
        decreases chars.len() - i,
    {
        let ghost piece = chars@.subrange(start as int, i as int);
        proof {
            let next = chars@.take(i + 1);
            assert(next.drop_last() =~= chars@.take(i as int));
            assert(done.push(piece).drop_last() =~= done);
        }
        if chars[i] == separator {
            push_trimmed(&mut items, &chars, start, i);
            start = i + 1;
            proof {
                done = done.push(piece);
                assert(chars@.subrange(start as int, start as int) =~= seq![]);
            }
        } else {
            assert(chars@.subrange(start as int, i + 1) =~= piece.push(chars@[i as int]));
        }
        i += 1;
    }
    push_trimmed(&mut items, &chars, start, i);
    proof {
        assert(chars@.take(i as int) =~= s@);
        assert(done.push(chars@.subrange(start as int, i as int)).drop_last() =~= done);
    }
    items
}

/// Appends `chars[from..to]`, trimmed, unless nothing is left of it.
fn push_trimmed(items: &mut Vec<String>, chars: &Vec<char>, from: usize, to: usize)
    requires
        from <= to <= chars.len(),
    ensures
        ({
            let piece = trim(chars@.subrange(from as int, to as int));
            texts(final(items)@) == if piece.len() == 0 {
                texts(old(items)@)
            } else {
                texts(old(items)@).push(piece)
            }
        }),
{
    let end: usize = find_trimmed_end(chars, from, to);
    let start: usize = find_trimmed_start(chars, from, end);
    if start < end {
        items.push(string_of(chars, start, end));
        assert(texts(items@) =~= texts(old(items)@).push(
            trim(chars@.subrange(from as int, to as int)),
        ));
    }
}

/// `items` written one after the other with `separator` between them.
pub open spec fn joined(items: Seq<Seq<char>>, separator: char) -> Seq<char>
    decreases items.len(),
{
    if items.len() == 0 {
        seq![]
    } else if items.len() == 1 {
        items[0]
    } else {
        joined(items.drop_last(), separator).push(separator) + items.last()
    }
}

/// Writes the items one after the other with `separator` between them.
pub fn write_list(items: &Vec<String>, separator: char) -> (s: String)
    ensures
        s@ == joined(texts(items@), separator),
{
    let mut s = String::new();
    let mut i: usize = 0;
    while i < items.len()
        invariant
            i <= items.len(),
            s@ == joined(texts(items@).take(i as int), separator),
        decreases items.len() - i,
    {
        if i > 0 {
            s.push(separator);
        }
        s.append(items[i].as_str());
        proof {
            let next = texts(items@).take(i + 1);
            assert(next.drop_last() =~= texts(items@).take(i as int));
            assert(s@ =~= joined(next, separator));
        }
        i += 1;
    }
    assert(texts(items@).take(i as int) =~= texts(items@));
    s
}

/// The decimal digit of `d`.
pub open spec fn digit(d: nat) -> char {
    ('0' as nat + d) as char
}

/// `n` in decimal notation.
pub open spec fn decimal(n: nat) -> Seq<char>
    decreases n,
{
    if n < 10 {
        seq![digit(n)]
    } else {
        decimal(n / 10).push(digit(n % 10))
    }
}

/// Appends `n` in decimal notation.
pub fn push_decimal(s: &mut String, n: u128)
    ensures
        final(s)@ == old(s)@ + decimal(n as nat),
    decreases n,
{
    if n >= 10 {
        push_decimal(s, n / 10);
    }
    s.push((48u8 + (n % 10) as u8) as char);
    assert(s@ =~= old(s)@ + decimal(n as nat));
}

/// Whether `c` is a decimal digit.
pub open spec fn is_digit(c: char) -> bool {
    '0' <= c <= '9'
}

/// Value of a sequence of decimal digits.
pub open spec fn decimal_value(s: Seq<char>) -> nat
    decreases s.len(),
{
    if s.len() == 0 {
        0
    } else {
        decimal_value(s.drop_last()) * 10 + (s.last() as nat - '0' as nat) as nat
    }
}

/// `s` without a leading plus sign.
pub open spec fn unsigned_digits(s: Seq<char>) -> Seq<char> {
    if s.len() > 0 && s[0] == '+' {
        s.drop_first()
    } else {
        s
    }
}

/// The number that `s` denotes: an optional plus sign and at least one decimal digit,
/// with a value of at most `max`.
pub open spec fn unsigned_value(s: Seq<char>, max: nat) -> Option<nat> {
    let digits = unsigned_digits(s);
    if digits.len() > 0 && digits.all(|c: char| is_digit(c)) && decimal_value(digits) <= max {
        Some(decimal_value(digits))
    } else {
        None
    }
}

proof fn lemma_decimal_value_of_prefix(s: Seq<char>, k: int)
    requires
        0 <= k <= s.len(),
        s.all(|c: char| is_digit(c)),
    ensures
        decimal_value(s.take(k)) <= decimal_value(s),
    decreases s.len() - k,
{
    if k < s.len() {
        assert(s.take(k + 1).drop_last() =~= s.take(k));
        assert((|c: char| is_digit(c))(s[k]));
        lemma_decimal_value_of_prefix(s, k + 1);
    } else {
        assert(s.take(k) =~= s);
    }
}

/// Reads an unsigned decimal number of at most `max`.
pub fn parse_unsigned(s: &str, max: u64) -> (value: Option<u64>)
    ensures
        match value {
            Some(n) => unsigned_value(s@, max as nat) == Some(n as nat),
            None => unsigned_value(s@, max as nat) is None,
        },
{
    let chars = chars_of(s);
    let ghost digits = unsigned_digits(s@);
    let first: usize = if chars.len() > 0 && chars[0] == '+' {
        1
    } else {
        0
    };
    if first == chars.len() {
        return None;
    }
    let mut n: u64 = 0;
    let mut i: usize = first;
    while i < chars.len()
        invariant
            chars@ == s@,
            digits == unsigned_digits(s@),
            digits == s@.subrange(first as int, s@.len() as int),
            first <= i <= chars.len(),
            digits.len() > 0,
            n <= max,
            n == decimal_value(digits.take(i - first)),
            forall|j: int| 0 <= j < i - first ==> is_digit(digits[j]),
        decreases chars.len() - i,
    {
        let c: char = chars[i];
        let ghost k = i - first;
        assert(c == digits[k]);
        if !('0' <= c && c <= '9') {
            assert(!(|c: char| is_digit(c))(digits[k]));
            return None;
        }
        let d: u64 = (c as u32 - 48) as u64;
        let next: u128 = n as u128 * 10 + d as u128;
        assert(digits.take(k + 1).drop_last() =~= digits.take(k));
        if next > max as u128 {
            proof {
                if digits.all(|c: char| is_digit(c)) {
                    lemma_decimal_value_of_prefix(digits, k + 1);
                }
            }
            return None;
        }
        n = next as u64;
        i += 1;
    }
    assert(digits.take(i - first) =~= digits);
    Some(n)
}

/// Reading a number in decimal notation gives the number back.
pub proof fn law_decimal_reads_back(n: nat, max: nat)
    requires
        n <= max,
    ensures
        decimal_value(decimal(n)) == n,
        unsigned_value(decimal(n), max) == Some(n),
{
    lemma_decimal_digits(n);
    let s = decimal(n);
    assert(is_digit(s[0]));
    assert(s.all(|c: char| is_digit(c)));
}

pub proof fn lemma_decimal_digits(n: nat)
    ensures
        decimal(n).len() > 0,
        forall|i: int| 0 <= i < decimal(n).len() ==> is_digit(#[trigger] decimal(n)[i]),
        decimal_value(decimal(n)) == n,
    decreases n,
{
    if n < 10 {
        assert(decimal(n).drop_last() =~= seq![]);
        assert(decimal_value(seq![]) == 0);
    } else {
        lemma_decimal_digits(n / 10);
        assert(decimal(n).drop_last() =~= decimal(n / 10));
    }
}

/// The pieces of a text that goes on behind a separator.
proof fn lemma_split_behind_separator(s: Seq<char>, piece: Seq<char>, separator: char)
    requires
        !piece.contains(separator),
    ensures
        split(s.push(separator) + piece, separator) == split(s, separator).push(piece),
    decreases piece.len(),
{
    let whole = s.push(separator) + piece;
    if piece.len() == 0 {
        assert(piece =~= seq![]);
        assert(whole =~= s.push(separator));
        assert(whole.drop_last() =~= s);
    } else {
        assert(whole.last() == piece.last());
        let shorter = piece.drop_last();
        assert(!shorter.contains(separator)) by {
            if shorter.contains(separator) {
                let k = choose|k: int| 0 <= k < shorter.len() && shorter[k] == separator;
                assert(piece[k] == separator);
            }
        }
        lemma_split_behind_separator(s, shorter, separator);
        assert(whole.drop_last() =~= s.push(separator) + shorter);
        assert(piece.contains(piece[piece.len() - 1]));
        assert(split(s, separator).push(shorter).drop_last() =~= split(s, separator));
        assert(shorter.push(piece.last()) =~= piece);
    }
}

/// A text without separators is one piece.
proof fn lemma_split_one_piece(piece: Seq<char>, separator: char)
    requires
        !piece.contains(separator),
    ensures
        split(piece, separator) == seq![piece],
    decreases piece.len(),
{
    if piece.len() > 0 {
        let shorter = piece.drop_last();
        assert(!shorter.contains(separator)) by {
            if shorter.contains(separator) {
                let k = choose|k: int| 0 <= k < shorter.len() && shorter[k] == separator;
                assert(piece[k] == separator);
            }
        }
        lemma_split_one_piece(shorter, separator);
        assert(piece.contains(piece[piece.len() - 1]));
        assert(shorter.push(piece.last()) =~= piece);
        assert(split(piece, separator) =~= seq![piece]);
    } else {
        assert(piece =~= seq![]);
    }
}

proof fn lemma_split_joined(items: Seq<Seq<char>>, separator: char)
    requires
        items.len() > 0,
        forall|i: int| 0 <= i < items.len() ==> !(#[trigger] items[i]).contains(separator),
    ensures
        split(joined(items, separator), separator) == items,
    decreases items.len(),
{
    if items.len() == 1 {
        lemma_split_one_piece(items[0], separator);
        assert(items =~= seq![items[0]]);
    } else {
        let before = items.drop_last();
        assert forall|i: int| 0 <= i < before.len() implies !(#[trigger] before[i]).contains(
            separator,
        ) by {
            assert(before[i] == items[i]);
        }
        lemma_split_joined(before, separator);
        assert(!items[items.len() - 1].contains(separator));
        lemma_split_behind_separator(joined(before, separator), items.last(), separator);
        assert(before.push(items.last()) =~= items);
    }
}

/// An item that a list can hold: not empty, and without white space around it.
pub open spec fn is_item(s: Seq<char>) -> bool {
    s.len() > 0 && trim(s) == s
}

proof fn lemma_items_stay(items: Seq<Seq<char>>)
    requires
        forall|i: int| 0 <= i < items.len() ==> is_item(#[trigger] items[i]),
    ensures
        trimmed_pieces(items) == items,
    decreases items.len(),
{
    if items.len() > 0 {
        let before = items.drop_last();
        assert forall|i: int| 0 <= i < before.len() implies is_item(#[trigger] before[i]) by {
            assert(before[i] == items[i]);
        }
        lemma_items_stay(before);
        assert(is_item(items[items.len() - 1]));
        assert(before.push(items.last()) =~= items);
    }
}

/// A list reads back as it was written, where no item holds the separator.
pub proof fn law_list_reads_back(items: Seq<Seq<char>>, separator: char)
    requires
        forall|i: int|
            0 <= i < items.len() ==> is_item(#[trigger] items[i]) && !items[i].contains(separator),
    ensures
        list_items(joined(items, separator), separator) == items,
{
    if items.len() == 0 {
        let pieces = split(seq![], separator);
        assert(pieces.len() == 1 && pieces.last() == Seq::<char>::empty());
        assert(pieces.drop_last() =~= seq![]);
        assert(trimmed_pieces(seq![]) == Seq::<Seq<char>>::empty());
        assert(trim(seq![]) =~= seq![]);
        assert(list_items(seq![], separator) =~= items);
    } else {
        lemma_split_joined(items, separator);
        lemma_items_stay(items);
    }
}

proof fn lemma_trim_end(s: Seq<char>)
    ensures
        trim_end(s).len() <= s.len(),
        trim_end(s).len() > 0 ==> !white_space(trim_end(s).last()),
    decreases s.len(),
{
    if s.len() > 0 && white_space(s.last()) {
        lemma_trim_end(s.drop_last());
    }
}

proof fn lemma_trim_start(s: Seq<char>)
    ensures
        trim_start(s).len() <= s.len(),
        trim_start(s).len() > 0 ==> !white_space(trim_start(s)[0]),
        trim_start(s).len() > 0 ==> trim_start(s).last() == s.last(),
    decreases s.len(),
{
    if s.len() > 0 && white_space(s[0]) {
        lemma_trim_start(s.drop_first());
    }
}

/// What is read from a list are items: none is empty, none has white space around it.
pub proof fn law_list_holds_items(s: Seq<char>, separator: char)
    ensures
        forall|i: int|
            0 <= i < list_items(s, separator).len() ==> is_item(
                #[trigger] list_items(s, separator)[i],
            ),
{
    lemma_trimmed_pieces_are_items(split(s, separator));
}

proof fn lemma_trimmed_pieces_are_items(pieces: Seq<Seq<char>>)
    ensures
        forall|i: int|
            0 <= i < trimmed_pieces(pieces).len() ==> is_item(
                #[trigger] trimmed_pieces(pieces)[i],
            ),
    decreases pieces.len(),
{
    if pieces.len() > 0 {
        lemma_trimmed_pieces_are_items(pieces.drop_last());
        let piece = pieces.last();
        lemma_trim_end(piece);
        lemma_trim_start(trim_end(piece));
        let item = trim(piece);
        if item.len() > 0 {
            assert(trim_end(item) == item);
            assert(is_item(item));
        }
        let before = trimmed_pieces(pieces.drop_last());
        assert forall|i: int| 0 <= i < trimmed_pieces(pieces).len() implies is_item(
            #[trigger] trimmed_pieces(pieces)[i],
        ) by {
            if i < before.len() {
                assert(trimmed_pieces(pieces)[i] == before[i]);
            }
        }
    }
}

/// Decimal notation: a number below ten is one digit, and to append a digit is to multiply
/// by ten and add the digit.
pub proof fn law_decimal_notation(n: nat, d: nat)
    requires
        d < 10,
    ensures
        decimal(d).len() == 1,
        decimal(d)[0] as nat == '0' as nat + d,
        n > 0 ==> decimal(10 * n + d) == decimal(n) + decimal(d),
{
    if n > 0 {
        assert((10 * n + d) / 10 == n);
        assert((10 * n + d) % 10 == d);
        assert(decimal(10 * n + d) =~= decimal(n) + decimal(d));
    }
}

/// Whether a text is a number, and which: a single digit is, nothing and a lone plus sign
/// are not, a plus sign in front changes nothing, and a character behind a number is its
/// next digit, unless it is no digit or the number becomes too large.
pub proof fn law_number_is_read_digit_by_digit(s: Seq<char>, c: char, max: nat)
    ensures
        unsigned_value(seq![], max) is None,
        unsigned_value(seq!['+'], max) is None,
        c != '+' ==> unsigned_value(seq![c], max) == if '0' <= c <= '9' && c as nat - '0' as nat
            <= max {
            Some((c as nat - '0' as nat) as nat)
        } else {
            None
        },
        s.len() > 0 && s[0] != '+' ==> unsigned_value(seq!['+'] + s, max) == unsigned_value(s, max),
        unsigned_value(seq!['+', '+'] + s, max) is None,
        s.len() > 0 && s != seq!['+'] ==> unsigned_value(s.push(c), max) == match unsigned_value(
            s,
            max,
        ) {
            Some(v) => if '0' <= c <= '9' && 10 * v + (c as nat - '0' as nat) <= max {
                Some((10 * v + (c as nat - '0' as nat)) as nat)
            } else {
                None
            },
            None => None,
        },
{
    let ok = |c: char| is_digit(c);
    let one = seq![c];
    assert(unsigned_digits(seq!['+']) =~= seq![]);
    if c != '+' {
        assert(one.drop_last() =~= seq![]);
        assert(decimal_value(seq![]) == 0);
        assert(ok(one[0]) == one.all(ok));
    }
    assert((seq!['+'] + s).drop_first() =~= s);
    let twice = seq!['+', '+'] + s;
    assert(!ok(twice.drop_first()[0]));
    if s.len() > 0 && s != seq!['+'] {
        let digits = unsigned_digits(s);
        let more = unsigned_digits(s.push(c));
        if digits.len() == 0 {
            assert(s =~= seq!['+']);
        }
        assert(more =~= digits.push(c));
        assert(more.drop_last() =~= digits);
        assert(more.all(ok) == (digits.all(ok) && ok(c))) by {
            if more.all(ok) {
                assert forall|i: int| 0 <= i < digits.len() implies ok(digits[i]) by {
                    assert(ok(more[i]));
                }
                assert(ok(more[digits.len() as int]));
            }
            if digits.all(ok) && ok(c) {
                assert forall|i: int| 0 <= i < more.len() implies ok(more[i]) by {
                    if i < digits.len() {
                        assert(ok(digits[i]));
                    }
                }
            }
        }
    }
}

/// A list of two lists with a separator between them holds the items of the one and then
/// those of the other.
pub proof fn law_lists_are_put_together(a: Seq<char>, b: Seq<char>, separator: char)
    ensures
        list_items(a.push(separator) + b, separator) == list_items(a, separator) + list_items(
            b,
            separator,
        ),
{
    lemma_split_around_separator(a, b, separator);
    lemma_trimmed_pieces_concat(split(a, separator), split(b, separator));
}

proof fn lemma_split_around_separator(a: Seq<char>, b: Seq<char>, separator: char)
    ensures
        split(a.push(separator) + b, separator) == split(a, separator) + split(b, separator),
        split(b, separator).len() > 0,
    decreases b.len(),
{
    let whole = a.push(separator) + b;
    if b.len() == 0 {
        assert(whole =~= a.push(separator));
        assert(whole.drop_last() =~= a);
        assert(split(a, separator).push(seq![]) =~= split(a, separator) + split(b, separator));
    } else {
        let shorter = b.drop_last();
        lemma_split_around_separator(a, shorter, separator);
        assert(whole.drop_last() =~= a.push(separator) + shorter);
        assert(whole.last() == b.last());
        let (x, y) = (split(a, separator), split(shorter, separator));
        assert((x + y).drop_last() =~= x + y.drop_last());
        assert(split(whole, separator) =~= x + split(b, separator));
    }
}

proof fn lemma_trimmed_pieces_concat(a: Seq<Seq<char>>, b: Seq<Seq<char>>)
    ensures
        trimmed_pieces(a + b) == trimmed_pieces(a) + trimmed_pieces(b),
    decreases b.len(),
{
    if b.len() == 0 {
        assert(a + b =~= a);
        assert(trimmed_pieces(a) + trimmed_pieces(b) =~= trimmed_pieces(a));
    } else {
        lemma_trimmed_pieces_concat(a, b.drop_last());
        assert((a + b).drop_last() =~= a + b.drop_last());
        assert(trimmed_pieces(a + b) =~= trimmed_pieces(a) + trimmed_pieces(b));
    }
}

/// What stands in a list between two separators is an item, without the white space around
/// it, or nothing where there is only white space.
pub proof fn law_item_without_white_space(
    before: Seq<char>,
    item: Seq<char>,
    behind: Seq<char>,
    separator: char,
)
    requires
        forall|i: int| 0 <= i < before.len() ==> white_space(#[trigger] before[i]),
        forall|i: int| 0 <= i < behind.len() ==> white_space(#[trigger] behind[i]),
        item.len() > 0 ==> !white_space(item[0]) && !white_space(item.last()),
        !(before + item + behind).contains(separator),
    ensures
        list_items(before + item + behind, separator) == if item.len() > 0 {
            seq![item]
        } else {
            seq![]
        },
{
    let s = before + item + behind;
    lemma_split_one_piece(s, separator);
    let pieces = seq![s];
    assert(pieces.drop_last() =~= seq![]);
    assert(trimmed_pieces(seq![]) == Seq::<Seq<char>>::empty());
    law_white_space_around_is_trimmed(before, item, behind);
}

/// Trimming removes the white space around a text, and nothing else.
pub proof fn law_white_space_around_is_trimmed(
    before: Seq<char>,
    core: Seq<char>,
    behind: Seq<char>,
)
    requires
        forall|i: int| 0 <= i < before.len() ==> white_space(#[trigger] before[i]),
        forall|i: int| 0 <= i < behind.len() ==> white_space(#[trigger] behind[i]),
        core.len() > 0 ==> !white_space(core[0]) && !white_space(core.last()),
    ensures
        trim(before + core + behind) == core,
        core.len() > 0 ==> trim_end(before + core + behind) == before + core,
        core.len() > 0 ==> trim_start(before + core + behind) == core + behind,
        core.len() == 0 ==> trim_end(before + behind) == Seq::<char>::empty(),
        core.len() == 0 ==> trim_start(before + behind) == Seq::<char>::empty(),
{
    let s = before + core + behind;
    if core.len() > 0 {
        lemma_trim_end_white(before + core, behind);
        lemma_trim_start_white(before, core);
        assert(before + (core + behind) =~= s);
        lemma_trim_start_white(before, core + behind);
    } else {
        assert(s =~= before + behind);
        let none = Seq::<char>::empty();
        assert(none + s =~= s);
        assert(s + none =~= s);
        lemma_trim_end_white(none, s);
        lemma_trim_start_white(s, none);
        assert(trim_start(none) == none);
        assert(core =~= none);
    }
}

proof fn lemma_trim_end_white(s: Seq<char>, white: Seq<char>)
    requires
        forall|i: int| 0 <= i < white.len() ==> white_space(#[trigger] white[i]),
        s.len() > 0 ==> !white_space(s.last()),
    ensures
        trim_end(s + white) == s,
    decreases white.len(),
{
    if white.len() == 0 {
        assert(s + white =~= s);
    } else {
        assert((s + white).drop_last() =~= s + white.drop_last());
        assert(white_space(white[white.len() - 1]));
        assert forall|i: int| 0 <= i < white.drop_last().len() implies white_space(
            #[trigger] white.drop_last()[i],
        ) by {
            assert(white_space(white[i]));
        }
        lemma_trim_end_white(s, white.drop_last());
    }
}

pub proof fn lemma_trim_start_white(white: Seq<char>, s: Seq<char>)
    requires
        forall|i: int| 0 <= i < white.len() ==> white_space(#[trigger] white[i]),
        s.len() > 0 ==> !white_space(s[0]),
    ensures
        trim_start(white + s) == s,
    decreases white.len(),
{
    if white.len() == 0 {
        assert(white + s =~= s);
    } else {
        assert((white + s).drop_first() =~= white.drop_first() + s);
        assert(white_space(white[0]));
        assert forall|i: int| 0 <= i < white.drop_first().len() implies white_space(
            #[trigger] white.drop_first()[i],
        ) by {
            assert(white_space(white[i + 1]));
        }
        lemma_trim_start_white(white.drop_first(), s);
    }
}

/// How a list is written: one item stands for itself, and a further one behind a separator.
pub proof fn law_list_is_written_item_by_item(
    items: Seq<Seq<char>>,
    item: Seq<char>,
    separator: char,
)
    ensures
        joined(seq![], separator) == Seq::<char>::empty(),
        joined(seq![item], separator) == item,
        items.len() > 0 ==> joined(items.push(item), separator) == joined(items, separator)
            + seq![separator] + item,
{
    if items.len() > 0 {
        assert(items.push(item).drop_last() =~= items);
        assert(joined(items.push(item), separator) =~= joined(items, separator) + seq![separator]
            + item);
    }
}

/// The text of each string is the text of the string at its place.
pub proof fn law_texts_are_in_place(v: Seq<String>, i: int)
    requires
        0 <= i < v.len(),
    ensures
        texts(v).len() == v.len(),
        texts(v)[i] == v[i]@,
{
}

/// Bytes that encode a text stand for that text.
pub proof fn law_encoded_text_is_decoded(s: Seq<char>)
    ensures
        lossy_text(utf8::encode_utf8(s)) == s,
{
    utf8::encode_utf8_valid_utf8(s);
    utf8::encode_utf8_decode_utf8(s);
}

/// Bytes that are no UTF-8 are repaired as a whole.
pub proof fn law_other_bytes_are_repaired(bytes: Seq<u8>)
    ensures
        utf8::valid_utf8(bytes) ==> lossy_text(bytes) == utf8::decode_utf8(bytes),
        !utf8::valid_utf8(bytes) ==> lossy_text(bytes) == repaired_utf8(bytes),
{
}

/// An optional string has a text where it is there, an empty one too.
pub proof fn law_text_is_there_with_its_string(s: &str, owned: String)
    ensures
        optional_text(Some(s)) == Some(s@),
        optional_text(None) is None,
        owned_text(Some(owned)) == Some(owned@),
        owned_text(None) is None,
{
}

} // verus!
