//! From JSON5 to JSON: comments and trailing commas are removed.

use vstd::prelude::*;
use crate::text;

verus! {

/// Position just behind a string literal of `s`, where `i` is a position inside it: behind
/// the first quote that no backslash escapes, or at the end of the text.
pub open spec fn literal_end(s: Seq<char>, i: int) -> int
    decreases s.len() - i,
{
    if i >= s.len() {
        s.len() as int
    } else if s[i] == '"' {
        i + 1
    } else if s[i] == '\\' && i + 1 < s.len() {
        literal_end(s, i + 2)
    } else {
        literal_end(s, i + 1)
    }
}

/// Position of the first line feed of `s` at or behind `i`, or the end of the text.
pub open spec fn line_end(s: Seq<char>, i: int) -> int
    decreases s.len() - i,
{
    if i < s.len() && s[i] != '\n' {
        line_end(s, i + 1)
    } else {
        i
    }
}

/// Position just behind the first `*/` of `s` at or behind `i`. Where there is none, the
/// last character of the text is not part of the comment.
pub open spec fn block_end(s: Seq<char>, i: int) -> int
    decreases s.len() - i,
{
    if i + 1 >= s.len() {
        i
    } else if s[i] == '*' && s[i + 1] == '/' {
        i + 2
    } else {
        block_end(s, i + 1)
    }
}

pub open spec fn opens_line_comment(s: Seq<char>) -> bool {
    s.len() >= 2 && s[0] == '/' && s[1] == '/'
}

pub open spec fn opens_block_comment(s: Seq<char>) -> bool {
    s.len() >= 2 && s[0] == '/' && s[1] == '*'
}

pub proof fn lemma_literal_end_in_range(s: Seq<char>, i: int)
    requires
        0 <= i <= s.len(),
    ensures
        i <= literal_end(s, i) <= s.len(),
    decreases s.len() - i,
{
    if i < s.len() && s[i] != '"' {
        if s[i] == '\\' && i + 1 < s.len() {
            lemma_literal_end_in_range(s, i + 2);
        } else {
            lemma_literal_end_in_range(s, i + 1);
        }
    }
}

pub proof fn lemma_line_end_in_range(s: Seq<char>, i: int)
    requires
        0 <= i <= s.len(),
    ensures
        i <= line_end(s, i) <= s.len(),
    decreases s.len() - i,
{
    if i < s.len() && s[i] != '\n' {
        lemma_line_end_in_range(s, i + 1);
    }
}

pub proof fn lemma_block_end_in_range(s: Seq<char>, i: int)
    requires
        0 <= i <= s.len(),
    ensures
        i <= block_end(s, i) <= s.len(),
    decreases s.len() - i,
{
    if i + 1 < s.len() && !(s[i] == '*' && s[i + 1] == '/') {
        lemma_block_end_in_range(s, i + 1);
    }
}

/// `s` without its comments. What stands in a string literal is no comment.
pub open spec fn without_comments(s: Seq<char>) -> Seq<char>
    decreases s.len(),
{
    proof {
        if s.len() >= 1 {
            lemma_literal_end_in_range(s, 1);
        }
        if s.len() >= 2 {
            lemma_line_end_in_range(s, 2);
            lemma_block_end_in_range(s, 2);
        }
    }
    if s.len() == 0 {
        s
    } else if s[0] == '"' {
        s.take(literal_end(s, 1)) + without_comments(s.skip(literal_end(s, 1)))
    } else if opens_line_comment(s) {
        without_comments(s.skip(line_end(s, 2)))
    } else if opens_block_comment(s) {
        without_comments(s.skip(block_end(s, 2)))
    } else {
        s.take(1) + without_comments(s.skip(1))
    }
}

/// Whether the next character of `s` that is not white space closes an object or an array.
pub open spec fn closes(s: Seq<char>) -> bool {
    let rest = text::trim_start(s);
    rest.len() > 0 && (rest[0] == '}' || rest[0] == ']')
}

/// `s` without the commas that stand right before a closing brace or bracket. What stands
/// in a string literal is no such comma.
pub open spec fn without_trailing_commas(s: Seq<char>) -> Seq<char>
    decreases s.len(),
{
    proof {
        if s.len() >= 1 {
            lemma_literal_end_in_range(s, 1);
        }
    }
    if s.len() == 0 {
        s
    } else if s[0] == '"' {
        s.take(literal_end(s, 1)) + without_trailing_commas(s.skip(literal_end(s, 1)))
    } else if s[0] == ',' && closes(s.skip(1)) {
        without_trailing_commas(s.skip(1))
    } else {
        s.take(1) + without_trailing_commas(s.skip(1))
    }
}

/// The JSON text that a JSON5 text stands for.
pub open spec fn as_json(s: Seq<char>) -> Seq<char> {
    without_trailing_commas(text::trim_end(without_comments(s)))
}

/// Finds the end of the string literal that starts at `start`.
fn find_literal_end(chars: &Vec<char>, start: usize) -> (end: usize)
    requires
        start < chars.len(),
    ensures
        start < end <= chars.len(),
        end == start + literal_end(chars@.skip(start as int), 1),
{
    let ghost rest = chars@.skip(start as int);
    proof {
        lemma_literal_end_in_range(rest, 1);
    }
    let mut i: usize = start + 1;
    while i < chars.len()
        invariant
            rest == chars@.skip(start as int),
            start < i <= chars.len(),
            literal_end(rest, i - start) == literal_end(rest, 1),
            1 <= literal_end(rest, 1) <= rest.len(),
        decreases chars.len() - i,
    {
        if chars[i] == '"' {
            return i + 1;
        }
        if chars[i] == '\\' && i + 1 < chars.len() {
            i += 2;
        } else {
            i += 1;
        }
    }
    i
}

/// Finds the end of the line comment that starts at `start`.
fn find_line_end(chars: &Vec<char>, start: usize) -> (end: usize)
    requires
        start + 2 <= chars.len(),
    ensures
        start + 2 <= end <= chars.len(),
        end == start + line_end(chars@.skip(start as int), 2),
{
    let ghost rest = chars@.skip(start as int);
    let mut i: usize = start + 2;
    while i < chars.len() && chars[i] != '\n'
        invariant
            rest == chars@.skip(start as int),
            start + 2 <= i <= chars.len(),
            line_end(rest, i - start) == line_end(rest, 2),
        decreases chars.len() - i,
    {
        i += 1;
    }
    i
}

/// Finds the end of the block comment that starts at `start`.
fn find_block_end(chars: &Vec<char>, start: usize) -> (end: usize)
    requires
        start + 2 <= chars.len(),
    ensures
        start + 2 <= end <= chars.len(),
        end == start + block_end(chars@.skip(start as int), 2),
{
    let ghost rest = chars@.skip(start as int);
    let mut i: usize = start + 2;
    while chars.len() - i > 1 && !(chars[i] == '*' && chars[i + 1] == '/')
        invariant
            rest == chars@.skip(start as int),
            start + 2 <= i <= chars.len(),
            block_end(rest, i - start) == block_end(rest, 2),
        decreases chars.len() - i,
    {
        i += 1;
    }
    if chars.len() - i > 1 {
        i + 2
    } else {
        i
    }
}

/// Strips the comments of a JSON5 text (both `//` and `/* */`) and its trailing commas, so
/// that JSON remains. String literals are copied as they are.
pub fn strip_json5_comments(input: &str) -> (result: String)
    ensures
        result@ == as_json(input@),
{
    let chars = text::chars_of(input);
    let mut result = String::new();
    let mut i: usize = 0;
    assert(chars@.skip(0) =~= chars@);
    assert(result@ + without_comments(chars@) =~= without_comments(chars@));
    while i < chars.len()
        invariant
            chars@ == input@,
            i <= chars.len(),
            result@ + without_comments(chars@.skip(i as int)) == without_comments(chars@),
        decreases chars.len() - i,
    {
        let ghost before = result@;
        let ghost rest = chars@.skip(i as int);
        let start: usize = i;
        if chars[start] == '"' {
            i = find_literal_end(&chars, start);
            text::push_chars(&mut result, &chars, start, i);
            assert(chars@.subrange(start as int, i as int) =~= rest.take(literal_end(rest, 1)));
        } else if chars[start] == '/' && chars.len() - start > 1 && chars[start + 1] == '/' {
            i = find_line_end(&chars, start);
        } else if chars[start] == '/' && chars.len() - start > 1 && chars[start + 1] == '*' {
            i = find_block_end(&chars, start);
        } else {
            result.push(chars[start]);
            i = start + 1;
            assert(result@ =~= before + rest.take(1));
        }
        proof {
            assert(rest.skip(i - start) =~= chars@.skip(i as int));
            assert(result@ + without_comments(chars@.skip(i as int)) =~= before
                + without_comments(rest));
        }
    }
    assert(result@ =~= without_comments(input@));
    strip_trailing_commas(result.as_str())
}

/// Removes the white space at the end of the text, and the commas right before a closing
/// brace or bracket: `{"a": 1,}` becomes `{"a": 1}`.
pub fn strip_trailing_commas(input: &str) -> (result: String)
    ensures
        result@ == without_trailing_commas(text::trim_end(input@)),
{
    let mut chars = text::chars_of(input);
    let len: usize = text::find_trimmed_end(&chars, 0, chars.len());
    assert(chars@.subrange(0, chars@.len() as int) =~= input@);
    chars.truncate(len);
    let mut result = String::new();
    let mut i: usize = 0;
    assert(chars@.skip(0) =~= chars@);
    assert(result@ + without_trailing_commas(chars@) =~= without_trailing_commas(chars@));
    while i < chars.len()
        invariant
            i <= chars.len(),
            result@ + without_trailing_commas(chars@.skip(i as int)) == without_trailing_commas(
                chars@,
            ),
        decreases chars.len() - i,
    {
        let ghost before = result@;
        let ghost rest = chars@.skip(i as int);
        let start: usize = i;
        assert(rest.skip(1) =~= chars@.skip(start + 1));
        if chars[start] == '"' {
            i = find_literal_end(&chars, start);
            text::push_chars(&mut result, &chars, start, i);
            assert(chars@.subrange(start as int, i as int) =~= rest.take(literal_end(rest, 1)));
        } else {
            if !(chars[start] == ',' && closes_behind(&chars, start + 1)) {
                result.push(chars[start]);
                assert(result@ =~= before + rest.take(1));
            }
            i = start + 1;
        }
        proof {
            assert(rest.skip(i - start) =~= chars@.skip(i as int));
            assert(result@ + without_trailing_commas(chars@.skip(i as int)) =~= before
                + without_trailing_commas(rest));
        }
    }
    assert(result@ =~= without_trailing_commas(chars@));
    result
}

/// Whether the first character at or behind `from` that is not white space closes an
/// object or an array.
fn closes_behind(chars: &Vec<char>, from: usize) -> (yes: bool)
    requires
        from <= chars.len(),
    ensures
        yes == closes(chars@.skip(from as int)),
{
    let next: usize = text::find_trimmed_start(chars, from, chars.len());
    proof {
        let end = chars@.len() as int;
        assert(chars@.subrange(from as int, end) =~= chars@.skip(from as int));
        assert(chars@.subrange(next as int, end) =~= chars@.skip(next as int));
    }
    next < chars.len() && (chars[next] == '}' || chars[next] == ']')
}

/// Whether the string literal of `s` in which position `i` lies is closed by the last
/// character of `s`.
pub open spec fn closes_at_end(s: Seq<char>, i: int) -> bool
    decreases s.len() - i,
{
    if i >= s.len() {
        false
    } else if s[i] == '"' {
        i + 1 == s.len()
    } else if s[i] == '\\' && i + 1 < s.len() {
        closes_at_end(s, i + 2)
    } else {
        closes_at_end(s, i + 1)
    }
}

/// `s` is one string literal, with both its quotes.
pub open spec fn is_string_literal(s: Seq<char>) -> bool {
    s.len() >= 2 && s[0] == '"' && closes_at_end(s, 1)
}

proof fn lemma_literal_end_of_literal(literal: Seq<char>, rest: Seq<char>, i: int)
    requires
        0 <= i,
        closes_at_end(literal, i),
    ensures
        literal_end(literal + rest, i) == literal.len(),
    decreases literal.len() - i,
{
    if literal[i] != '"' {
        assert(closes_at_end(literal, i + 1) ==> i + 1 < literal.len());
        if literal[i] == '\\' && i + 1 < literal.len() {
            lemma_literal_end_of_literal(literal, rest, i + 2);
        } else {
            lemma_literal_end_of_literal(literal, rest, i + 1);
        }
    }
}

/// String literals come through unchanged, whatever they hold, and do not affect how the
/// text behind them is read.
pub proof fn law_string_literals_are_kept(literal: Seq<char>, rest: Seq<char>)
    requires
        is_string_literal(literal),
    ensures
        without_comments(literal + rest) == literal + without_comments(rest),
        without_trailing_commas(literal + rest) == literal + without_trailing_commas(rest),
{
    let s = literal + rest;
    lemma_literal_end_of_literal(literal, rest, 1);
    assert(s.take(literal.len() as int) =~= literal);
    assert(s.skip(literal.len() as int) =~= rest);
}

proof fn lemma_line_end_of_body(s: Seq<char>, i: int, end: int)
    requires
        0 <= i <= end <= s.len(),
        forall|k: int| i <= k < end ==> s[k] != '\n',
        end < s.len() ==> s[end] == '\n',
    ensures
        line_end(s, i) == end,
    decreases end - i,
{
    if i < end {
        lemma_line_end_of_body(s, i + 1, end);
    }
}

/// A line comment is removed, and the line feed that ends it is kept.
pub proof fn law_line_comments_are_removed(body: Seq<char>, rest: Seq<char>)
    requires
        !body.contains('\n'),
        rest.len() == 0 || rest[0] == '\n',
    ensures
        without_comments(seq!['/', '/'] + body + rest) == without_comments(rest),
{
    let s = seq!['/', '/'] + body + rest;
    let end = 2 + body.len() as int;
    assert forall|k: int| 2 <= k < end implies s[k] != '\n' by {
        assert(s[k] == body[k - 2]);
    }
    lemma_line_end_of_body(s, 2, end);
    assert(s.skip(end) =~= rest);
}

proof fn lemma_block_end_of_body(s: Seq<char>, i: int, end: int)
    requires
        0 <= i <= end,
        end + 2 <= s.len(),
        forall|k: int| i <= k < end ==> !(s[k] == '*' && #[trigger] s[k + 1] == '/'),
        s[end] == '*',
        s[end + 1] == '/',
    ensures
        block_end(s, i) == end + 2,
    decreases end - i,
{
    if i < end {
        assert(!(s[i] == '*' && s[i + 1] == '/'));
        lemma_block_end_of_body(s, i + 1, end);
    }
}

/// A block comment is removed. `body` is what stands between `/*` and the first `*/`
/// behind it.
pub proof fn law_block_comments_are_removed(body: Seq<char>, rest: Seq<char>)
    requires
        forall|k: int|
            0 <= k < body.len() - 1 ==> !(body[k] == '*' && #[trigger] body[k + 1] == '/'),
    ensures
        without_comments(seq!['/', '*'] + body + seq!['*', '/'] + rest) == without_comments(rest),
{
    let s = seq!['/', '*'] + body + seq!['*', '/'] + rest;
    let end = 2 + body.len() as int;
    assert forall|k: int| 2 <= k < end implies !(s[k] == '*' && #[trigger] s[k + 1] == '/') by {
        assert(s[k] == body[k - 2]);
        if k + 1 < end {
            assert(s[k + 1] == body[k - 2 + 1]);
        }
    }
    lemma_block_end_of_body(s, 2, end);
    assert(s.skip(end + 2) =~= rest);
}

/// A text in which no comment opens is unchanged by the removal of comments.
pub proof fn law_text_without_comments_is_kept(s: Seq<char>)
    requires
        forall|k: int|
            0 <= k < s.len() - 1 ==> !(s[k] == '/' && (#[trigger] s[k + 1] == '/' || s[k + 1]
                == '*')),
    ensures
        without_comments(s) == s,
    decreases s.len(),
{
    if s.len() > 0 {
        let n = if s[0] == '"' {
            literal_end(s, 1)
        } else {
            1
        };
        lemma_literal_end_in_range(s, 1);
        let rest = s.skip(n);
        assert forall|k: int| 0 <= k < rest.len() - 1 implies !(rest[k] == '/' && (
        #[trigger] rest[k + 1] == '/' || rest[k + 1] == '*')) by {
            assert(s[n + k] == rest[k]);
            assert(s[n + k + 1] == rest[k + 1]);
        }
        if s.len() >= 2 {
            assert(!(s[0] == '/' && (s[0int + 1] == '/' || s[0int + 1] == '*')));
        }
        law_text_without_comments_is_kept(rest);
        assert(s.take(n) + rest =~= s);
    }
}

/// A text in which no comma precedes a closing brace or bracket is unchanged by the removal
/// of trailing commas.
pub proof fn law_text_without_trailing_commas_is_kept(s: Seq<char>)
    requires
        forall|k: int| 0 <= k < s.len() && s[k] == ',' ==> !closes(#[trigger] s.skip(k + 1)),
    ensures
        without_trailing_commas(s) == s,
    decreases s.len(),
{
    if s.len() > 0 {
        let n = if s[0] == '"' {
            literal_end(s, 1)
        } else {
            1
        };
        lemma_literal_end_in_range(s, 1);
        let rest = s.skip(n);
        assert forall|k: int| 0 <= k < rest.len() && rest[k] == ',' implies !closes(
            #[trigger] rest.skip(k + 1),
        ) by {
            assert(s[n + k] == rest[k]);
            assert(s.skip(n + k + 1) =~= rest.skip(k + 1));
        }
        assert(s[0] == ',' ==> !closes(s.skip(0int + 1)));
        law_text_without_trailing_commas_is_kept(rest);
        assert(s.take(n) + rest =~= s);
    }
}

/// A character that opens neither a string literal nor a comment is kept, wherever it
/// stands, and does not affect how the text behind it is read.
pub proof fn law_other_characters_are_kept(c: char, rest: Seq<char>)
    requires
        c != '"',
        !(c == '/' && rest.len() > 0 && (rest[0] == '/' || rest[0] == '*')),
    ensures
        without_comments(seq![c] + rest) == seq![c] + without_comments(rest),
{
    let s = seq![c] + rest;
    if s.len() >= 2 {
        assert(s[1] == rest[0]);
    }
    assert(s.skip(1) =~= rest);
    assert(s.take(1) =~= seq![c]);
}

/// What stands before a comment is kept, and the comment is removed, wherever it stands.
pub proof fn law_comments_are_removed_anywhere(
    front: Seq<char>,
    body: Seq<char>,
    rest: Seq<char>,
)
    requires
        !front.contains('"'),
        !front.contains('/'),
    ensures
        !body.contains('\n') && (rest.len() == 0 || rest[0] == '\n') ==> without_comments(
            front + (seq!['/', '/'] + body + rest),
        ) == front + without_comments(rest),
        (forall|k: int|
            0 <= k < body.len() - 1 ==> !(body[k] == '*' && #[trigger] body[k + 1] == '/'))
            ==> without_comments(front + (seq!['/', '*'] + body + seq!['*', '/'] + rest)) == front
            + without_comments(rest),
{
    lemma_front_is_kept(front, seq!['/', '/'] + body + rest);
    lemma_front_is_kept(front, seq!['/', '*'] + body + seq!['*', '/'] + rest);
    if !body.contains('\n') && (rest.len() == 0 || rest[0] == '\n') {
        law_line_comments_are_removed(body, rest);
    }
    if forall|k: int|
        0 <= k < body.len() - 1 ==> !(body[k] == '*' && #[trigger] body[k + 1] == '/') {
        law_block_comments_are_removed(body, rest);
    }
}

proof fn lemma_front_is_kept(front: Seq<char>, rest: Seq<char>)
    requires
        !front.contains('"'),
        !front.contains('/'),
    ensures
        without_comments(front + rest) == front + without_comments(rest),
    decreases front.len(),
{
    if front.len() == 0 {
        assert(front + rest =~= rest);
        assert(front + without_comments(rest) =~= without_comments(rest));
    } else {
        let c = front[0];
        let less = front.drop_first();
        assert(front.contains(c));
        assert forall|x: char| less.contains(x) implies front.contains(x) by {
            let k = choose|k: int| 0 <= k < less.len() && less[k] == x;
            assert(front[k + 1] == x);
        }
        lemma_front_is_kept(less, rest);
        law_other_characters_are_kept(c, less + rest);
        assert(seq![c] + (less + rest) =~= front + rest);
        assert(seq![c] + (less + without_comments(rest)) =~= front + without_comments(rest));
    }
}

/// Where a block comment is not closed, the last character of the text is all that is left
/// of it.
pub proof fn law_block_comment_without_an_end(body: Seq<char>)
    requires
        forall|k: int|
            0 <= k < body.len() - 1 ==> !(body[k] == '*' && #[trigger] body[k + 1] == '/'),
    ensures
        without_comments(seq!['/', '*'] + body) == if body.len() == 0 {
            seq![]
        } else {
            seq![body.last()]
        },
{
    let s = seq!['/', '*'] + body;
    assert forall|k: int| 2 <= k < s.len() - 1 implies !(s[k] == '*' && #[trigger] s[k + 1]
        == '/') by {
        assert(s[k] == body[k - 2]);
        assert(s[k + 1] == body[k - 2 + 1]);
    }
    lemma_block_end_at_end(s, 2);
    if body.len() == 0 {
        let none = Seq::<char>::empty();
        assert(s.skip(2) =~= none);
        assert(without_comments(none) == none);
    } else {
        let last = seq![body.last()];
        assert(s.skip(s.len() - 1) =~= last);
        let none = Seq::<char>::empty();
        assert(without_comments(none) == none);
        assert(last.take(1) + none =~= last);
        assert(last.skip(1) =~= none);
        assert(without_comments(last) =~= last);
    }
}

proof fn lemma_block_end_at_end(s: Seq<char>, i: int)
    requires
        0 <= i <= s.len(),
        forall|k: int| i <= k < s.len() - 1 ==> !(s[k] == '*' && #[trigger] s[k + 1] == '/'),
    ensures
        block_end(s, i) == if i < s.len() {
            s.len() - 1
        } else {
            i
        },
    decreases s.len() - i,
{
    if i + 1 < s.len() {
        assert(!(s[i] == '*' && s[i + 1] == '/'));
        lemma_block_end_at_end(s, i + 1);
    }
}

/// What can stand in a string literal: a character other than a quote and a backslash, or a
/// backslash and the character that it escapes.
pub open spec fn is_literal_unit(unit: Seq<char>) -> bool {
    ||| unit.len() == 1 && unit[0] != '"' && unit[0] != '\\'
    ||| unit.len() == 2 && unit[0] == '\\'
}

proof fn lemma_literal_end_behind_units(
    front: Seq<char>,
    units: Seq<Seq<char>>,
    rest: Seq<char>,
)
    requires
        forall|i: int| 0 <= i < units.len() ==> is_literal_unit(#[trigger] units[i]),
    ensures
        literal_end(front + units.flatten() + rest, front.len() as int) == literal_end(
            front + units.flatten() + rest,
            (front.len() + units.flatten().len()) as int,
        ),
    decreases units.len(),
{
    if units.len() > 0 {
        let unit = units[0];
        let others = units.drop_first();
        assert(is_literal_unit(unit));
        assert forall|i: int| 0 <= i < others.len() implies is_literal_unit(
            #[trigger] others[i],
        ) by {
            assert(is_literal_unit(units[i + 1]));
        }
        lemma_literal_end_behind_units(front + unit, others, rest);
        let s = front + units.flatten() + rest;
        assert(units.flatten() =~= unit + others.flatten());
        assert((front + unit) + others.flatten() + rest =~= s);
        let n = front.len() as int;
        assert(s[n] == unit[0]);
    }
}

/// A string literal comes through unchanged, whatever stands in it, and does not affect how
/// the text behind it is read.
pub proof fn law_literals_of_units_are_kept(units: Seq<Seq<char>>, rest: Seq<char>)
    requires
        forall|i: int| 0 <= i < units.len() ==> is_literal_unit(#[trigger] units[i]),
    ensures
        without_comments(seq!['"'] + units.flatten() + seq!['"'] + rest) == seq!['"']
            + units.flatten() + seq!['"'] + without_comments(rest),
        without_trailing_commas(seq!['"'] + units.flatten() + seq!['"'] + rest) == seq!['"']
            + units.flatten() + seq!['"'] + without_trailing_commas(rest),
{
    let literal = seq!['"'] + units.flatten() + seq!['"'];
    let s = literal + rest;
    lemma_literal_end_behind_units(seq!['"'], units, seq!['"'] + rest);
    assert(seq!['"'] + units.flatten() + (seq!['"'] + rest) =~= s);
    assert(s[units.flatten().len() as int + 1] == '"');
    assert(literal_end(s, 1) == literal.len());
    assert(s.take(literal.len() as int) =~= literal);
    assert(s.skip(literal.len() as int) =~= rest);
}

/// A string literal that is not closed reaches to the end of the text and comes through
/// unchanged.
pub proof fn law_literal_without_an_end_is_kept(units: Seq<Seq<char>>)
    requires
        forall|i: int| 0 <= i < units.len() ==> is_literal_unit(#[trigger] units[i]),
    ensures
        without_comments(seq!['"'] + units.flatten()) == seq!['"'] + units.flatten(),
        without_trailing_commas(seq!['"'] + units.flatten()) == seq!['"'] + units.flatten(),
{
    let s = seq!['"'] + units.flatten();
    let none = Seq::<char>::empty();
    lemma_literal_end_behind_units(seq!['"'], units, none);
    assert(s + none =~= s);
    assert(literal_end(s, 1) == s.len());
    assert(s.take(s.len() as int) + none =~= s);
    assert(s.skip(s.len() as int) =~= none);
    assert(without_comments(none) == none);
    assert(without_trailing_commas(none) == none);
}

/// Which characters the removal of trailing commas keeps: all but the commas that have only
/// white space between them and a closing brace or bracket, wherever they stand.
pub proof fn law_only_trailing_commas_are_removed(
    c: char,
    white: Seq<char>,
    next: char,
    rest: Seq<char>,
)
    requires
        forall|i: int| 0 <= i < white.len() ==> text::white_space(#[trigger] white[i]),
        !text::white_space(next),
        c != '"',
    ensures
        without_trailing_commas(seq![]) == Seq::<char>::empty(),
        c != ',' ==> without_trailing_commas(seq![c] + rest) == seq![c] + without_trailing_commas(
            rest,
        ),
        next == '}' || next == ']' ==> without_trailing_commas(
            seq![','] + (white + seq![next] + rest),
        ) == without_trailing_commas(white + seq![next] + rest),
        next != '}' && next != ']' ==> without_trailing_commas(
            seq![','] + (white + seq![next] + rest),
        ) == seq![','] + without_trailing_commas(white + seq![next] + rest),
        without_trailing_commas(seq![','] + white) == seq![','] + without_trailing_commas(white),
{
    let s = seq![c] + rest;
    assert(s.skip(1) =~= rest);
    assert(s.take(1) =~= seq![c]);
    let tail = white + seq![next] + rest;
    let t = seq![','] + tail;
    assert(t.skip(1) =~= tail);
    assert(t.take(1) =~= seq![',']);
    let none = Seq::<char>::empty();
    text::lemma_trim_start_white(white, seq![next] + rest);
    assert(white + (seq![next] + rest) =~= tail);
    assert(text::trim_start(tail) == seq![next] + rest);
    let u = seq![','] + white;
    assert(u.skip(1) =~= white);
    assert(u.take(1) =~= seq![',']);
    text::lemma_trim_start_white(white, none);
    assert(white + none =~= white);
}

/// Comments go first, then the white space at the end, then the trailing commas.
pub proof fn law_json_without_comments_and_commas(s: Seq<char>)
    ensures
        as_json(s) == without_trailing_commas(text::trim_end(without_comments(s))),
{
}

} // verus!
