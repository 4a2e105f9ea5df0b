//! JavaScript semantics that the index depends on: document-ID identity and
//! JSON string writing that matches `JSON.stringify`.
use vstd::prelude::*;

use crate::text::push_char;

verus! {

/// A document-ID identity key. JavaScript `Map` keys follow SameValueZero:
/// the number `1` and the string `"1"` are distinct, and numbers compare by
/// value, so numbers are keyed by the bits of their `f64` value with -0
/// normalized to 0.
#[derive(Clone, Debug, PartialEq, Eq, Hash)]
pub enum IdKey {
    Num(u64),
    Str(String),
    Bool(bool),
    Null,
    Other(String),
}

impl IdKey {
    /// A copy of this key.
    pub fn copy(&self) -> (copy: IdKey)
        ensures
            copy == *self,
    {
        match self {
            IdKey::Num(bits) => IdKey::Num(*bits),
            IdKey::Str(text) => IdKey::Str(text.clone()),
            IdKey::Bool(value) => IdKey::Bool(*value),
            IdKey::Null => IdKey::Null,
            IdKey::Other(text) => IdKey::Other(text.clone()),
        }
    }
}

/// The decimal digits of `n`.
pub open spec fn decimal(n: nat) -> Seq<char>
    decreases n,
{
    if n < 10 {
        seq![(48 + n) as char]
    } else {
        decimal(n / 10).push((48 + n % 10) as char)
    }
}

/// Items separated by commas.
pub open spec fn members(items: Seq<Seq<char>>) -> Seq<char>
    decreases items.len(),
{
    if items.len() == 0 {
        Seq::empty()
    } else if items.len() == 1 {
        items[0]
    } else {
        members(items.drop_last()) + seq![','] + items.last()
    }
}

/// A JSON object with the given members.
pub open spec fn json_object(items: Seq<Seq<char>>) -> Seq<char> {
    seq!['{'] + members(items) + seq!['}']
}

/// A JSON array with the given items.
pub open spec fn json_array(items: Seq<Seq<char>>) -> Seq<char> {
    seq!['['] + members(items) + seq![']']
}

/// A JSON object member.
pub open spec fn json_member(key: Seq<char>, value: Seq<char>) -> Seq<char> {
    json_quoted(key) + seq![':'] + value
}

/// Appends the decimal digits of `n`.
pub fn push_decimal(out: &mut String, n: u64)
    ensures
        final(out)@ == old(out)@ + decimal(n as nat),
    decreases n,
{
    if n >= 10 {
        push_decimal(out, n / 10);
    }
    let digit = (n % 10) as u8;
    push_char(out, (48 + digit) as char);
    proof {
        if n < 10 {
            assert(old(out)@ + decimal(n as nat) =~= old(out)@.push((48 + n) as char));
        }
    }
}

/// Appends the separator before item `position` of a comma-separated list.
pub fn push_separator(out: &mut String, position: usize)
    ensures
        position == 0 ==> final(out)@ == old(out)@,
        position > 0 ==> final(out)@ == old(out)@.push(','),
{
    if position > 0 {
        push_char(out, ',');
    }
}

/// One step of writing a comma-separated list.
pub proof fn lemma_members_step(items: Seq<Seq<char>>, i: int)
    requires
        0 <= i < items.len(),
    ensures
        members(items.take(i + 1)) == members(items.take(i)) + (if i > 0 {
            seq![',']
        } else {
            Seq::empty()
        }) + items[i],
{
    let t = items.take(i + 1);
    assert(t.drop_last() =~= items.take(i));
    if i == 0 {
        assert(members(items.take(0)) =~= Seq::<char>::empty());
        assert(Seq::<char>::empty() + Seq::<char>::empty() + items[0] =~= items[0]);
    }
}

/// The digit `d` (below 16) in lowercase hexadecimal.
pub open spec fn hex_digit(d: int) -> char {
    if d < 10 {
        (48 + d) as char
    } else {
        (87 + d) as char
    }
}

/// How `JSON.stringify` writes one character inside a string literal.
pub open spec fn escape_char(c: char) -> Seq<char> {
    if c == '"' {
        seq!['\\', '"']
    } else if c == '\\' {
        seq!['\\', '\\']
    } else if c == '\n' {
        seq!['\\', 'n']
    } else if c == '\r' {
        seq!['\\', 'r']
    } else if c == '\t' {
        seq!['\\', 't']
    } else if c == '\u{8}' {
        seq!['\\', 'b']
    } else if c == '\u{c}' {
        seq!['\\', 'f']
    } else if (c as u32) < 0x20 {
        seq!['\\', 'u', '0', '0', hex_digit(((c as u32) / 16) as int), hex_digit(((c as u32) % 16) as int)]
    } else {
        seq![c]
    }
}

/// The escaped form of `text`, character by character.
pub open spec fn escape_text(text: Seq<char>) -> Seq<char>
    decreases text.len(),
{
    if text.len() == 0 {
        Seq::empty()
    } else {
        escape_text(text.drop_last()) + escape_char(text.last())
    }
}

/// `text` as a JSON string literal.
pub open spec fn json_quoted(text: Seq<char>) -> Seq<char> {
    seq!['"'] + escape_text(text) + seq!['"']
}

/// The value of a hexadecimal digit, in either case.
pub open spec fn hex_value(c: char) -> Option<int> {
    if '0' <= c && c <= '9' {
        Some(c as int - 48)
    } else if 'a' <= c && c <= 'f' {
        Some(c as int - 87)
    } else if 'A' <= c && c <= 'F' {
        Some(c as int - 55)
    } else {
        None
    }
}

/// The code unit written by the four hexadecimal digits of a `\u` escape
/// that starts at `start`.
pub open spec fn hex_unit(body: Seq<char>, start: int) -> Option<int> {
    if start + 4 <= body.len() && hex_value(body[start]) is Some && hex_value(body[start + 1]) is Some
        && hex_value(body[start + 2]) is Some && hex_value(body[start + 3]) is Some {
        Some(
            ((hex_value(body[start])->Some_0 * 16 + hex_value(body[start + 1])->Some_0) * 16
                + hex_value(body[start + 2])->Some_0) * 16 + hex_value(body[start + 3])->Some_0,
        )
    } else {
        None
    }
}

/// The character of a simple two-character escape `\e`.
pub open spec fn simple_escape(e: char) -> Option<char> {
    if e == '"' {
        Some('"')
    } else if e == '\\' {
        Some('\\')
    } else if e == '/' {
        Some('/')
    } else if e == 'b' {
        Some('\u{8}')
    } else if e == 'f' {
        Some('\u{c}')
    } else if e == 'n' {
        Some('\n')
    } else if e == 'r' {
        Some('\r')
    } else if e == 't' {
        Some('\t')
    } else {
        None
    }
}

/// The text that the body of a JSON string literal (what stands between
/// its quotes) denotes, read from the front, or `None` if the body is not
/// valid JSON: an unescaped quote or control character, an unknown escape,
/// or a `\u` escape that is not a character, where a high surrogate must be
/// followed by an escaped low one.
pub open spec fn json_unescape(body: Seq<char>) -> Option<Seq<char>>
    decreases body.len(),
{
    if body.len() == 0 {
        Some(Seq::empty())
    } else if body[0] == '\\' {
        if body.len() < 2 {
            None
        } else if simple_escape(body[1]) is Some {
            match json_unescape(body.skip(2)) {
                Some(rest) => Some(seq![simple_escape(body[1])->Some_0] + rest),
                None => None,
            }
        } else if body[1] == 'u' && hex_unit(body, 2) is Some {
            let unit = hex_unit(body, 2)->Some_0;
            if unit < 0xD800 || unit > 0xDFFF {
                match json_unescape(body.skip(6)) {
                    Some(rest) => Some(seq![unit as char] + rest),
                    None => None,
                }
            } else if unit <= 0xDBFF && body.len() >= 12 && body[6] == '\\' && body[7] == 'u'
                && hex_unit(body, 8) is Some && 0xDC00 <= hex_unit(body, 8)->Some_0 <= 0xDFFF {
                let low = hex_unit(body, 8)->Some_0;
                match json_unescape(body.skip(12)) {
                    Some(rest) => Some(
                        seq![(0x10000 + (unit - 0xD800) * 0x400 + (low - 0xDC00)) as char] + rest,
                    ),
                    None => None,
                }
            } else {
                None
            }
        } else {
            None
        }
    } else if body[0] == '"' || (body[0] as u32) < 0x20 {
        None
    } else {
        match json_unescape(body.skip(1)) {
            Some(rest) => Some(seq![body[0]] + rest),
            None => None,
        }
    }
}

/// The text that a JSON string literal denotes, or `None` if it is not one.
pub open spec fn json_string_value(literal: Seq<char>) -> Option<Seq<char>> {
    if literal.len() >= 2 && literal[0] == '"' && literal[literal.len() - 1] == '"' {
        json_unescape(literal.subrange(1, literal.len() - 1))
    } else {
        None
    }
}

/// Escaping from the front: the first character, then the others.
proof fn lemma_escape_front(text: Seq<char>)
    requires
        text.len() > 0,
    ensures
        escape_text(text) == escape_char(text[0]) + escape_text(text.skip(1)),
    decreases text.len(),
{
    if text.len() == 1 {
        assert(text.drop_last() =~= Seq::<char>::empty());
        assert(text.skip(1) =~= Seq::<char>::empty());
        assert(escape_text(text) =~= escape_char(text[0]) + escape_text(text.skip(1)));
    } else {
        lemma_escape_front(text.drop_last());
        assert(text.drop_last().skip(1) =~= text.skip(1).drop_last());
        assert(text.skip(1).last() == text.last());
        assert(text.drop_last()[0] == text[0]);
        assert(escape_text(text) =~= escape_char(text[0]) + escape_text(text.skip(1)));
    }
}

/// A hexadecimal digit written by `hex_digit` reads back as its value.
proof fn lemma_hex_digit(d: int)
    requires
        0 <= d < 16,
    ensures
        hex_value(hex_digit(d)) == Some(d),
{
    if d < 10 {
        assert(hex_digit(d) as int == 48 + d);
    } else {
        assert(hex_digit(d) as int == 87 + d);
    }
}

/// One escaped character reads back as that character, whatever follows.
proof fn lemma_unescape_char(c: char, rest: Seq<char>)
    ensures
        json_unescape(escape_char(c) + rest) == match json_unescape(rest) {
            Some(more) => Some(seq![c] + more),
            None => None::<Seq<char>>,
        },
{
    let body = escape_char(c) + rest;
    let n = escape_char(c).len() as int;
    assert(body.skip(n) =~= rest);
    if (c as u32) >= 0x20 && c != '"' && c != '\\' {
        assert(body[0] == c);
    } else if c == '"' || c == '\\' || c == '\n' || c == '\r' || c == '\t' || c == '\u{8}' || c
        == '\u{c}' {
        assert(body[0] == '\\');
        assert(simple_escape(body[1]) == Some(c));
    } else {
        let code = c as u32;
        assert(code < 0x20);
        lemma_hex_digit((code / 16) as int);
        lemma_hex_digit((code % 16) as int);
        assert(body[0] == '\\' && body[1] == 'u');
        assert(hex_value(body[2]) == Some(0int) && hex_value(body[3]) == Some(0int));
        assert(hex_unit(body, 2) == Some(((code / 16) * 16 + code % 16) as int));
        assert((code / 16) * 16 + code % 16 == code);
        assert(((code as int) as char) == c);
    }
}

/// The escaped text reads back as the text.
proof fn lemma_unescape_text(text: Seq<char>)
    ensures
        json_unescape(escape_text(text)) == Some(text),
    decreases text.len(),
{
    if text.len() == 0 {
        assert(escape_text(text) =~= Seq::<char>::empty());
    } else {
        lemma_escape_front(text);
        lemma_unescape_text(text.skip(1));
        lemma_unescape_char(text[0], escape_text(text.skip(1)));
        assert(seq![text[0]] + text.skip(1) =~= text);
    }
}

/// A JSON string literal written for a text is valid JSON and denotes
/// exactly that text.
pub proof fn lemma_json_quoted_denotes(text: Seq<char>)
    ensures
        json_string_value(json_quoted(text)) == Some(text),
{
    let q = json_quoted(text);
    assert(q.subrange(1, q.len() - 1) =~= escape_text(text));
    lemma_unescape_text(text);
}

/// A character that `JSON.stringify` writes as it is.
pub open spec fn plain_char(c: char) -> bool {
    c != '"' && c != '\\' && (c as u32) >= 0x20
}

pub proof fn lemma_escape_plain(text: Seq<char>)
    requires
        forall|i: int| 0 <= i < text.len() ==> plain_char(#[trigger] text[i]),
    ensures
        escape_text(text) == text,
    decreases text.len(),
{
    if text.len() > 0 {
        lemma_escape_plain(text.drop_last());
        assert(plain_char(text[text.len() - 1]));
        assert(text.drop_last().push(text.last()) =~= text);
    }
}

fn hex_char(d: u32) -> (c: char)
    requires
        d < 16,
    ensures
        c == hex_digit(d as int),
{
    if d < 10 {
        ((48 + d) as u8) as char
    } else {
        ((87 + d) as u8) as char
    }
}

/// Appends `text` to `out` as a JSON string literal, escaping exactly what
/// `JSON.stringify` escapes: the literal denotes `text`.
pub fn json_string_to(out: &mut String, text: &str)
    ensures
        final(out)@ == old(out)@ + json_quoted(text@),
        json_string_value(final(out)@.subrange(old(out)@.len() as int, final(out)@.len() as int))
            == Some(text@),
{
    let chars = crate::text::chars_of(text);
    let ghost start = out@;
    // Fast path: nothing to escape, the overwhelmingly common case for terms
    // and field names.
    let mut plain = true;
    let mut i: usize = 0;
    while i < chars.len()
        invariant
            i <= chars@.len(),
            plain == forall|j: int| 0 <= j < i ==> plain_char(#[trigger] chars@[j]),
        decreases chars@.len() - i,
    {
        let c = chars[i];
        if c == '"' || c == '\\' || (c as u32) < 0x20 {
            plain = false;
        }
        i = i + 1;
    }
    push_char(out, '"');
    if plain {
        proof {
            lemma_escape_plain(chars@);
        }
        out.append(text);
        push_char(out, '"');
        assert(out@ =~= start + json_quoted(text@));
        proof {
            lemma_json_quoted_denotes(text@);
            assert(out@.subrange(start.len() as int, out@.len() as int) =~= json_quoted(text@));
        }
        return;
    }
    let mut i: usize = 0;
    while i < chars.len()
        invariant
            i <= chars@.len(),
            out@ == start + seq!['"'] + escape_text(chars@.take(i as int)),
        decreases chars@.len() - i,
    {
        let c = chars[i];
        let ghost before = out@;
        proof {
            assert(chars@.take(i + 1).drop_last() =~= chars@.take(i as int));
        }
        if c == '"' {
            push_char(out, '\\');
            push_char(out, '"');
        } else if c == '\\' {
            push_char(out, '\\');
            push_char(out, '\\');
        } else if c == '\n' {
            push_char(out, '\\');
            push_char(out, 'n');
        } else if c == '\r' {
            push_char(out, '\\');
            push_char(out, 'r');
        } else if c == '\t' {
            push_char(out, '\\');
            push_char(out, 't');
        } else if c == '\u{8}' {
            push_char(out, '\\');
            push_char(out, 'b');
        } else if c == '\u{c}' {
            push_char(out, '\\');
            push_char(out, 'f');
        } else if (c as u32) < 0x20 {
            let code = c as u32;
            push_char(out, '\\');
            push_char(out, 'u');
            push_char(out, '0');
            push_char(out, '0');
            push_char(out, hex_char(code / 16));
            push_char(out, hex_char(code % 16));
        } else {
            push_char(out, c);
        }
        assert(out@ =~= before + escape_char(c));
        i = i + 1;
    }
    push_char(out, '"');
    assert(chars@.take(chars@.len() as int) =~= chars@);
    assert(out@ =~= start + json_quoted(text@));
    proof {
        lemma_json_quoted_denotes(text@);
        assert(out@.subrange(start.len() as int, out@.len() as int) =~= json_quoted(text@));
    }
}

} // verus!
