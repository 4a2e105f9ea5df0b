//! Reading the serialized index text back: a reader for the posting lists
//! that serialization writes, which relies only on the JSON syntax of the
//! text, and the proof that it gives back every field, document and
//! frequency that was written.
use vstd::prelude::*;

use crate::engine::{Postings, field_member, freq_member, length_text, lengths_member, parsed_u32, term_item};
use crate::js::{
    decimal,
    json_array,
    json_object,
    json_quoted,
    json_string_value,
    lemma_escape_plain,
    lemma_json_quoted_denotes,
    members,
    plain_char,
};
use crate::written::{lemma_decimal_digits, lemma_decimal_parses};

verus! {

/// The position of the first `c` in `text`, or the length of `text` if it
/// has none.
pub open spec fn first_of(text: Seq<char>, c: char) -> int
    decreases text.len(),
{
    if text.len() == 0 {
        0
    } else if text[0] == c {
        0
    } else {
        1 + first_of(text.skip(1), c)
    }
}

/// A member `"key":value` of a JSON object whose key is a string of decimal
/// digits and whose value is a number, read as the two numbers.
pub open spec fn read_number_member(text: Seq<char>) -> Option<(u32, u32)> {
    let c = first_of(text, ':');
    if 0 <= c < text.len() {
        match json_string_value(text.take(c)) {
            Some(key) => match (parsed_u32(key), parsed_u32(text.skip(c + 1))) {
                (Some(a), Some(b)) => Some((a, b)),
                _ => None,
            },
            None => None,
        }
    } else {
        None
    }
}

/// Comma-separated number members, read in order.
pub open spec fn read_number_members(text: Seq<char>) -> Option<Seq<(u32, u32)>>
    decreases text.len(),
{
    if text.len() == 0 {
        Some(Seq::empty())
    } else {
        let c = first_of(text, ',');
        if 0 <= c <= text.len() {
            match read_number_member(text.take(c)) {
                None => None,
                Some(m) => if c == text.len() {
                    Some(seq![m])
                } else if c + 1 < text.len() {
                    match read_number_members(text.skip(c + 1)) {
                        Some(rest) => Some(seq![m] + rest),
                        None => None,
                    }
                } else {
                    None
                },
            }
        } else {
            None
        }
    }
}

/// A JSON object of number members, read in order.
pub open spec fn read_number_object(text: Seq<char>) -> Option<Seq<(u32, u32)>> {
    if text.len() >= 2 && text[0] == '{' && text[text.len() - 1] == '}' {
        read_number_members(text.subrange(1, text.len() - 1))
    } else {
        None
    }
}

/// A member `"field":{...}` of a posting object: a field ID with its
/// documents and frequencies.
pub open spec fn read_field_member(text: Seq<char>) -> Option<(u32, Seq<(u32, u32)>)> {
    let c = first_of(text, ':');
    if 0 <= c < text.len() {
        match json_string_value(text.take(c)) {
            Some(key) => match (parsed_u32(key), read_number_object(text.skip(c + 1))) {
                (Some(field), Some(docs)) => Some((field, docs)),
                _ => None,
            },
            None => None,
        }
    } else {
        None
    }
}

/// Comma-separated field members, each ending at the closing brace of its
/// object, read in order.
pub open spec fn read_field_members(text: Seq<char>) -> Option<Postings>
    decreases text.len(),
{
    if text.len() == 0 {
        Some(Seq::empty())
    } else {
        let c = first_of(text, '}');
        if 0 <= c < text.len() {
            match read_field_member(text.take(c + 1)) {
                None => None,
                Some(m) => if c + 1 == text.len() {
                    Some(seq![m])
                } else if c + 2 < text.len() && text[c + 1] == ',' {
                    match read_field_members(text.skip(c + 2)) {
                        Some(rest) => Some(seq![m] + rest),
                        None => None,
                    }
                } else {
                    None
                },
            }
        } else {
            None
        }
    }
}

/// A posting object `{"field":{"doc":freq,...},...}`, read in order.
pub open spec fn read_postings_object(text: Seq<char>) -> Option<Postings> {
    if text.len() >= 2 && text[0] == '{' && text[text.len() - 1] == '}' {
        read_field_members(text.subrange(1, text.len() - 1))
    } else {
        None
    }
}

/// `text` has no `c`.
pub open spec fn lacks(text: Seq<char>, c: char) -> bool {
    forall|i: int| 0 <= i < text.len() ==> #[trigger] text[i] != c
}

/// The first `c` of `a`, then `c`, then anything, is just after `a`.
proof fn lemma_first_of_after(a: Seq<char>, c: char, b: Seq<char>)
    requires
        lacks(a, c),
    ensures
        first_of(a + seq![c] + b, c) == a.len(),
    decreases a.len(),
{
    let t = a + seq![c] + b;
    if a.len() == 0 {
        assert(t[0] == c);
    } else {
        assert(t.skip(1) =~= a.skip(1) + seq![c] + b);
        lemma_first_of_after(a.skip(1), c, b);
    }
}

/// A text without `c` has its first `c` at its end.
proof fn lemma_first_of_none(a: Seq<char>, c: char)
    requires
        lacks(a, c),
    ensures
        first_of(a, c) == a.len(),
    decreases a.len(),
{
    if a.len() > 0 {
        lemma_first_of_none(a.skip(1), c);
    }
}

/// A quoted decimal key is the digits in quotes: it has only digits and
/// quotes, and reads back as the number.
proof fn lemma_quoted_decimal(n: u32)
    ensures
        json_quoted(decimal(n as nat)) == seq!['"'] + decimal(n as nat) + seq!['"'],
        forall|i: int|
            0 <= i < json_quoted(decimal(n as nat)).len() ==> {
                let ch = #[trigger] json_quoted(decimal(n as nat))[i];
                ch == '"' || ('0' <= ch && ch <= '9')
            },
        json_string_value(json_quoted(decimal(n as nat))).is_some(),
        parsed_u32(json_string_value(json_quoted(decimal(n as nat)))->Some_0) == Some(n),
{
    let d = decimal(n as nat);
    lemma_decimal_digits(n as nat);
    assert forall|i: int| 0 <= i < d.len() implies plain_char(#[trigger] d[i]) by {
        assert('0' <= d[i] && d[i] <= '9');
    }
    lemma_escape_plain(d);
    lemma_json_quoted_denotes(d);
    lemma_decimal_parses(n);
    let q = json_quoted(d);
    assert forall|i: int| 0 <= i < q.len() implies {
        let ch = #[trigger] q[i];
        ch == '"' || ('0' <= ch && ch <= '9')
    } by {
        if 0 < i < q.len() - 1 {
            assert(q[i] == d[i - 1]);
        }
    }
}

/// The digits of a number are digits.
proof fn lemma_decimal_is_digits(n: u32)
    ensures
        forall|i: int|
            0 <= i < decimal(n as nat).len() ==> {
                let ch = #[trigger] decimal(n as nat)[i];
                '0' <= ch && ch <= '9'
            },
{
    lemma_decimal_digits(n as nat);
}

/// The member written for a document and its frequency reads back as them,
/// and it has no comma or brace.
pub proof fn lemma_freq_member_reads_back(entry: (u32, u32))
    ensures
        read_number_member(freq_member(entry)) == Some(entry),
        lacks(freq_member(entry), ','),
        lacks(freq_member(entry), '}'),
{
    let q = json_quoted(decimal(entry.0 as nat));
    let v = decimal(entry.1 as nat);
    let t = freq_member(entry);
    lemma_quoted_decimal(entry.0);
    lemma_decimal_is_digits(entry.1);
    lemma_decimal_parses(entry.1);
    assert(t == q + seq![':'] + v);
    assert(lacks(q, ':'));
    lemma_first_of_after(q, ':', v);
    assert(t.take(q.len() as int) =~= q);
    assert(t.skip(q.len() as int + 1) =~= v);
    assert forall|i: int| 0 <= i < t.len() implies #[trigger] t[i] != ',' && t[i] != '}' by {
        if i < q.len() {
            assert(t[i] == q[i]);
        } else if i > q.len() {
            assert(t[i] == v[i - q.len() - 1]);
        }
    }
}

/// A list of two items or more is its first item, a comma, and the list of
/// the others.
pub proof fn lemma_members_front(items: Seq<Seq<char>>)
    requires
        items.len() >= 2,
    ensures
        members(items) == items[0] + seq![','] + members(items.skip(1)),
    decreases items.len(),
{
    if items.len() == 2 {
        assert(items.drop_last().len() == 1);
        assert(members(items.drop_last()) == items[0]);
        assert(members(items.skip(1)) == items[1]);
    } else {
        lemma_members_front(items.drop_last());
        assert(items.drop_last().skip(1) =~= items.skip(1).drop_last());
        assert(items.skip(1).last() == items.last());
    }
}

/// The members written for a posting list read back as its documents and
/// frequencies, in order.
pub proof fn lemma_freq_members_read_back(docs: Seq<(u32, u32)>)
    ensures
        read_number_members(members(docs.map_values(|doc: (u32, u32)| freq_member(doc))))
            == Some(docs),
        lacks(members(docs.map_values(|doc: (u32, u32)| freq_member(doc))), '}'),
    decreases docs.len(),
{
    let items = docs.map_values(|doc: (u32, u32)| freq_member(doc));
    let text = members(items);
    if docs.len() == 0 {
        assert(text =~= Seq::<char>::empty());
        assert(docs =~= Seq::<(u32, u32)>::empty());
    } else {
        lemma_freq_member_reads_back(docs[0]);
        let first = items[0];
        assert(first == freq_member(docs[0]));
        if docs.len() == 1 {
            assert(text == first);
            lemma_first_of_none(first, ',');
            assert(text.take(text.len() as int) =~= text);
            assert(seq![docs[0]] =~= docs);
        } else {
            let rest = docs.skip(1);
            lemma_freq_members_read_back(rest);
            lemma_members_front(items);
            assert(items.skip(1) =~= rest.map_values(|doc: (u32, u32)| freq_member(doc)));
            let tail = members(items.skip(1));
            assert(text == first + seq![','] + tail);
            lemma_first_of_after(first, ',', tail);
            assert(text.take(first.len() as int) =~= first);
            assert(text.skip(first.len() as int + 1) =~= tail);
            if tail.len() == 0 {
                assert(read_number_members(tail) == Some(Seq::<(u32, u32)>::empty()));
            }
            assert(seq![docs[0]] + rest =~= docs);
            assert forall|i: int| 0 <= i < text.len() implies #[trigger] text[i] != '}' by {
                if i < first.len() {
                    assert(text[i] == first[i]);
                } else if i > first.len() {
                    assert(text[i] == tail[i - first.len() - 1]);
                }
            }
        }
    }
}

/// The object written for a posting list reads back as its documents and
/// frequencies, in order; it has a single closing brace, at its end.
pub proof fn lemma_freq_object_reads_back(docs: Seq<(u32, u32)>)
    ensures
        read_number_object(json_object(docs.map_values(|doc: (u32, u32)| freq_member(doc))))
            == Some(docs),
{
    let text = members(docs.map_values(|doc: (u32, u32)| freq_member(doc)));
    lemma_freq_members_read_back(docs);
    let o = json_object(docs.map_values(|doc: (u32, u32)| freq_member(doc)));
    assert(o.subrange(1, o.len() - 1) =~= text);
}

/// The member written for a field of a posting list reads back as the field
/// ID with its documents and frequencies; its only closing brace is its
/// last character.
#[verifier::spinoff_prover]
#[verifier::rlimit(50)]
pub proof fn lemma_field_member_reads_back(entry: (u32, Seq<(u32, u32)>))
    ensures
        read_field_member(field_member(entry)) == Some(entry),
        field_member(entry).len() > 0,
        field_member(entry).last() == '}',
        lacks(field_member(entry).drop_last(), '}'),
{
    let q = json_quoted(decimal(entry.0 as nat));
    let items = entry.1.map_values(|doc: (u32, u32)| freq_member(doc));
    let inner = members(items);
    let o = json_object(items);
    let t = field_member(entry);
    lemma_quoted_decimal(entry.0);
    lemma_freq_object_reads_back(entry.1);
    lemma_freq_members_read_back(entry.1);
    assert(t == q + seq![':'] + o);
    assert(lacks(q, ':'));
    lemma_first_of_after(q, ':', o);
    assert(t.take(q.len() as int) =~= q);
    assert(t.skip(q.len() as int + 1) =~= o);
    assert(o == seq!['{'] + inner + seq!['}']);
    assert(t.drop_last() =~= q + seq![':', '{'] + inner);
    assert forall|i: int| 0 <= i < t.drop_last().len() implies #[trigger] t.drop_last()[i] != '}' by {
        if i < q.len() {
            assert(t.drop_last()[i] == q[i]);
        } else if i > q.len() + 1 {
            assert(t.drop_last()[i] == inner[i - q.len() - 2]);
        }
    }
}


/// The members written for the fields of a posting list read back as the
/// fields with their documents and frequencies, in order.
#[verifier::spinoff_prover]
#[verifier::rlimit(100)]
pub proof fn lemma_field_members_read_back(postings: Postings)
    ensures
        read_field_members(
            members(postings.map_values(|field: (u32, Seq<(u32, u32)>)| field_member(field))),
        ) == Some(postings),
    decreases postings.len(),
{
    let items = postings.map_values(|field: (u32, Seq<(u32, u32)>)| field_member(field));
    let text = members(items);
    if postings.len() == 0 {
        assert(text =~= Seq::<char>::empty());
        assert(postings =~= Seq::<(u32, Seq<(u32, u32)>)>::empty());
    } else {
        lemma_field_member_reads_back(postings[0]);
        let first = items[0];
        assert(first == field_member(postings[0]));
        let body = first.drop_last();
        assert(first =~= body + seq!['}']);
        if postings.len() == 1 {
            assert(text == first);
            assert(first =~= body + seq!['}'] + Seq::<char>::empty());
            lemma_first_of_after(body, '}', Seq::<char>::empty());
            assert(text.take(body.len() as int + 1) =~= text);
            assert(seq![postings[0]] =~= postings);
        } else {
            let rest = postings.skip(1);
            lemma_field_members_read_back(rest);
            lemma_members_front(items);
            assert(items.skip(1) =~= rest.map_values(
                |field: (u32, Seq<(u32, u32)>)| field_member(field),
            ));
            let tail = members(items.skip(1));
            assert(text == first + seq![','] + tail);
            assert(text =~= body + seq!['}'] + (seq![','] + tail));
            lemma_first_of_after(body, '}', seq![','] + tail);
            assert(text.take(body.len() as int + 1) =~= first);
            assert(text[body.len() as int + 1] == ',');
            assert(text.skip(body.len() as int + 2) =~= tail);
            if tail.len() == 0 {
                assert(read_field_members(tail) == Some(Seq::<(u32, Seq<(u32, u32)>)>::empty()));
            }
            assert(seq![postings[0]] + rest =~= postings);
        }
    }
}

/// The object written for the postings of a term reads back as its fields,
/// each with its documents and frequencies, in order.
pub proof fn lemma_postings_object_reads_back(postings: Postings)
    ensures
        read_postings_object(
            json_object(postings.map_values(|field: (u32, Seq<(u32, u32)>)| field_member(field))),
        ) == Some(postings),
{
    lemma_field_members_read_back(postings);
    let o = json_object(postings.map_values(|field: (u32, Seq<(u32, u32)>)| field_member(field)));
    assert(o.subrange(1, o.len() - 1) =~= members(
        postings.map_values(|field: (u32, Seq<(u32, u32)>)| field_member(field)),
    ));
}

/// The item that serialization writes for a term of the index is valid
/// JSON that denotes the term and its postings: an array of a JSON string
/// that denotes the term and an object that reads back as every field of
/// the term, each with every document and frequency of its posting list,
/// in order.
pub proof fn lemma_term_item_reads_back(entry: (Seq<char>, Postings))
    ensures
        exists|key: Seq<char>, postings: Seq<char>|
            term_item(entry) == seq!['['] + key + seq![','] + postings + seq![']']
                && json_string_value(key) == Some(entry.0) && read_postings_object(postings)
                == Some(entry.1),
{
    let key = json_quoted(entry.0);
    let postings = json_object(
        entry.1.map_values(|field: (u32, Seq<(u32, u32)>)| field_member(field)),
    );
    lemma_json_quoted_denotes(entry.0);
    lemma_postings_object_reads_back(entry.1);
    assert(term_item(entry) == seq!['['] + key + seq![','] + postings + seq![']']);
}

/// A field length: `null` or a number.
pub open spec fn read_length(text: Seq<char>) -> Option<Option<u32>> {
    if text == "null"@ {
        Some(None)
    } else {
        match parsed_u32(text) {
            Some(n) => Some(Some(n)),
            None => None,
        }
    }
}

/// Comma-separated field lengths, read in order.
pub open spec fn read_length_items(text: Seq<char>) -> Option<Seq<Option<u32>>>
    decreases text.len(),
{
    if text.len() == 0 {
        Some(Seq::empty())
    } else {
        let c = first_of(text, ',');
        if 0 <= c <= text.len() {
            match read_length(text.take(c)) {
                None => None,
                Some(m) => if c == text.len() {
                    Some(seq![m])
                } else if c + 1 < text.len() {
                    match read_length_items(text.skip(c + 1)) {
                        Some(rest) => Some(seq![m] + rest),
                        None => None,
                    }
                } else {
                    None
                },
            }
        } else {
            None
        }
    }
}

/// A member `"doc":[...]` of the field-length object: a document with the
/// lengths of its fields.
pub open spec fn read_length_member(text: Seq<char>) -> Option<(u32, Seq<Option<u32>>)> {
    let c = first_of(text, ':');
    if 0 <= c < text.len() {
        let value = text.skip(c + 1);
        match json_string_value(text.take(c)) {
            Some(key) => if value.len() >= 2 && value[0] == '[' && value[value.len() - 1] == ']' {
                match (parsed_u32(key), read_length_items(value.subrange(1, value.len() - 1))) {
                    (Some(doc), Some(lengths)) => Some((doc, lengths)),
                    _ => None,
                }
            } else {
                None
            },
            None => None,
        }
    } else {
        None
    }
}

/// Comma-separated field-length members, each ending at the closing bracket
/// of its array, read in order.
pub open spec fn read_length_members(text: Seq<char>) -> Option<Seq<(u32, Seq<Option<u32>>)>>
    decreases text.len(),
{
    if text.len() == 0 {
        Some(Seq::empty())
    } else {
        let c = first_of(text, ']');
        if 0 <= c < text.len() {
            match read_length_member(text.take(c + 1)) {
                None => None,
                Some(m) => if c + 1 == text.len() {
                    Some(seq![m])
                } else if c + 2 < text.len() && text[c + 1] == ',' {
                    match read_length_members(text.skip(c + 2)) {
                        Some(rest) => Some(seq![m] + rest),
                        None => None,
                    }
                } else {
                    None
                },
            }
        } else {
            None
        }
    }
}

/// The field-length object `{"doc":[length,...],...}`, read in order.
pub open spec fn read_lengths_object(text: Seq<char>) -> Option<Seq<(u32, Seq<Option<u32>>)>> {
    if text.len() >= 2 && text[0] == '{' && text[text.len() - 1] == '}' {
        read_length_members(text.subrange(1, text.len() - 1))
    } else {
        None
    }
}

/// A written field length reads back as it was, and has no comma or
/// bracket.
proof fn lemma_length_reads_back(length: Option<u32>)
    ensures
        read_length(length_text(length)) == Some(length),
        length_text(length).len() > 0,
        lacks(length_text(length), ','),
        lacks(length_text(length), ']'),
{
    reveal_strlit("null");
    match length {
        Some(n) => {
            lemma_decimal_is_digits(n);
            lemma_decimal_parses(n);
            lemma_decimal_digits(n as nat);
            let d = decimal(n as nat);
            if d == "null"@ {
                assert(d[0] == "null"@[0]);
            }
        },
        None => {
            let t = "null"@;
            assert(t =~= seq!['n', 'u', 'l', 'l']);
        },
    }
}

/// The written lengths of a document read back as they were.
#[verifier::spinoff_prover]
proof fn lemma_length_items_read_back(lengths: Seq<Option<u32>>)
    ensures
        read_length_items(members(lengths.map_values(|length: Option<u32>| length_text(length))))
            == Some(lengths),
        lacks(members(lengths.map_values(|length: Option<u32>| length_text(length))), ']'),
    decreases lengths.len(),
{
    let items = lengths.map_values(|length: Option<u32>| length_text(length));
    let text = members(items);
    if lengths.len() == 0 {
        assert(text =~= Seq::<char>::empty());
        assert(lengths =~= Seq::<Option<u32>>::empty());
    } else {
        lemma_length_reads_back(lengths[0]);
        let first = items[0];
        assert(first == length_text(lengths[0]));
        if lengths.len() == 1 {
            assert(text == first);
            lemma_first_of_none(first, ',');
            assert(text.take(text.len() as int) =~= text);
            assert(seq![lengths[0]] =~= lengths);
        } else {
            let rest = lengths.skip(1);
            lemma_length_items_read_back(rest);
            lemma_members_front(items);
            assert(items.skip(1) =~= rest.map_values(|length: Option<u32>| length_text(length)));
            let tail = members(items.skip(1));
            assert(text == first + seq![','] + tail);
            lemma_first_of_after(first, ',', tail);
            assert(text.take(first.len() as int) =~= first);
            assert(text.skip(first.len() as int + 1) =~= tail);
            if tail.len() == 0 {
                assert(read_length_items(tail) == Some(Seq::<Option<u32>>::empty()));
            }
            assert(seq![lengths[0]] + rest =~= lengths);
            assert forall|i: int| 0 <= i < text.len() implies #[trigger] text[i] != ']' by {
                if i < first.len() {
                    assert(text[i] == first[i]);
                } else if i > first.len() {
                    assert(text[i] == tail[i - first.len() - 1]);
                }
            }
        }
    }
}

/// The member written for a document's field lengths reads back as the
/// document with its lengths; its only closing bracket is its last
/// character.
#[verifier::spinoff_prover]
#[verifier::rlimit(50)]
proof fn lemma_length_member_reads_back(entry: (u32, Seq<Option<u32>>))
    ensures
        read_length_member(lengths_member(entry)) == Some(entry),
        lengths_member(entry).len() > 0,
        lengths_member(entry).last() == ']',
        lacks(lengths_member(entry).drop_last(), ']'),
{
    let q = json_quoted(decimal(entry.0 as nat));
    let items = entry.1.map_values(|length: Option<u32>| length_text(length));
    let inner = members(items);
    let a = json_array(items);
    let t = lengths_member(entry);
    lemma_quoted_decimal(entry.0);
    lemma_length_items_read_back(entry.1);
    assert(t == q + seq![':'] + a);
    assert(lacks(q, ':'));
    lemma_first_of_after(q, ':', a);
    assert(t.take(q.len() as int) =~= q);
    assert(t.skip(q.len() as int + 1) =~= a);
    assert(a == seq!['['] + inner + seq![']']);
    assert(a.subrange(1, a.len() - 1) =~= inner);
    assert(t.drop_last() =~= q + seq![':', '['] + inner);
    assert forall|i: int| 0 <= i < t.drop_last().len() implies #[trigger] t.drop_last()[i] != ']' by {
        if i < q.len() {
            assert(t.drop_last()[i] == q[i]);
        } else if i > q.len() + 1 {
            assert(t.drop_last()[i] == inner[i - q.len() - 2]);
        }
    }
}

/// The members written for the field-length table read back as its
/// documents with their lengths, in order.
#[verifier::spinoff_prover]
#[verifier::rlimit(100)]
proof fn lemma_length_members_read_back(table: Seq<(u32, Seq<Option<u32>>)>)
    ensures
        read_length_members(
            members(table.map_values(|entry: (u32, Seq<Option<u32>>)| lengths_member(entry))),
        ) == Some(table),
    decreases table.len(),
{
    let items = table.map_values(|entry: (u32, Seq<Option<u32>>)| lengths_member(entry));
    let text = members(items);
    if table.len() == 0 {
        assert(text =~= Seq::<char>::empty());
        assert(table =~= Seq::<(u32, Seq<Option<u32>>)>::empty());
    } else {
        lemma_length_member_reads_back(table[0]);
        let first = items[0];
        assert(first == lengths_member(table[0]));
        let body = first.drop_last();
        assert(first =~= body + seq![']']);
        if table.len() == 1 {
            assert(text == first);
            assert(first =~= body + seq![']'] + Seq::<char>::empty());
            lemma_first_of_after(body, ']', Seq::<char>::empty());
            assert(text.take(body.len() as int + 1) =~= text);
            assert(seq![table[0]] =~= table);
        } else {
            let rest = table.skip(1);
            lemma_length_members_read_back(rest);
            lemma_members_front(items);
            assert(items.skip(1) =~= rest.map_values(
                |entry: (u32, Seq<Option<u32>>)| lengths_member(entry),
            ));
            let tail = members(items.skip(1));
            assert(text == first + seq![','] + tail);
            assert(text =~= body + seq![']'] + (seq![','] + tail));
            lemma_first_of_after(body, ']', seq![','] + tail);
            assert(text.take(body.len() as int + 1) =~= first);
            assert(text[body.len() as int + 1] == ',');
            assert(text.skip(body.len() as int + 2) =~= tail);
            if tail.len() == 0 {
                assert(read_length_members(tail) == Some(Seq::<(u32, Seq<Option<u32>>)>::empty()));
            }
            assert(seq![table[0]] + rest =~= table);
        }
    }
}

/// The field-length object that serialization writes is valid JSON that
/// reads back as every document with the length of each of its fields, in
/// order.
pub proof fn lemma_lengths_object_reads_back(table: Seq<(u32, Seq<Option<u32>>)>)
    ensures
        read_lengths_object(
            json_object(table.map_values(|entry: (u32, Seq<Option<u32>>)| lengths_member(entry))),
        ) == Some(table),
{
    lemma_length_members_read_back(table);
    let o = json_object(table.map_values(|entry: (u32, Seq<Option<u32>>)| lengths_member(entry)));
    assert(o.subrange(1, o.len() - 1) =~= members(
        table.map_values(|entry: (u32, Seq<Option<u32>>)| lengths_member(entry)),
    ));
}

} // verus!
