//! The mathematical model of front matter: a front matter is a sequence of
//! (key, value) pairs of character sequences. This module defines, as spec
//! functions on that model, what each operation of the library computes.
use vstd::prelude::*;
use crate::text::{find_char, join, lines, split_on, trim};

verus! {

/// A field of a front matter: its key and its raw value.
pub type Field = (Seq<char>, Seq<char>);

// ---------------------------------------------------------------------------
// Lookup and update

/// The index of the first field whose key is `key`.
pub open spec fn key_index(fields: Seq<Field>, key: Seq<char>) -> Option<int>
    decreases fields.len(),
{
    if fields.len() == 0 {
        None
    } else if fields[0].0 == key {
        Some(0)
    } else {
        match key_index(fields.drop_first(), key) {
            Some(i) => Some(i + 1),
            None => None,
        }
    }
}

/// Whether some field has the key `key`.
pub open spec fn has_key(fields: Seq<Field>, key: Seq<char>) -> bool {
    key_index(fields, key) is Some
}

/// The value of the first field whose key is `key`.
pub open spec fn lookup(fields: Seq<Field>, key: Seq<char>) -> Option<Seq<char>> {
    match key_index(fields, key) {
        Some(i) => Some(fields[i].1),
        None => None,
    }
}

/// The fields after setting `key` to `value`: the first field with that key
/// takes the new value in place, or a new field is appended at the end.
pub open spec fn set_field(fields: Seq<Field>, key: Seq<char>, value: Seq<char>) -> Seq<Field> {
    match key_index(fields, key) {
        Some(i) => fields.update(i, (fields[i].0, value)),
        None => fields.push((key, value)),
    }
}

/// The fields after removing the first field whose key is `key`.
pub open spec fn remove_field(fields: Seq<Field>, key: Seq<char>) -> Seq<Field> {
    match key_index(fields, key) {
        Some(i) => fields.remove(i),
        None => fields,
    }
}

/// `fields` after appending, in order, each field of `other` whose key is
/// not present yet (fields appended earlier count as present).
pub open spec fn merge_missing(fields: Seq<Field>, other: Seq<Field>) -> Seq<Field>
    decreases other.len(),
{
    if other.len() == 0 {
        fields
    } else {
        let acc = merge_missing(fields, other.drop_last());
        if has_key(acc, other.last().0) {
            acc
        } else {
            acc.push(other.last())
        }
    }
}

/// No two fields share a key.
pub open spec fn distinct_keys(fields: Seq<Field>) -> bool {
    forall|i: int, j: int| 0 <= i < j < fields.len() ==> fields[i].0 != fields[j].0
}

pub proof fn lemma_key_index_at(fields: Seq<Field>, key: Seq<char>, j: int)
    requires
        0 <= j <= fields.len(),
        forall|k: int| 0 <= k < j ==> fields[k].0 != key,
    ensures
        j < fields.len() && fields[j].0 == key ==> key_index(fields, key) == Some(j),
        j == fields.len() ==> key_index(fields, key) is None,
    decreases j,
{
    if j > 0 {
        lemma_key_index_at(fields.drop_first(), key, j - 1);
    }
}

pub proof fn lemma_key_index(fields: Seq<Field>, key: Seq<char>)
    ensures
        key_index(fields, key) matches Some(i) ==> 0 <= i < fields.len() && fields[i].0 == key
            && forall|k: int| 0 <= k < i ==> fields[k].0 != key,
        key_index(fields, key) is None ==> forall|k: int|
            0 <= k < fields.len() ==> fields[k].0 != key,
    decreases fields.len(),
{
    if fields.len() > 0 {
        lemma_key_index(fields.drop_first(), key);
        if fields[0].0 != key {
            assert forall|k: int| 1 <= k < fields.len() implies fields[k] == fields.drop_first()[k
                - 1] by {}
        }
    }
}

// ---------------------------------------------------------------------------
// Rendering

/// Characters that make a value need quotes when written out.
pub open spec fn is_special(c: char) -> bool {
    ||| c == ':'
    ||| c == '#'
    ||| c == '{'
    ||| c == '}'
    ||| c == '['
    ||| c == ']'
    ||| c == ','
    ||| c == '&'
    ||| c == '*'
    ||| c == '!'
    ||| c == '|'
    ||| c == '>'
    ||| c == '\''
    ||| c == '"'
    ||| c == '%'
    ||| c == '@'
}

/// Whether `value` must be quoted when written out.
pub open spec fn needs_quotes(value: Seq<char>) -> bool {
    ||| value.len() == 0
    ||| value[0] == ' '
    ||| value.last() == ' '
    ||| exists|i: int| 0 <= i < value.len() && is_special(#[trigger] value[i])
}

/// `value` with each double quote preceded by a backslash.
pub open spec fn escape_quotes(value: Seq<char>) -> Seq<char>
    decreases value.len(),
{
    if value.len() == 0 {
        Seq::empty()
    } else if value.last() == '"' {
        escape_quotes(value.drop_last()) + seq!['\\', '"']
    } else {
        escape_quotes(value.drop_last()).push(value.last())
    }
}

/// `value` as it is written out: in double quotes, escaped, where it needs
/// quotes, and as it is otherwise.
pub open spec fn quoted(value: Seq<char>) -> Seq<char> {
    if needs_quotes(value) {
        seq!['"'] + escape_quotes(value) + seq!['"']
    } else {
        value
    }
}

/// The line `key: value` written for a field, with its line feed.
pub open spec fn field_line(field: Field) -> Seq<char> {
    field.0 + seq![':', ' '] + quoted(field.1) + seq!['\n']
}

/// The lines of all fields, in order.
pub open spec fn field_lines(fields: Seq<Field>) -> Seq<char>
    decreases fields.len(),
{
    if fields.len() == 0 {
        Seq::empty()
    } else {
        field_lines(fields.drop_last()) + field_line(fields.last())
    }
}

/// The fence line that opens and closes a front matter block.
pub open spec fn fence() -> Seq<char> {
    seq!['-', '-', '-']
}

/// The front matter block: nothing for no fields; otherwise the opening
/// fence, one line per field and the closing fence, with no final line feed.
pub open spec fn rendered(fields: Seq<Field>) -> Seq<char> {
    if fields.len() == 0 {
        Seq::empty()
    } else {
        fence() + seq!['\n'] + field_lines(fields) + fence()
    }
}

/// A note's text: the block, a line feed unless the body is empty or starts
/// with one, then the body. Without fields the text is the body.
pub open spec fn note_text(fields: Seq<Field>, body: Seq<char>) -> Seq<char> {
    if fields.len() == 0 {
        body
    } else if body.len() > 0 && body[0] != '\n' {
        rendered(fields) + seq!['\n'] + body
    } else {
        rendered(fields) + body
    }
}

// ---------------------------------------------------------------------------
// Parsing

/// `value` without one pair of matching surrounding quotes (double or single).
pub open spec fn unquoted(value: Seq<char>) -> Seq<char> {
    if value.len() >= 2 && ((value[0] == '"' && value.last() == '"') || (value[0] == '\''
        && value.last() == '\'')) {
        value.subrange(1, value.len() - 1)
    } else {
        value
    }
}

/// Whether a line opens or closes a front matter block.
pub open spec fn is_fence(line: Seq<char>) -> bool {
    trim(line) == fence()
}

/// The field that a line between the fences gives: none for a blank line, a
/// comment line, a line without a colon or with an empty key. The key is
/// what stands before the first colon, trimmed; the value what stands after,
/// trimmed and unquoted.
pub open spec fn field_of_line(line: Seq<char>) -> Option<Field> {
    let t = trim(line);
    if t.len() == 0 || t[0] == '#' {
        None
    } else {
        match find_char(line, ':') {
            None => None,
            Some(p) => {
                let key = trim(line.take(p));
                if key.len() == 0 {
                    None
                } else {
                    Some((key, unquoted(trim(line.skip(p + 1)))))
                }
            },
        }
    }
}

/// The fields that a sequence of lines gives, in order.
pub open spec fn fields_of_lines(lines: Seq<Seq<char>>) -> Seq<Field>
    decreases lines.len(),
{
    if lines.len() == 0 {
        Seq::empty()
    } else {
        let acc = fields_of_lines(lines.drop_last());
        match field_of_line(lines.last()) {
            Some(f) => acc.push(f),
            None => acc,
        }
    }
}

/// The index of the first fence line at or after `from`.
pub open spec fn fence_from(lines: Seq<Seq<char>>, from: int) -> Option<int>
    decreases lines.len() - from,
{
    if from < 0 || from >= lines.len() {
        None
    } else if is_fence(lines[from]) {
        Some(from)
    } else {
        fence_from(lines, from + 1)
    }
}

/// What parsing a note's text gives: the front matter, if the text starts with
/// a fence line that a later fence line closes, and the body. The body is the
/// lines after the closing fence joined with line feeds, or, without a front
/// matter, the whole text (nothing, for a text without lines).
pub open spec fn parsed(text: Seq<char>) -> (Option<Seq<Field>>, Seq<char>) {
    let ls = lines(text);
    if ls.len() == 0 {
        (None, Seq::empty())
    } else if !is_fence(ls[0]) {
        (None, text)
    } else {
        match fence_from(ls, 1) {
            None => (None, text),
            Some(j) => (Some(fields_of_lines(ls.subrange(1, j))), join(ls.skip(j + 1), seq!['\n'])),
        }
    }
}

pub proof fn lemma_fence_from_at(lines: Seq<Seq<char>>, from: int, j: int)
    requires
        0 <= from <= j <= lines.len(),
        forall|k: int| from <= k < j ==> !is_fence(#[trigger] lines[k]),
    ensures
        j < lines.len() && is_fence(lines[j]) ==> fence_from(lines, from) == Some(j),
        j == lines.len() ==> fence_from(lines, from) is None,
    decreases j - from,
{
    if from < j {
        lemma_fence_from_at(lines, from + 1, j);
    }
}

// ---------------------------------------------------------------------------
// Values

/// The typed reading of a raw value.
pub enum ValueModel {
    String(Seq<char>),
    Bool(bool),
    Integer(int),
    Array(Seq<Seq<char>>),
}

pub open spec fn is_digit(c: char) -> bool {
    '0' <= c && c <= '9'
}

/// The number that a sequence of decimal digits denotes.
pub open spec fn digits_value(digits: Seq<char>) -> int
    decreases digits.len(),
{
    if digits.len() == 0 {
        0
    } else {
        digits_value(digits.drop_last()) * 10 + (digits.last() as int - '0' as int)
    }
}

/// Whether every character of `s` is a decimal digit.
pub open spec fn all_digits(s: Seq<char>) -> bool {
    forall|i: int| 0 <= i < s.len() ==> is_digit(#[trigger] s[i])
}

/// `s` without a leading sign.
pub open spec fn unsigned_part(s: Seq<char>) -> Seq<char> {
    if s.len() > 0 && (s[0] == '-' || s[0] == '+') {
        s.drop_first()
    } else {
        s
    }
}

/// What `i64::from_str` accepts: an optional sign, then one or more decimal
/// digits, denoting a number in the range of `i64`.
pub open spec fn parse_i64(s: Seq<char>) -> Option<int> {
    let digits = unsigned_part(s);
    if digits.len() == 0 || !all_digits(digits) {
        None
    } else {
        let v = if s[0] == '-' {
            -digits_value(digits)
        } else {
            digits_value(digits)
        };
        if i64::MIN <= v <= i64::MAX {
            Some(v)
        } else {
            None
        }
    }
}

/// The items of an array value, from the pieces between its commas: each
/// piece trimmed, empty ones left out, the rest unquoted.
pub open spec fn array_items(pieces: Seq<Seq<char>>) -> Seq<Seq<char>>
    decreases pieces.len(),
{
    if pieces.len() == 0 {
        Seq::empty()
    } else {
        let acc = array_items(pieces.drop_last());
        let t = trim(pieces.last());
        if t.len() == 0 {
            acc
        } else {
            acc.push(unquoted(t))
        }
    }
}

/// The typed reading of a raw value: `true` and `false` are booleans, what
/// `i64` parses is an integer, text in square brackets is an array of the
/// comma-separated items, and anything else is a string.
pub open spec fn value_of(raw: Seq<char>) -> ValueModel {
    if raw == seq!['t', 'r', 'u', 'e'] {
        ValueModel::Bool(true)
    } else if raw == seq!['f', 'a', 'l', 's', 'e'] {
        ValueModel::Bool(false)
    } else if parse_i64(raw) is Some {
        ValueModel::Integer(parse_i64(raw).unwrap())
    } else if raw.len() > 0 && raw[0] == '[' && raw.last() == ']' {
        ValueModel::Array(array_items(split_on(raw.subrange(1, raw.len() - 1), ',')))
    } else {
        ValueModel::String(raw)
    }
}

/// The map from each key to the typed reading of its value, a later field
/// overriding an earlier one with the same key.
pub open spec fn value_map(fields: Seq<Field>) -> Map<Seq<char>, ValueModel>
    decreases fields.len(),
{
    if fields.len() == 0 {
        Map::empty()
    } else {
        value_map(fields.drop_last()).insert(fields.last().0, value_of(fields.last().1))
    }
}

} // verus!
