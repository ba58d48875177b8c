//! What reading a front matter block and its values gives, stated over texts
//! and characters written out in full.
use vstd::prelude::*;
use crate::model::{
    ValueModel, all_digits, array_items, digits_value, escape_quotes, field_of_line,
    fields_of_lines, is_fence, lemma_fence_from_at, parse_i64, parsed, quoted, unquoted,
    unsigned_part, value_of,
};
use crate::round_trip::{lemma_lines_cons, lemma_lines_single, lemma_trim_same};
use crate::text::{
    is_whitespace, join, lemma_find_char_at, lemma_trim_end_at, lemma_trim_start_at, lines,
    split_on, strip_cr, trim, trim_start,
};

verus! {

/// A line that can stand inside a block: no line feed, no carriage return at
/// its end, and not a `---` fence line.
pub open spec fn block_line(line: Seq<char>) -> bool {
    &&& forall|i: int| 0 <= i < line.len() ==> line[i] != '\n'
    &&& (line.len() == 0 || line.last() != '\r')
    &&& trim(line) != seq!['-', '-', '-']
}

/// The given lines, each followed by a line feed.
pub open spec fn block_lines(ls: Seq<Seq<char>>) -> Seq<char>
    decreases ls.len(),
{
    if ls.len() == 0 {
        Seq::empty()
    } else {
        ls[0] + seq!['\n'] + block_lines(ls.drop_first())
    }
}

/// A front matter block holding the given lines, with nothing after it.
pub open spec fn block_text(ls: Seq<Seq<char>>) -> Seq<char> {
    seq!['-', '-', '-', '\n'] + block_lines(ls) + seq!['-', '-', '-']
}

proof fn lemma_lines_of_block(ls: Seq<Seq<char>>, rest: Seq<char>)
    requires
        forall|i: int| 0 <= i < ls.len() ==> block_line(#[trigger] ls[i]),
    ensures
        lines(block_lines(ls) + rest) == ls + lines(rest),
    decreases ls.len(),
{
    if ls.len() == 0 {
        assert(block_lines(ls) + rest =~= rest);
        assert(ls + lines(rest) =~= lines(rest));
    } else {
        let tail = ls.drop_first();
        assert forall|i: int| 0 <= i < tail.len() implies block_line(#[trigger] tail[i]) by {
            assert(tail[i] == ls[i + 1]);
        }
        lemma_lines_of_block(tail, rest);
        assert(block_line(ls[0]));
        assert(block_lines(ls) + rest =~= ls[0] + seq!['\n'] + (block_lines(tail) + rest));
        lemma_lines_cons(ls[0], block_lines(tail) + rest);
        assert(strip_cr(ls[0]) == ls[0]);
        assert(ls =~= seq![ls[0]] + tail);
        assert(lines(block_lines(ls) + rest) =~= ls + lines(rest));
    }
}

proof fn lemma_fence_is_fence()
    ensures
        is_fence(seq!['-', '-', '-']),
        trim(seq!['-', '-', '-']) == seq!['-', '-', '-'],
{
    lemma_trim_same(seq!['-', '-', '-']);
}

/// Parsing a block gives the fields of its lines.
proof fn lemma_parse_block(ls: Seq<Seq<char>>)
    requires
        forall|i: int| 0 <= i < ls.len() ==> block_line(#[trigger] ls[i]),
    ensures
        parsed(block_text(ls)).0 == Some(fields_of_lines(ls)),
{
    let f = seq!['-', '-', '-'];
    let text = block_text(ls);
    assert(text =~= f + seq!['\n'] + (block_lines(ls) + f));
    lemma_lines_cons(f, block_lines(ls) + f);
    lemma_lines_of_block(ls, f);
    lemma_lines_single(f);
    assert(strip_cr(f) == f);
    let all = lines(text);
    assert(all =~= seq![f] + ls + seq![f]);
    lemma_fence_is_fence();
    let n = ls.len() as int;
    assert forall|k: int| 1 <= k < n + 1 implies !is_fence(#[trigger] all[k]) by {
        assert(all[k] == ls[k - 1]);
        assert(block_line(ls[k - 1]));
    }
    assert(all[n + 1] == f);
    lemma_fence_from_at(all, 1, n + 1);
    assert(all.subrange(1, n + 1) =~= ls);
}

proof fn lemma_fields_of_concat(a: Seq<Seq<char>>, b: Seq<Seq<char>>)
    ensures
        fields_of_lines(a + b) == fields_of_lines(a) + fields_of_lines(b),
    decreases b.len(),
{
    if b.len() == 0 {
        assert(a + b =~= a);
        assert(fields_of_lines(a) + fields_of_lines(b) =~= fields_of_lines(a));
    } else {
        lemma_fields_of_concat(a, b.drop_last());
        assert((a + b).drop_last() =~= a + b.drop_last());
        assert((a + b).last() == b.last());
        let left = fields_of_lines(a) + fields_of_lines(b.drop_last());
        match field_of_line(b.last()) {
            Some(x) => {
                assert(left.push(x) =~= fields_of_lines(a) + fields_of_lines(b.drop_last()).push(
                    x,
                ));
            },
            None => {},
        }
    }
}

/// A line whose trimmed text starts with `#` is a comment: it gives no
/// field, and a block with such a line among its lines parses to the same
/// fields as the block without it.
pub proof fn law_comment_lines_give_no_field(
    before: Seq<Seq<char>>,
    comment: Seq<char>,
    after: Seq<Seq<char>>,
)
    requires
        forall|i: int| 0 <= i < before.len() ==> block_line(#[trigger] before[i]),
        forall|i: int| 0 <= i < after.len() ==> block_line(#[trigger] after[i]),
        forall|i: int| 0 <= i < comment.len() ==> comment[i] != '\n',
        comment.len() == 0 || comment.last() != '\r',
        trim(comment).len() > 0,
        trim(comment)[0] == '#',
    ensures
        field_of_line(comment) is None,
        parsed(block_text(before + seq![comment] + after)).0 == parsed(block_text(before + after)).0,
{
    assert(trim(comment) != seq!['-', '-', '-']) by {
        if trim(comment) =~= seq!['-', '-', '-'] {
            assert(trim(comment)[0] == '-');
        }
    }
    let with = before + seq![comment] + after;
    let without = before + after;
    assert forall|i: int| 0 <= i < with.len() implies block_line(#[trigger] with[i]) by {
        if i < before.len() {
            assert(with[i] == before[i]);
        } else if i > before.len() {
            assert(with[i] == after[i - before.len() - 1]);
        }
    }
    assert forall|i: int| 0 <= i < without.len() implies block_line(#[trigger] without[i]) by {
        if i < before.len() {
            assert(without[i] == before[i]);
        } else {
            assert(without[i] == after[i - before.len()]);
        }
    }
    lemma_parse_block(with);
    lemma_parse_block(without);
    lemma_fields_of_concat(before + seq![comment], after);
    lemma_fields_of_concat(before, seq![comment]);
    lemma_fields_of_concat(before, after);
    assert(field_of_line(comment) is None);
    assert(seq![comment].drop_last() =~= Seq::<Seq<char>>::empty());
    assert(fields_of_lines(Seq::<Seq<char>>::empty()) =~= Seq::empty());
    assert(seq![comment].last() == comment);
    assert(fields_of_lines(seq![comment]) =~= Seq::empty());
    assert(fields_of_lines(before) + fields_of_lines(seq![comment]) =~= fields_of_lines(before));
}

spec fn plain_key(key: Seq<char>) -> bool {
    &&& key.len() > 0
    &&& !is_whitespace(key[0])
    &&& !is_whitespace(key.last())
    &&& key[0] != '#'
    &&& forall|i: int| 0 <= i < key.len() ==> #[trigger] key[i] != ':' && key[i] != '\n'
}

spec fn blank(space: Seq<char>) -> bool {
    forall|i: int|
        0 <= i < space.len() ==> is_whitespace(#[trigger] space[i]) && space[i] != '\n' && space[i]
            != '\r'
}

proof fn lemma_key_colon_field(key: Seq<char>, space: Seq<char>)
    requires
        plain_key(key),
        blank(space),
    ensures
        field_of_line(key + seq![':'] + space) == Some((key, Seq::<char>::empty())),
        trim(key + seq![':'] + space) == key + seq![':'],
{
    let line = key + seq![':'] + space;
    let n = key.len() as int;
    assert(line[0] == key[0]);
    assert(line[n] == ':');
    lemma_trim_start_at(line, 0);
    assert(line.skip(0) =~= line);
    assert forall|k: int| n + 1 <= k < line.len() implies is_whitespace(#[trigger] line[k]) by {
        assert(line[k] == space[k - n - 1]);
    }
    lemma_trim_end_at(line, n + 1);
    assert(line.take(n + 1) =~= key + seq![':']);
    let t = trim(line);
    assert(t[0] == key[0]);
    assert forall|k: int| 0 <= k < n implies line[k] != ':' by {
        assert(line[k] == key[k]);
    }
    lemma_find_char_at(line, ':', n);
    assert(line.take(n) =~= key);
    lemma_trim_same(key);
    assert(line.skip(n + 1) =~= space);
    lemma_trim_start_at(space, space.len() as int);
    assert(space.skip(space.len() as int) =~= Seq::<char>::empty());
    assert(trim(space) =~= Seq::<char>::empty());
    assert(unquoted(Seq::<char>::empty()) == Seq::<char>::empty());
}

proof fn lemma_key_colon_block_line(key: Seq<char>, space: Seq<char>)
    requires
        plain_key(key),
        blank(space),
    ensures
        block_line(key + seq![':'] + space),
{
    let line = key + seq![':'] + space;
    let n = key.len() as int;
    lemma_key_colon_field(key, space);
    assert forall|k: int| 0 <= k < line.len() implies line[k] != '\n' by {
        if k < n {
            assert(line[k] == key[k]);
        } else if k > n {
            assert(line[k] == space[k - n - 1]);
        }
    }
    assert(line.last() != '\r') by {
        if space.len() > 0 {
            assert(line.last() == space.last());
        } else {
            assert(line.last() == ':');
        }
    }
    let t = key + seq![':'];
    assert(t != seq!['-', '-', '-']) by {
        if t =~= seq!['-', '-', '-'] {
            assert(t[n] == ':');
        }
    }
}

/// A block line `key:` followed by nothing but whitespace gives the field
/// with that key and an empty value; a block of that one line parses to
/// exactly that field.
pub proof fn law_empty_value_gives_empty_field(key: Seq<char>, space: Seq<char>)
    requires
        key.len() > 0,
        !is_whitespace(key[0]),
        !is_whitespace(key.last()),
        key[0] != '#',
        forall|i: int| 0 <= i < key.len() ==> #[trigger] key[i] != ':' && key[i] != '\n',
        forall|i: int|
            0 <= i < space.len() ==> is_whitespace(#[trigger] space[i]) && space[i] != '\n'
                && space[i] != '\r',
    ensures
        field_of_line(key + seq![':'] + space) == Some((key, Seq::<char>::empty())),
        parsed(seq!['-', '-', '-', '\n'] + key + seq![':'] + space + seq!['\n', '-', '-', '-']).0
            == Some(seq![(key, Seq::<char>::empty())]),
{
    let line = key + seq![':'] + space;
    lemma_key_colon_field(key, space);
    lemma_key_colon_block_line(key, space);
    let ls = seq![line];
    assert(ls[0] == line);
    lemma_parse_block(ls);
    assert(ls.drop_first() =~= Seq::<Seq<char>>::empty());
    assert(block_lines(Seq::<Seq<char>>::empty()) =~= Seq::<char>::empty());
    assert(block_lines(ls) =~= line + seq!['\n']);
    assert(block_text(ls) =~= seq!['-', '-', '-', '\n'] + key + seq![':'] + space + seq![
        '\n',
        '-',
        '-',
        '-',
    ]);
    assert(ls.drop_last() =~= Seq::<Seq<char>>::empty());
    assert(ls.last() == line);
    assert(fields_of_lines(Seq::<Seq<char>>::empty()) =~= Seq::empty());
    assert(fields_of_lines(ls) =~= seq![(key, Seq::<char>::empty())]);
}

/// A signed integer reads with its sign: `-` before a digit string whose
/// number `n` is at most 2^63 reads as `-n`, and `+` before one or no sign
/// reads as `n` when `n` fits in `i64`; so the reading of `-d` is the
/// negation of the reading of `d`.
pub proof fn law_signed_integer(digits: Seq<char>)
    requires
        digits.len() > 0,
        forall|i: int| 0 <= i < digits.len() ==> '0' <= #[trigger] digits[i] && digits[i] <= '9',
        digits_value(digits) <= 9223372036854775808,
    ensures
        parse_i64(seq!['-'] + digits) == Some(-digits_value(digits)),
        value_of(seq!['-'] + digits) == ValueModel::Integer(-digits_value(digits)),
        digits_value(digits) <= 9223372036854775807 ==> {
            &&& parse_i64(digits) == Some(digits_value(digits))
            &&& parse_i64(seq!['+'] + digits) == Some(digits_value(digits))
            &&& value_of(digits) == ValueModel::Integer(digits_value(digits))
            &&& parse_i64(seq!['-'] + digits) == Some(-parse_i64(digits).unwrap())
        },
{
    lemma_digits_value_nonnegative(digits);
    let neg = seq!['-'] + digits;
    let pos = seq!['+'] + digits;
    assert(neg.drop_first() =~= digits);
    assert(pos.drop_first() =~= digits);
    assert(neg[0] == '-');
    assert(pos[0] == '+');
    assert(neg != seq!['t', 'r', 'u', 'e']) by {
        if neg =~= seq!['t', 'r', 'u', 'e'] {
            assert(neg[0] == 't');
        }
    }
    assert(neg != seq!['f', 'a', 'l', 's', 'e']) by {
        if neg =~= seq!['f', 'a', 'l', 's', 'e'] {
            assert(neg[0] == 'f');
        }
    }
    assert(digits != seq!['t', 'r', 'u', 'e']) by {
        if digits =~= seq!['t', 'r', 'u', 'e'] {
            assert(digits[0] == 't');
        }
    }
    assert(digits != seq!['f', 'a', 'l', 's', 'e']) by {
        if digits =~= seq!['f', 'a', 'l', 's', 'e'] {
            assert(digits[0] == 'f');
        }
    }
}

proof fn lemma_digits_value_nonnegative(digits: Seq<char>)
    requires
        forall|i: int| 0 <= i < digits.len() ==> '0' <= #[trigger] digits[i] && digits[i] <= '9',
    ensures
        digits_value(digits) >= 0,
    decreases digits.len(),
{
    if digits.len() > 0 {
        let init = digits.drop_last();
        assert forall|i: int| 0 <= i < init.len() implies '0' <= #[trigger] init[i] && init[i]
            <= '9' by {
            assert(init[i] == digits[i]);
        }
        lemma_digits_value_nonnegative(init);
        assert(digits.last() == digits[digits.len() - 1]);
    }
}

/// A value is written in double quotes, with its double quotes escaped, when
/// it holds a YAML indicator character (`:` `#` `{` `}` `[` `]` `,` `&` `*`
/// `!` `|` `>` `'` `"` `%` `@`), when it is empty, and when it starts or ends
/// with a space.
pub proof fn law_indicator_values_are_quoted(value: Seq<char>, i: int)
    requires
        value.len() == 0 || value[0] == ' ' || value.last() == ' ' || (0 <= i < value.len() && {
            let c = value[i];
            ||| c == ':'
            ||| c == '#'
            ||| c == '{'
            ||| c == '}'
            ||| c == '['
            ||| c == ']'
            ||| c == ','
            ||| c == '&'
            ||| c == '*'
            ||| c == '!'
            ||| c == '|'
            ||| c == '>'
            ||| c == '\''
            ||| c == '"'
            ||| c == '%'
            ||| c == '@'
        }),
    ensures
        quoted(value) == seq!['"'] + escape_quotes(value) + seq!['"'],
        quoted(value)[0] == '"',
        quoted(value).last() == '"',
{
    if value.len() > 0 && value[0] != ' ' && value.last() != ' ' {
        assert(crate::model::is_special(value[i]));
    }
}

/// Unquoting removes exactly one pair of matching double or single quotes
/// around a value, and leaves a value that does not start with a quote as it
/// is.
pub proof fn law_unquote_strips_one_pair(value: Seq<char>)
    ensures
        unquoted(seq!['"'] + value + seq!['"']) == value,
        unquoted(seq!['\''] + value + seq!['\'']) == value,
        (value.len() == 0 || (value[0] != '"' && value[0] != '\'')) ==> unquoted(value) == value,
        unquoted(seq!['"'] + value + seq!['\'']) == seq!['"'] + value + seq!['\''],
        unquoted(seq!['\''] + value + seq!['"']) == seq!['\''] + value + seq!['"'],
{
    let d = seq!['"'] + value + seq!['"'];
    assert(d.subrange(1, d.len() - 1) =~= value);
    let q = seq!['\''] + value + seq!['\''];
    assert(q.subrange(1, q.len() - 1) =~= value);
    let m1 = seq!['"'] + value + seq!['\''];
    assert(m1[0] == '"' && m1.last() == '\'');
    let m2 = seq!['\''] + value + seq!['"'];
    assert(m2[0] == '\'' && m2.last() == '"');
}

/// A value without YAML indicator characters, not empty, and neither
/// starting nor ending with a space, is written as it is, without quotes.
pub proof fn law_plain_values_are_written_as_is(value: Seq<char>)
    requires
        value.len() > 0,
        value[0] != ' ',
        value.last() != ' ',
        forall|i: int|
            0 <= i < value.len() ==> {
                let c = #[trigger] value[i];
                &&& c != ':'
                &&& c != '#'
                &&& c != '{'
                &&& c != '}'
                &&& c != '['
                &&& c != ']'
                &&& c != ','
                &&& c != '&'
                &&& c != '*'
                &&& c != '!'
                &&& c != '|'
                &&& c != '>'
                &&& c != '\''
                &&& c != '"'
                &&& c != '%'
                &&& c != '@'
            },
    ensures
        quoted(value) == value,
{
    assert forall|i: int| 0 <= i < value.len() implies !crate::model::is_special(
        #[trigger] value[i],
    ) by {}
}

proof fn lemma_escape_concat(a: Seq<char>, b: Seq<char>)
    ensures
        escape_quotes(a + b) == escape_quotes(a) + escape_quotes(b),
    decreases b.len(),
{
    if b.len() == 0 {
        assert(a + b =~= a);
        assert(escape_quotes(b) =~= Seq::<char>::empty());
        assert(escape_quotes(a) + escape_quotes(b) =~= escape_quotes(a));
    } else {
        lemma_escape_concat(a, b.drop_last());
        assert((a + b).drop_last() =~= a + b.drop_last());
        assert((a + b).last() == b.last());
        if b.last() == '"' {
            assert(escape_quotes(a + b) =~= escape_quotes(a) + escape_quotes(b));
        } else {
            assert(escape_quotes(a + b) =~= escape_quotes(a) + escape_quotes(b));
        }
    }
}

/// Escaping puts a backslash before each double quote and changes nothing
/// else: a text without double quotes stays as it is, and a double quote
/// between two texts becomes `\"` between their escaped forms.
pub proof fn law_escape_quotes(a: Seq<char>, b: Seq<char>)
    ensures
        (forall|i: int| 0 <= i < a.len() ==> a[i] != '"') ==> escape_quotes(a) == a,
        escape_quotes(a + seq!['"'] + b) == escape_quotes(a) + seq!['\\', '"'] + escape_quotes(b),
{
    if forall|i: int| 0 <= i < a.len() ==> a[i] != '"' {
        crate::round_trip::lemma_escape_same(a);
    }
    lemma_escape_concat(a + seq!['"'], b);
    lemma_escape_concat(a, seq!['"']);
    assert(seq!['"'].drop_last() =~= Seq::<char>::empty());
    assert(escape_quotes(Seq::<char>::empty()) =~= Seq::<char>::empty());
    assert(escape_quotes(seq!['"']) =~= seq!['\\', '"']);
}

/// A line ends at a line feed, and a carriage return right before the line
/// feed belongs to the line ending; a final line feed adds no empty line.
pub proof fn law_line_endings(line: Seq<char>, rest: Seq<char>)
    requires
        forall|i: int| 0 <= i < line.len() ==> line[i] != '\n',
        line.len() == 0 || line.last() != '\r',
    ensures
        lines(line + seq!['\n'] + rest) == seq![line] + lines(rest),
        lines(line + seq!['\r', '\n'] + rest) == seq![line] + lines(rest),
        lines(line + seq!['\n']) == seq![line],
{
    lemma_lines_cons(line, rest);
    let cr = line + seq!['\r'];
    assert forall|i: int| 0 <= i < cr.len() implies cr[i] != '\n' by {
        if i < line.len() {
            assert(cr[i] == line[i]);
        }
    }
    lemma_lines_cons(cr, rest);
    assert(cr + seq!['\n'] + rest =~= line + seq!['\r', '\n'] + rest);
    assert(cr.drop_last() =~= line);
    lemma_lines_cons(line, Seq::<char>::empty());
    assert(line + seq!['\n'] + Seq::<char>::empty() =~= line + seq!['\n']);
    assert(lines(Seq::<char>::empty()) =~= Seq::<Seq<char>>::empty());
    assert(seq![line] + Seq::<Seq<char>>::empty() =~= seq![line]);
}

/// A digit string reads as an integer only while its number fits in `i64`
/// (with a minus sign, down to -2^63); text with a character other than a
/// digit after the optional sign, or without digits, is no integer.
pub proof fn law_integer_range_and_form(s: Seq<char>, digits: Seq<char>, i: int)
    requires
        forall|k: int| 0 <= k < digits.len() ==> '0' <= #[trigger] digits[k] && digits[k] <= '9',
    ensures
        digits_value(digits) > 9223372036854775807 ==> parse_i64(digits) is None && parse_i64(
            seq!['+'] + digits,
        ) is None,
        digits_value(digits) > 9223372036854775808 ==> parse_i64(seq!['-'] + digits) is None,
        parse_i64(Seq::<char>::empty()) is None,
        parse_i64(seq!['-']) is None,
        parse_i64(seq!['+']) is None,
        0 <= i < s.len() && !('0' <= s[i] && s[i] <= '9') && !(i == 0 && (s[0] == '-' || s[0]
            == '+')) ==> parse_i64(s) is None,
{
    lemma_digits_value_nonnegative(digits);
    let neg = seq!['-'] + digits;
    let pos = seq!['+'] + digits;
    assert(neg.drop_first() =~= digits);
    assert(pos.drop_first() =~= digits);
    assert(neg[0] == '-');
    assert(pos[0] == '+');
    assert(seq!['-'].drop_first() =~= Seq::<char>::empty());
    assert(seq!['+'].drop_first() =~= Seq::<char>::empty());
    if 0 <= i < s.len() && !('0' <= s[i] && s[i] <= '9') && !(i == 0 && (s[0] == '-' || s[0]
        == '+')) {
        let d = unsigned_part(s);
        if s.len() > 0 && (s[0] == '-' || s[0] == '+') {
            assert(d[i - 1] == s[i]);
        } else {
            assert(d[i] == s[i]);
        }
        assert(!all_digits(d));
    }
}

/// What one array item gives: nothing when it is blank, otherwise the item
/// trimmed and unquoted.
pub open spec fn item_of(piece: Seq<char>) -> Seq<Seq<char>> {
    if trim(piece).len() == 0 {
        Seq::empty()
    } else {
        seq![unquoted(trim(piece))]
    }
}

proof fn lemma_array_items_concat(a: Seq<Seq<char>>, b: Seq<Seq<char>>)
    ensures
        array_items(a + b) == array_items(a) + array_items(b),
    decreases b.len(),
{
    if b.len() == 0 {
        assert(a + b =~= a);
        assert(array_items(a) + array_items(b) =~= array_items(a));
    } else {
        lemma_array_items_concat(a, b.drop_last());
        assert((a + b).drop_last() =~= a + b.drop_last());
        assert((a + b).last() == b.last());
        assert(array_items(a + b) =~= array_items(a) + array_items(b));
    }
}

proof fn lemma_bracketed(inner: Seq<char>)
    ensures
        value_of(seq!['['] + inner + seq![']']) == ValueModel::Array(
            array_items(split_on(inner, ',')),
        ),
{
    let raw = seq!['['] + inner + seq![']'];
    assert(raw[0] == '[');
    assert(raw.last() == ']');
    assert(raw != seq!['t', 'r', 'u', 'e']) by {
        if raw =~= seq!['t', 'r', 'u', 'e'] {
            assert(raw[0] == 't');
        }
    }
    assert(raw != seq!['f', 'a', 'l', 's', 'e']) by {
        if raw =~= seq!['f', 'a', 'l', 's', 'e'] {
            assert(raw[0] == 'f');
        }
    }
    assert(unsigned_part(raw) == raw);
    assert(!all_digits(raw)) by {
        assert(!('0' <= raw[0] && raw[0] <= '9'));
    }
    assert(raw.subrange(1, raw.len() - 1) =~= inner);
}

/// Text in square brackets reads as an array item by item: a text with no
/// comma gives its one item (none when blank), and an item followed by a
/// comma comes before the items of the rest.
pub proof fn law_array_items(first: Seq<char>, rest: Seq<char>)
    requires
        forall|i: int| 0 <= i < first.len() ==> first[i] != ',',
    ensures
        value_of(seq!['['] + first + seq![']']) == ValueModel::Array(item_of(first)),
        value_of(seq!['['] + rest + seq![']']) matches ValueModel::Array(items) ==> value_of(
            seq!['['] + first + seq![','] + rest + seq![']'],
        ) == ValueModel::Array(item_of(first) + items),
{
    lemma_bracketed(first);
    lemma_bracketed(rest);
    lemma_bracketed(first + seq![','] + rest);
    crate::text::lemma_find_char_at(first, ',', first.len() as int);
    let both = first + seq![','] + rest;
    assert forall|k: int| 0 <= k < first.len() implies both[k] != ',' by {
        assert(both[k] == first[k]);
    }
    assert(both[first.len() as int] == ',');
    crate::text::lemma_find_char_at(both, ',', first.len() as int);
    assert(both.take(first.len() as int) =~= first);
    assert(both.skip(first.len() + 1int) =~= rest);
    assert(split_on(both, ',') == seq![first] + split_on(rest, ','));
    lemma_array_items_concat(seq![first], split_on(rest, ','));
    assert(seq![first].drop_last() =~= Seq::<Seq<char>>::empty());
    assert(seq![first].last() == first);
    assert(array_items(Seq::<Seq<char>>::empty()) =~= Seq::<Seq<char>>::empty());
    assert(array_items(seq![first]) =~= item_of(first));
    assert(seq!['['] + first + seq![','] + rest + seq![']'] =~= seq!['['] + both + seq![']']);
}

/// The characters of Unicode `White_Space`, the set `char::is_whitespace`
/// tests, written out.
pub open spec fn listed_whitespace(c: char) -> bool {
    ||| c == '\u{9}'
    ||| c == '\u{A}'
    ||| c == '\u{B}'
    ||| c == '\u{C}'
    ||| c == '\u{D}'
    ||| c == '\u{20}'
    ||| c == '\u{85}'
    ||| c == '\u{A0}'
    ||| c == '\u{1680}'
    ||| c == '\u{2000}'
    ||| c == '\u{2001}'
    ||| c == '\u{2002}'
    ||| c == '\u{2003}'
    ||| c == '\u{2004}'
    ||| c == '\u{2005}'
    ||| c == '\u{2006}'
    ||| c == '\u{2007}'
    ||| c == '\u{2008}'
    ||| c == '\u{2009}'
    ||| c == '\u{200A}'
    ||| c == '\u{2028}'
    ||| c == '\u{2029}'
    ||| c == '\u{202F}'
    ||| c == '\u{205F}'
    ||| c == '\u{3000}'
}

proof fn lemma_trim_start_append(s: Seq<char>, t: Seq<char>)
    ensures
        trim_start(s).len() > 0 ==> trim_start(s + t) == trim_start(s) + t,
        trim_start(s).len() == 0 ==> trim_start(s + t) == trim_start(t),
    decreases s.len(),
{
    if s.len() == 0 {
        assert(s + t =~= t);
    } else {
        assert((s + t)[0] == s[0]);
        if is_whitespace(s[0]) {
            lemma_trim_start_append(s.drop_first(), t);
            assert((s + t).drop_first() =~= s.drop_first() + t);
        }
    }
}

/// Trimming removes whitespace, and only whitespace, at both ends: a
/// whitespace character before or after a text does not change its trimmed
/// form, and a text that starts and ends with other characters is its own
/// trimmed form.
pub proof fn law_trim(c: char, s: Seq<char>)
    ensures
        listed_whitespace(c) ==> trim(seq![c] + s) == trim(s) && trim(s + seq![c]) == trim(s),
        s.len() > 0 && !listed_whitespace(s[0]) && !listed_whitespace(s.last()) ==> trim(s)
            == s,
{
    if listed_whitespace(c) {
        assert((seq![c] + s).drop_first() =~= s);
        assert((seq![c] + s)[0] == c);
        lemma_trim_start_append(s, seq![c]);
        if trim_start(s).len() > 0 {
            let x = trim_start(s) + seq![c];
            assert(x.drop_last() =~= trim_start(s));
        } else {
            assert(seq![c].drop_first() =~= Seq::<char>::empty());
            assert(trim_start(seq![c]) =~= trim_start(Seq::<char>::empty()));
            assert(trim_start(Seq::<char>::empty()) =~= Seq::<char>::empty());
        }
    }
    if s.len() > 0 && !listed_whitespace(s[0]) && !listed_whitespace(s.last()) {
        lemma_trim_same(s);
    }
}

/// A fence line is `---` with any whitespace around it, and nothing else.
pub proof fn law_fence_lines(before: Seq<char>, after: Seq<char>, line: Seq<char>)
    requires
        forall|i: int| 0 <= i < before.len() ==> listed_whitespace(#[trigger] before[i]),
        forall|i: int| 0 <= i < after.len() ==> listed_whitespace(#[trigger] after[i]),
    ensures
        is_fence(before + seq!['-', '-', '-'] + after),
        line.len() > 0 && !listed_whitespace(line[0]) && !listed_whitespace(line.last()) ==> (
        is_fence(line) <==> line == seq!['-', '-', '-']),
    decreases before.len() + after.len(),
{
    let f = seq!['-', '-', '-'];
    if before.len() > 0 {
        law_fence_lines(before.drop_first(), after, line);
        law_trim(before[0], before.drop_first() + f + after);
        assert(seq![before[0]] + (before.drop_first() + f + after) =~= before + f + after);
    } else if after.len() > 0 {
        law_fence_lines(before, after.drop_last(), line);
        law_trim(after.last(), before + f + after.drop_last());
        assert(before + f + after.drop_last() + seq![after.last()] =~= before + f + after);
    } else {
        assert(before + f + after =~= f);
        lemma_trim_same(f);
    }
    if line.len() > 0 && !listed_whitespace(line[0]) && !listed_whitespace(line.last()) {
        lemma_trim_same(line);
    }
}

/// A block that no later fence line closes is no front matter: parsing gives
/// none and the whole text as the body. After a closed block, the body is the
/// lines that follow the closing fence, joined with line feeds.
pub proof fn law_block_closing(ls: Seq<Seq<char>>, body: Seq<char>)
    requires
        forall|i: int| 0 <= i < ls.len() ==> block_line(#[trigger] ls[i]),
    ensures
        parsed(seq!['-', '-', '-', '\n'] + block_lines(ls)) == (
            None::<Seq<(Seq<char>, Seq<char>)>>,
            seq!['-', '-', '-', '\n'] + block_lines(ls),
        ),
        parsed(block_text(ls) + seq!['\n'] + body) == (
            Some(fields_of_lines(ls)),
            join(lines(body), seq!['\n']),
        ),
{
    let f = seq!['-', '-', '-'];
    lemma_fence_is_fence();
    assert(strip_cr(f) == f);
    let n = ls.len() as int;
    // unclosed
    let open = seq!['-', '-', '-', '\n'] + block_lines(ls);
    assert(open =~= f + seq!['\n'] + (block_lines(ls) + Seq::<char>::empty()));
    lemma_lines_cons(f, block_lines(ls) + Seq::<char>::empty());
    lemma_lines_of_block(ls, Seq::<char>::empty());
    assert(lines(Seq::<char>::empty()) =~= Seq::<Seq<char>>::empty());
    let l1 = lines(open);
    assert(l1 =~= seq![f] + ls);
    assert forall|k: int| 1 <= k < l1.len() implies !is_fence(#[trigger] l1[k]) by {
        assert(l1[k] == ls[k - 1]);
        assert(block_line(ls[k - 1]));
    }
    lemma_fence_from_at(l1, 1, l1.len() as int);
    // closed, with a body
    let text = block_text(ls) + seq!['\n'] + body;
    assert(text =~= f + seq!['\n'] + (block_lines(ls) + (f + seq!['\n'] + body)));
    lemma_lines_cons(f, block_lines(ls) + (f + seq!['\n'] + body));
    lemma_lines_of_block(ls, f + seq!['\n'] + body);
    lemma_lines_cons(f, body);
    let l2 = lines(text);
    assert(l2 =~= seq![f] + ls + seq![f] + lines(body));
    assert forall|k: int| 1 <= k < n + 1 implies !is_fence(#[trigger] l2[k]) by {
        assert(l2[k] == ls[k - 1]);
        assert(block_line(ls[k - 1]));
    }
    assert(l2[n + 1] == f);
    lemma_fence_from_at(l2, 1, n + 1);
    assert(l2.subrange(1, n + 1) =~= ls);
    assert(l2.skip(n + 2) =~= lines(body));
}

} // verus!
