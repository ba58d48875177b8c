//! Writing a front matter above a body and parsing the text back gives the
//! same fields and body, for fields that the written form can carry.
use vstd::prelude::*;
use crate::model::{
    Field, escape_quotes, field_line, field_lines, field_of_line, fields_of_lines, fence,
    is_fence, is_special, lemma_fence_from_at, needs_quotes, note_text, parsed,
    quoted, unquoted,
};
use crate::text::{
    find_char, is_whitespace, join, lemma_find_char_at, lemma_find_char_some, lemma_trim_end_at,
    lemma_trim_start_at, lines, strip_cr, trim,
};

verus! {

/// A key that a written line gives back: not empty, no whitespace at either
/// end, not starting with `#`, and without colons or line feeds.
pub open spec fn writable_key(key: Seq<char>) -> bool {
    &&& key.len() > 0
    &&& !is_whitespace(key[0])
    &&& !is_whitespace(key.last())
    &&& key[0] != '#'
    &&& forall|i: int| 0 <= i < key.len() ==> #[trigger] key[i] != ':' && key[i] != '\n'
}

/// A value that a written line gives back: without line feeds or double
/// quotes, and, where it is written without quotes, without whitespace at
/// either end.
pub open spec fn writable_value(value: Seq<char>) -> bool {
    &&& forall|i: int| 0 <= i < value.len() ==> #[trigger] value[i] != '\n' && value[i] != '"'
    &&& !needs_quotes(value) ==> !is_whitespace(value[0]) && !is_whitespace(value.last())
}

/// A field that a written line gives back.
pub open spec fn writable_field(field: Field) -> bool {
    writable_key(field.0) && writable_value(field.1)
}

/// The body as the lines after the closing fence hold it: a body that starts
/// with a line feed shares it with the fence line.
pub open spec fn body_after_fence(body: Seq<char>) -> Seq<char> {
    if body.len() > 0 && body[0] == '\n' {
        body.drop_first()
    } else {
        body
    }
}

/// A field's line without its line feed.
pub open spec fn line_content(field: Field) -> Seq<char> {
    field.0 + seq![':', ' '] + quoted(field.1)
}

pub open spec fn contents(fields: Seq<Field>) -> Seq<Seq<char>> {
    fields.map_values(|f: Field| line_content(f))
}

pub proof fn lemma_lines_cons(a: Seq<char>, b: Seq<char>)
    requires
        forall|i: int| 0 <= i < a.len() ==> a[i] != '\n',
    ensures
        lines(a + seq!['\n'] + b) == seq![strip_cr(a)] + lines(b),
{
    let s = a + seq!['\n'] + b;
    assert forall|k: int| 0 <= k < a.len() implies s[k] != '\n' by {
        assert(s[k] == a[k]);
    }
    assert(s[a.len() as int] == '\n');
    lemma_find_char_at(s, '\n', a.len() as int);
    assert(s.take(a.len() as int) =~= a);
    assert(s.skip(a.len() + 1int) =~= b);
}

pub proof fn lemma_lines_single(a: Seq<char>)
    requires
        a.len() > 0,
        forall|i: int| 0 <= i < a.len() ==> a[i] != '\n',
    ensures
        lines(a) == seq![a],
{
    lemma_find_char_at(a, '\n', a.len() as int);
}

pub proof fn lemma_trim_same(s: Seq<char>)
    requires
        s.len() > 0,
        !is_whitespace(s[0]),
        !is_whitespace(s.last()),
    ensures
        trim(s) == s,
{
    lemma_trim_start_at(s, 0);
    assert(s.skip(0) =~= s);
    lemma_trim_end_at(s, s.len() as int);
    assert(s.take(s.len() as int) =~= s);
}

pub proof fn lemma_escape_same(v: Seq<char>)
    requires
        forall|i: int| 0 <= i < v.len() ==> v[i] != '"',
    ensures
        escape_quotes(v) == v,
    decreases v.len(),
{
    if v.len() > 0 {
        lemma_escape_same(v.drop_last());
        assert(v.drop_last().push(v.last()) =~= v);
    }
}

proof fn lemma_quoted_facts(v: Seq<char>)
    requires
        writable_value(v),
    ensures
        quoted(v).len() > 0,
        !is_whitespace(quoted(v)[0]),
        !is_whitespace(quoted(v).last()),
        forall|i: int| 0 <= i < quoted(v).len() ==> quoted(v)[i] != '\n',
        unquoted(quoted(v)) == v,
{
    let q = quoted(v);
    if needs_quotes(v) {
        lemma_escape_same(v);
        assert(q =~= seq!['"'] + v + seq!['"']);
        assert forall|i: int| 0 <= i < q.len() implies q[i] != '\n' by {
            if 0 < i < q.len() - 1 {
                assert(q[i] == v[i - 1]);
            }
        }
        assert(q.subrange(1, q.len() - 1) =~= v);
    } else {
        assert(!is_special(v[0]));
    }
}

/// Unquoting a written value gives it back, unless it holds a double quote
/// (which writing escapes and unquoting does not unescape).
pub proof fn law_unquote_after_quote(value: Seq<char>)
    requires
        forall|i: int| 0 <= i < value.len() ==> value[i] != '"',
    ensures
        unquoted(quoted(value)) == value,
{
    if needs_quotes(value) {
        lemma_escape_same(value);
        let q = quoted(value);
        assert(q =~= seq!['"'] + value + seq!['"']);
        assert(q.subrange(1, q.len() - 1) =~= value);
    } else {
        assert(!is_special(value[0]));
    }
}

proof fn lemma_content_facts(f: Field)
    requires
        writable_field(f),
    ensures
        line_content(f).len() > 0,
        forall|i: int| 0 <= i < line_content(f).len() ==> line_content(f)[i] != '\n',
        line_content(f).last() != '\r',
        strip_cr(line_content(f)) == line_content(f),
        field_of_line(line_content(f)) == Some(f),
        !is_fence(line_content(f)),
{
    let key = f.0;
    let q = quoted(f.1);
    let c = line_content(f);
    lemma_quoted_facts(f.1);
    assert(c.last() == q.last());
    assert forall|i: int| 0 <= i < c.len() implies c[i] != '\n' by {
        if i < key.len() {
            assert(c[i] == key[i]);
        } else if i >= key.len() + 2 {
            assert(c[i] == q[i - key.len() - 2]);
        }
    }
    assert(c[0] == key[0]);
    lemma_trim_same(c);
    lemma_trim_same(key);
    assert forall|k: int| 0 <= k < key.len() implies c[k] != ':' by {
        assert(c[k] == key[k]);
    }
    assert(c[key.len() as int] == ':');
    lemma_find_char_at(c, ':', key.len() as int);
    assert(c.take(key.len() as int) =~= key);
    let after = c.skip(key.len() + 1int);
    assert(after =~= seq![' '] + q);
    lemma_trim_start_at(after, 1);
    assert(after.skip(1) =~= q);
    lemma_trim_end_at(q, q.len() as int);
    assert(q.take(q.len() as int) =~= q);
    assert(trim(after) == q);
    if c =~= fence() {
        assert(c[key.len() as int] == fence()[key.len() as int]);
    }
}

proof fn lemma_field_lines_first(fields: Seq<Field>)
    requires
        fields.len() > 0,
    ensures
        field_lines(fields) == field_line(fields[0]) + field_lines(fields.drop_first()),
    decreases fields.len(),
{
    if fields.len() == 1 {
        assert(fields.drop_last() =~= Seq::<Field>::empty());
        assert(fields.drop_first() =~= Seq::<Field>::empty());
        assert(field_lines(fields) =~= field_line(fields[0]) + field_lines(fields.drop_first()));
    } else {
        let init = fields.drop_last();
        lemma_field_lines_first(init);
        assert(init.drop_first() =~= fields.drop_first().drop_last());
        assert(fields.drop_first().last() == fields.last());
        assert(init[0] == fields[0]);
        assert(field_lines(fields) =~= field_line(fields[0]) + field_lines(fields.drop_first()));
    }
}

proof fn lemma_lines_of_fields(fields: Seq<Field>, rest: Seq<char>)
    requires
        forall|i: int| 0 <= i < fields.len() ==> writable_field(#[trigger] fields[i]),
    ensures
        lines(field_lines(fields) + rest) == contents(fields) + lines(rest),
    decreases fields.len(),
{
    if fields.len() == 0 {
        assert(field_lines(fields) + rest =~= rest);
        assert(contents(fields) + lines(rest) =~= lines(rest));
    } else {
        let tail = fields.drop_first();
        assert forall|i: int| 0 <= i < tail.len() implies writable_field(#[trigger] tail[i]) by {
            assert(tail[i] == fields[i + 1]);
        }
        lemma_lines_of_fields(tail, rest);
        lemma_field_lines_first(fields);
        lemma_content_facts(fields[0]);
        let c = line_content(fields[0]);
        assert(field_lines(fields) + rest =~= c + seq!['\n'] + (field_lines(tail) + rest));
        lemma_lines_cons(c, field_lines(tail) + rest);
        assert(contents(fields) =~= seq![c] + contents(tail));
        assert(lines(field_lines(fields) + rest) =~= contents(fields) + lines(rest));
    }
}

proof fn lemma_fields_of_contents(fields: Seq<Field>)
    requires
        forall|i: int| 0 <= i < fields.len() ==> writable_field(#[trigger] fields[i]),
    ensures
        fields_of_lines(contents(fields)) == fields,
    decreases fields.len(),
{
    if fields.len() > 0 {
        let init = fields.drop_last();
        assert forall|i: int| 0 <= i < init.len() implies writable_field(#[trigger] init[i]) by {
            assert(init[i] == fields[i]);
        }
        lemma_fields_of_contents(init);
        assert(contents(fields).drop_last() =~= contents(init));
        lemma_content_facts(fields.last());
        assert(init.push(fields.last()) =~= fields);
    }
}

proof fn lemma_lines_after_fence(body: Seq<char>)
    ensures
        lines(fence() + (if body.len() > 0 && body[0] != '\n' {
            seq!['\n'] + body
        } else {
            body
        })) == seq![fence()] + lines(body_after_fence(body)),
{
    let rest = if body.len() > 0 && body[0] != '\n' {
        seq!['\n'] + body
    } else {
        body
    };
    if body.len() == 0 {
        assert(fence() + rest =~= fence());
        lemma_lines_single(fence());
        assert(lines(body_after_fence(body)) =~= Seq::<Seq<char>>::empty());
        assert(seq![fence()] + lines(body_after_fence(body)) =~= seq![fence()]);
    } else {
        let b2 = body_after_fence(body);
        if body[0] == '\n' {
            assert(fence() + rest =~= fence() + seq!['\n'] + b2);
        } else {
            assert(fence() + rest =~= fence() + seq!['\n'] + b2);
        }
        lemma_lines_cons(fence(), b2);
        assert(strip_cr(fence()) == fence());
    }
}

/// Parsing the text that a front matter and a body are written to gives back
/// the same fields, in order, and the lines of the body joined with line
/// feeds (a body's leading line feed is the one after the closing fence).
pub proof fn law_parse_note_text(fields: Seq<Field>, body: Seq<char>)
    requires
        fields.len() > 0,
        forall|i: int| 0 <= i < fields.len() ==> writable_field(#[trigger] fields[i]),
    ensures
        parsed(note_text(fields, body)) == (
            Some(fields),
            join(lines(body_after_fence(body)), seq!['\n']),
        ),
{
    let rest = if body.len() > 0 && body[0] != '\n' {
        seq!['\n'] + body
    } else {
        body
    };
    let text = note_text(fields, body);
    assert(text =~= fence() + seq!['\n'] + (field_lines(fields) + (fence() + rest)));
    lemma_lines_cons(fence(), field_lines(fields) + (fence() + rest));
    lemma_lines_of_fields(fields, fence() + rest);
    lemma_lines_after_fence(body);
    let n = fields.len() as int;
    let ls = lines(text);
    assert(strip_cr(fence()) == fence());
    assert(ls =~= seq![fence()] + contents(fields) + seq![fence()] + lines(body_after_fence(body)));
    lemma_trim_same(fence());
    assert(is_fence(ls[0]));
    assert forall|k: int| 1 <= k < n + 1 implies !is_fence(#[trigger] ls[k]) by {
        assert(ls[k] == line_content(fields[k - 1]));
        lemma_content_facts(fields[k - 1]);
    }
    assert(ls[n + 1] == fence());
    lemma_fence_from_at(ls, 1, n + 1);
    assert(ls.subrange(1, n + 1) =~= contents(fields));
    lemma_fields_of_contents(fields);
    assert(ls.skip(n + 2) =~= lines(body_after_fence(body)));
}

proof fn lemma_join_cons(x: Seq<char>, ys: Seq<Seq<char>>, sep: Seq<char>)
    requires
        ys.len() > 0,
    ensures
        join(seq![x] + ys, sep) == x + sep + join(ys, sep),
    decreases ys.len(),
{
    let zs = seq![x] + ys;
    if ys.len() == 1 {
        assert(zs.drop_last() =~= seq![x]);
        assert(zs.last() == ys[0]);
        assert(join(seq![x], sep) == x);
        assert(join(zs, sep) =~= x + sep + join(ys, sep));
    } else {
        lemma_join_cons(x, ys.drop_last(), sep);
        assert(zs.drop_last() =~= seq![x] + ys.drop_last());
        assert(zs.last() == ys.last());
        assert(join(zs, sep) =~= x + sep + join(ys, sep));
    }
}

/// Joining the lines of a text with line feeds gives the text back when it
/// holds no carriage return and does not end with a line feed.
pub proof fn law_join_lines(s: Seq<char>)
    requires
        forall|i: int| 0 <= i < s.len() ==> s[i] != '\r',
        s.len() == 0 || s.last() != '\n',
    ensures
        join(lines(s), seq!['\n']) == s,
    decreases s.len(),
{
    if s.len() > 0 {
        lemma_find_char_some(s, '\n');
        match find_char(s, '\n') {
            None => {},
            Some(i) => {
                let head = s.take(i);
                let rest = s.skip(i + 1);
                assert(i < s.len() - 1);
                assert(strip_cr(head) == head) by {
                    if head.len() > 0 {
                        assert(head.last() == s[i - 1]);
                    }
                }
                assert forall|k: int| 0 <= k < rest.len() implies rest[k] != '\r' by {
                    assert(rest[k] == s[k + i + 1]);
                }
                assert(rest.last() == s.last());
                law_join_lines(rest);
                lemma_find_char_some(rest, '\n');
                assert(lines(rest).len() > 0);
                lemma_join_cons(head, lines(rest), seq!['\n']);
                assert(head + seq!['\n'] + rest =~= s);
            },
        }
    }
}

/// A front matter written above a body that neither starts nor ends with a
/// line feed and holds no carriage return parses back to the same fields and
/// the same body.
pub proof fn law_note_text_round_trip(fields: Seq<Field>, body: Seq<char>)
    requires
        fields.len() > 0,
        forall|i: int| 0 <= i < fields.len() ==> writable_field(#[trigger] fields[i]),
        forall|i: int| 0 <= i < body.len() ==> body[i] != '\r',
        body.len() == 0 || (body[0] != '\n' && body.last() != '\n'),
    ensures
        parsed(note_text(fields, body)) == (Some(fields), body),
{
    law_parse_note_text(fields, body);
    law_join_lines(body);
}

} // verus!
