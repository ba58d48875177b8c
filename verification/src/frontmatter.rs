//! Front matter of a note: a block of `key: value` lines between two `---`
//! fences at the top of the text.
use vstd::prelude::*;
use std::collections::BTreeMap;
use crate::model::{
    Field, ValueModel, array_items, field_lines, field_of_line, fields_of_lines,
    is_fence, key_index, lemma_fence_from_at, lemma_key_index, lemma_key_index_at, lookup,
    merge_missing, needs_quotes, note_text, parse_i64, parsed, quoted, remove_field, rendered,
    set_field, unquoted, value_map, value_of, escape_quotes, is_special, is_digit, digits_value,
    all_digits, unsigned_part,
    fence,
};
use crate::text::{
    chars_of, join, lemma_find_char_at, line_bounds, lines, push_all, push_range,
    range_eq, split_bounds, split_on, string_of_range, trim, trim_range,
};

verus! {

broadcast use vstd::string::group_string_axioms;

/// The characters of each key and value of a sequence of string pairs.
pub open spec fn fields_view(fields: Seq<(String, String)>) -> Seq<Field> {
    fields.map_values(|f: (String, String)| (f.0@, f.1@))
}

/// An ordered list of `key: value` fields.
#[derive(Debug, Clone, PartialEq, Eq)]
pub struct FrontMatter {
    fields: Vec<(String, String)>,
}

impl View for FrontMatter {
    type V = Seq<Field>;

    closed spec fn view(&self) -> Seq<Field> {
        fields_view(self.fields@)
    }
}

/// The typed reading of a front matter value.
#[derive(Debug, Clone, PartialEq, Eq)]
pub enum FrontMatterValue {
    String(String),
    Bool(bool),
    Integer(i64),
    Array(Vec<String>),
}

impl View for FrontMatterValue {
    type V = ValueModel;

    open spec fn view(&self) -> ValueModel {
        match self {
            FrontMatterValue::String(s) => ValueModel::String(s@),
            FrontMatterValue::Bool(b) => ValueModel::Bool(*b),
            FrontMatterValue::Integer(n) => ValueModel::Integer(*n as int),
            FrontMatterValue::Array(items) => ValueModel::Array(
                items@.map_values(|s: String| s@),
            ),
        }
    }
}

impl DeepView for FrontMatterValue {
    type V = ValueModel;

    open spec fn deep_view(&self) -> ValueModel {
        self@
    }
}

/// Whether two character vectors are equal.
fn chars_eq(a: &Vec<char>, b: &Vec<char>) -> (r: bool)
    ensures
        r == (a@ == b@),
{
    let r = range_eq(a, 0, a.len(), b);
    assert(a@.subrange(0, a@.len() as int) =~= a@);
    r
}

/// The index of the first field whose key has the characters `key`.
fn index_of_key(fields: &Vec<(String, String)>, key: &Vec<char>) -> (r: Option<usize>)
    ensures
        match r {
            Some(i) => i < fields@.len() && key_index(fields_view(fields@), key@) == Some(i as int),
            None => key_index(fields_view(fields@), key@) is None,
        },
{
    let ghost fs = fields_view(fields@);
    let mut i: usize = 0;
    while i < fields.len()
        invariant
            i <= fields@.len(),
            fs == fields_view(fields@),
            forall|k: int| 0 <= k < i ==> fs[k].0 != key@,
        decreases fields@.len() - i,
    {
        let field_key = chars_of(fields[i].0.as_str());
        if chars_eq(&field_key, key) {
            proof {
                lemma_key_index_at(fs, key@, i as int);
            }
            return Some(i);
        }
        i = i + 1;
    }
    proof {
        lemma_key_index_at(fs, key@, i as int);
    }
    None
}

impl FrontMatter {
    /// A front matter holding `fields`, in the given order.
    pub fn new(fields: Vec<(String, String)>) -> (fm: FrontMatter)
        ensures
            fm@ == fields_view(fields@),
    {
        FrontMatter { fields }
    }

    /// The fields, in order.
    pub fn fields(&self) -> (r: &[(String, String)])
        ensures
            fields_view(r@) == self@,
    {
        self.fields.as_slice()
    }

    /// The value of the first field whose key is `key`.
    pub fn get(&self, key: &str) -> (r: Option<&str>)
        ensures
            match r {
                Some(v) => lookup(self@, key@) == Some(v@),
                None => lookup(self@, key@) is None,
            },
    {
        let k = chars_of(key);
        match index_of_key(&self.fields, &k) {
            Some(i) => Some(self.fields[i].1.as_str()),
            None => None,
        }
    }

    /// Sets the value of the first field whose key is `key`, keeping its
    /// place; without such a field, appends one.
    pub fn set(&mut self, key: &str, value: &str)
        ensures
            final(self)@ == set_field(old(self)@, key@, value@),
    {
        let k = chars_of(key);
        let value = value.to_string();
        match index_of_key(&self.fields, &k) {
            Some(i) => {
                let current_key = self.fields[i].0.clone();
                self.fields.set(i, (current_key, value));
                proof {
                    lemma_key_index(fields_view(old(self).fields@), key@);
                }
                assert(fields_view(self.fields@) =~= set_field(old(self)@, key@, value@));
            },
            None => {
                self.fields.push((key.to_string(), value));
                assert(fields_view(self.fields@) =~= set_field(old(self)@, key@, value@));
            },
        }
    }

    /// Removes the first field whose key is `key` and gives back its value.
    pub fn remove(&mut self, key: &str) -> (r: Option<String>)
        ensures
            final(self)@ == remove_field(old(self)@, key@),
            match r {
                Some(v) => lookup(old(self)@, key@) == Some(v@),
                None => lookup(old(self)@, key@) is None,
            },
    {
        let k = chars_of(key);
        match index_of_key(&self.fields, &k) {
            Some(i) => {
                proof {
                    lemma_key_index(fields_view(old(self).fields@), key@);
                }
                let (_, value) = self.fields.remove(i);
                assert(fields_view(self.fields@) =~= remove_field(old(self)@, key@));
                Some(value)
            },
            None => None,
        }
    }

    /// Appends, in order, each field of `other` whose key this front matter
    /// does not hold yet.
    pub fn merge_missing_from(&mut self, other: &FrontMatter)
        ensures
            final(self)@ == merge_missing(old(self)@, other@),
    {
        let mut i: usize = 0;
        assert(other@.take(0) =~= Seq::<Field>::empty());
        while i < other.fields.len()
            invariant
                i <= other.fields@.len(),
                other@ == fields_view(other.fields@),
                self@ == merge_missing(old(self)@, other@.take(i as int)),
            decreases other.fields@.len() - i,
        {
            let ghost acc = self@;
            let key = &other.fields[i].0;
            let value = &other.fields[i].1;
            let k = chars_of(key.as_str());
            assert(other@.take(i + 1).drop_last() =~= other@.take(i as int));
            assert(other@.take(i + 1).last() == other@[i as int]);
            if index_of_key(&self.fields, &k).is_none() {
                self.fields.push((key.clone(), value.clone()));
                assert(fields_view(self.fields@) =~= acc.push(other@[i as int]));
            }
            i = i + 1;
        }
        assert(other@.take(other@.len() as int) =~= other@);
    }
}

/// Whether `c` makes a value need quotes.
fn char_is_special(c: char) -> (b: bool)
    ensures
        b == is_special(c),
{
    c == ':' || c == '#' || c == '{' || c == '}' || c == '[' || c == ']' || c == ',' || c == '&'
        || c == '*' || c == '!' || c == '|' || c == '>' || c == '\'' || c == '"' || c == '%' || c
        == '@'
}

/// Whether `chars[from..to]` must be quoted when written out.
fn range_needs_quotes(chars: &Vec<char>, from: usize, to: usize) -> (b: bool)
    requires
        from <= to <= chars@.len(),
    ensures
        b == needs_quotes(chars@.subrange(from as int, to as int)),
{
    let ghost v = chars@.subrange(from as int, to as int);
    if from == to {
        return true;
    }
    assert(v[0] == chars@[from as int]);
    assert(v.last() == chars@[to - 1]);
    if chars[from] == ' ' || chars[to - 1] == ' ' {
        return true;
    }
    let mut k = from;
    while k < to
        invariant
            from <= k <= to <= chars@.len(),
            v == chars@.subrange(from as int, to as int),
            forall|m: int| from <= m < k ==> !is_special(#[trigger] chars@[m]),
        decreases to - k,
    {
        if char_is_special(chars[k]) {
            assert(is_special(v[k - from]));
            return true;
        }
        k = k + 1;
    }
    assert forall|m: int| 0 <= m < v.len() implies !is_special(#[trigger] v[m]) by {
        assert(v[m] == chars@[from + m]);
    }
    false
}

/// Appends `chars[from..to]` to `out` as it is written out in a front matter
/// block.
fn push_quoted(out: &mut String, chars: &Vec<char>, from: usize, to: usize)
    requires
        from <= to <= chars@.len(),
    ensures
        final(out)@ == old(out)@ + quoted(chars@.subrange(from as int, to as int)),
{
    if !range_needs_quotes(chars, from, to) {
        push_range(out, chars, from, to);
        return;
    }
    out.push('"');
    let ghost start = out@;
    let mut k = from;
    assert(chars@.subrange(from as int, from as int) =~= Seq::<char>::empty());
    assert(start =~= start + escape_quotes(Seq::<char>::empty()));
    while k < to
        invariant
            from <= k <= to <= chars@.len(),
            out@ == start + escape_quotes(chars@.subrange(from as int, k as int)),
        decreases to - k,
    {
        let ghost prev = chars@.subrange(from as int, k as int);
        let ghost next = chars@.subrange(from as int, k + 1);
        assert(next.drop_last() =~= prev);
        assert(next.last() == chars@[k as int]);
        if chars[k] == '"' {
            out.push('\\');
            out.push('"');
            assert(out@ =~= start + escape_quotes(next));
        } else {
            out.push(chars[k]);
            assert(out@ =~= start + escape_quotes(next));
        }
        k = k + 1;
    }
    out.push('"');
    assert(out@ =~= old(out)@ + quoted(chars@.subrange(from as int, to as int)));
}

/// `value` as it is written out in a front matter block: in double quotes,
/// with each double quote escaped, when it is empty, starts or ends with a
/// space or holds a character of YAML syntax; as it is otherwise.
pub fn quote_if_needed(value: &str) -> (r: String)
    ensures
        r@ == quoted(value@),
{
    let chars = chars_of(value);
    let mut out = String::new();
    push_quoted(&mut out, &chars, 0, chars.len());
    assert(chars@.subrange(0, chars@.len() as int) =~= chars@);
    assert(out@ =~= quoted(value@));
    out
}

/// Appends the fence line `---`, without a line feed.
fn push_fence(out: &mut String)
    ensures
        final(out)@ == old(out)@ + fence(),
{
    out.push('-');
    out.push('-');
    out.push('-');
    assert(out@ =~= old(out)@ + fence());
}

impl FrontMatter {
    /// The front matter block as text: nothing without fields; otherwise
    /// `---`, one `key: value` line per field, and `---` with no line feed
    /// after it.
    pub fn to_string(&self) -> (r: String)
        ensures
            r@ == rendered(self@),
    {
        let mut out = String::new();
        if self.fields.len() == 0 {
            return out;
        }
        push_fence(&mut out);
        out.push('\n');
        let ghost start = out@;
        let mut i: usize = 0;
        assert(self@.take(0) =~= Seq::<Field>::empty());
        assert(out@ =~= start + field_lines(self@.take(0)));
        while i < self.fields.len()
            invariant
                i <= self.fields@.len(),
                self@ == fields_view(self.fields@),
                out@ == start + field_lines(self@.take(i as int)),
            decreases self.fields@.len() - i,
        {
            let key = chars_of(self.fields[i].0.as_str());
            let value = chars_of(self.fields[i].1.as_str());
            push_all(&mut out, &key);
            out.push(':');
            out.push(' ');
            push_quoted(&mut out, &value, 0, value.len());
            out.push('\n');
            proof {
                assert(value@.subrange(0, value@.len() as int) =~= value@);
                assert(self@.take(i + 1).drop_last() =~= self@.take(i as int));
                assert(self@.take(i + 1).last() == self@[i as int]);
                assert(out@ =~= start + field_lines(self@.take(i + 1)));
            }
            i = i + 1;
        }
        push_fence(&mut out);
        assert(self@.take(self@.len() as int) =~= self@);
        assert(out@ =~= rendered(self@));
        out
    }

    /// The text of a note with this front matter above `body`: the block, a
    /// line feed unless `body` is empty or starts with one, then `body`.
    /// Without fields, the text is `body`.
    pub fn to_note_text(&self, body: &str) -> (r: String)
        ensures
            r@ == note_text(self@, body@),
    {
        if self.fields.len() == 0 {
            return body.to_string();
        }
        let mut out = self.to_string();
        let body_chars = chars_of(body);
        if !(body_chars.len() > 0 && body_chars[0] == '\n') && body_chars.len() != 0 {
            out.push('\n');
        }
        push_all(&mut out, &body_chars);
        out
    }
}

/// The bounds of `chars[from..to]` without one pair of matching surrounding
/// quotes.
fn unquote_range(chars: &Vec<char>, from: usize, to: usize) -> (r: (usize, usize))
    requires
        from <= to <= chars@.len(),
    ensures
        from <= r.0 <= r.1 <= to,
        chars@.subrange(r.0 as int, r.1 as int) == unquoted(chars@.subrange(from as int, to as int)),
{
    let ghost v = chars@.subrange(from as int, to as int);
    if to - from >= 2 {
        assert(v[0] == chars@[from as int]);
        assert(v.last() == chars@[to - 1]);
        let first = chars[from];
        let last = chars[to - 1];
        if (first == '"' && last == '"') || (first == '\'' && last == '\'') {
            assert(v.subrange(1, v.len() - 1) =~= chars@.subrange(from + 1, to - 1));
            return (from + 1, to - 1);
        }
    }
    (from, to)
}

/// `value` without one pair of matching surrounding quotes, double or
/// single; as it is otherwise.
pub fn unquote(value: &str) -> (r: String)
    ensures
        r@ == unquoted(value@),
{
    let chars = chars_of(value);
    let (a, b) = unquote_range(&chars, 0, chars.len());
    assert(chars@.subrange(0, chars@.len() as int) =~= chars@);
    string_of_range(&chars, a, b)
}

/// Whether `chars[from..to]` is a fence line.
fn range_is_fence(chars: &Vec<char>, from: usize, to: usize) -> (b: bool)
    requires
        from <= to <= chars@.len(),
    ensures
        b == is_fence(chars@.subrange(from as int, to as int)),
{
    let (a, b) = trim_range(chars, from, to);
    let dashes = vec!['-', '-', '-'];
    assert(dashes@ =~= fence());
    range_eq(chars, a, b, &dashes)
}

/// The field that the line `chars[from..to]` gives, as `field_of_line` says.
fn field_of_range(chars: &Vec<char>, from: usize, to: usize) -> (r: Option<(String, String)>)
    requires
        from <= to <= chars@.len(),
    ensures
        match r {
            Some(f) => field_of_line(chars@.subrange(from as int, to as int)) == Some((f.0@, f.1@)),
            None => field_of_line(chars@.subrange(from as int, to as int)) is None,
        },
{
    let ghost line = chars@.subrange(from as int, to as int);
    let (ts, te) = trim_range(chars, from, to);
    if ts == te {
        return None;
    }
    assert(trim(line)[0] == chars@[ts as int]);
    if chars[ts] == '#' {
        return None;
    }
    let mut p = from;
    while p < to && chars[p] != ':'
        invariant
            from <= p <= to <= chars@.len(),
            forall|k: int| from <= k < p ==> chars@[k] != ':',
        decreases to - p,
    {
        p = p + 1;
    }
    proof {
        assert forall|k: int| 0 <= k < p - from implies line[k] != ':' by {
            assert(line[k] == chars@[from + k]);
        }
        lemma_find_char_at(line, ':', p - from);
    }
    if p == to {
        return None;
    }
    assert(line[p - from] == chars@[p as int]);
    assert(line.take(p - from) =~= chars@.subrange(from as int, p as int));
    assert(line.skip(p - from + 1) =~= chars@.subrange(p + 1, to as int));
    let (ks, ke) = trim_range(chars, from, p);
    if ks == ke {
        return None;
    }
    let (vs, ve) = trim_range(chars, p + 1, to);
    let (us, ue) = unquote_range(chars, vs, ve);
    Some((string_of_range(chars, ks, ke), string_of_range(chars, us, ue)))
}

/// Splits a note's text into its front matter and its body.
///
/// The text has a front matter when its first line is `---` (around which
/// whitespace is ignored) and a later line is `---` too. The lines between
/// give the fields: blank lines, lines starting with `#`, lines without a
/// colon and lines with an empty key are skipped; a key is what stands before
/// the first colon, a value what stands after, both trimmed and the value
/// unquoted. The body is then the lines after the closing fence joined with
/// line feeds. Without a front matter, the body is the whole text.
pub fn parse_front_matter(text: &str) -> (r: (Option<FrontMatter>, String))
    ensures
        r.1@ == parsed(text@).1,
        match r.0 {
            Some(fm) => parsed(text@).0 == Some(fm@),
            None => parsed(text@).0 is None,
        },
{
    let chars = chars_of(text);
    let bounds = line_bounds(&chars);
    let ghost ls = lines(text@);
    if bounds.len() == 0 {
        return (None, String::new());
    }
    if !range_is_fence(&chars, bounds[0].0, bounds[0].1) {
        return (None, text.to_string());
    }
    let mut j: usize = 1;
    while j < bounds.len() && !range_is_fence(&chars, bounds[j].0, bounds[j].1)
        invariant
            1 <= j <= bounds@.len(),
            bounds@.len() == ls.len(),
            ls == lines(chars@),
            forall|i: int|
                0 <= i < bounds@.len() ==> {
                    &&& (#[trigger] bounds@[i]).0 <= bounds@[i].1 <= chars@.len()
                    &&& chars@.subrange(bounds@[i].0 as int, bounds@[i].1 as int) == ls[i]
                },
            forall|k: int| 1 <= k < j ==> !is_fence(#[trigger] ls[k]),
        decreases bounds@.len() - j,
    {
        j = j + 1;
    }
    proof {
        lemma_fence_from_at(ls, 1, j as int);
    }
    if j == bounds.len() {
        return (None, text.to_string());
    }
    let mut fields: Vec<(String, String)> = Vec::new();
    let mut i: usize = 1;
    assert(ls.subrange(1, 1) =~= Seq::<Seq<char>>::empty());
    while i < j
        invariant
            1 <= i <= j < bounds@.len(),
            bounds@.len() == ls.len(),
            forall|m: int|
                0 <= m < bounds@.len() ==> {
                    &&& (#[trigger] bounds@[m]).0 <= bounds@[m].1 <= chars@.len()
                    &&& chars@.subrange(bounds@[m].0 as int, bounds@[m].1 as int) == ls[m]
                },
            fields_view(fields@) == fields_of_lines(ls.subrange(1, i as int)),
        decreases j - i,
    {
        let ghost acc = fields_view(fields@);
        assert(ls.subrange(1, i + 1).drop_last() =~= ls.subrange(1, i as int));
        assert(ls.subrange(1, i + 1).last() == ls[i as int]);
        match field_of_range(&chars, bounds[i].0, bounds[i].1) {
            Some(f) => {
                fields.push(f);
                assert(fields_view(fields@) =~= acc.push((f.0@, f.1@)));
            },
            None => {},
        }
        i = i + 1;
    }
    let mut body = String::new();
    let mut m: usize = j + 1;
    assert(ls.subrange(j + 1, j + 1) =~= Seq::<Seq<char>>::empty());
    while m < bounds.len()
        invariant
            j < m <= bounds@.len(),
            bounds@.len() == ls.len(),
            forall|n: int|
                0 <= n < bounds@.len() ==> {
                    &&& (#[trigger] bounds@[n]).0 <= bounds@[n].1 <= chars@.len()
                    &&& chars@.subrange(bounds@[n].0 as int, bounds@[n].1 as int) == ls[n]
                },
            body@ == join(ls.subrange(j + 1, m as int), seq!['\n']),
        decreases bounds@.len() - m,
    {
        let ghost prev = ls.subrange(j + 1, m as int);
        let ghost next = ls.subrange(j + 1, m + 1);
        assert(next.drop_last() =~= prev);
        assert(next.last() == ls[m as int]);
        if m > j + 1 {
            body.push('\n');
        }
        push_range(&mut body, &chars, bounds[m].0, bounds[m].1);
        proof {
            if m == j + 1 {
                assert(next.len() == 1);
                assert(body@ =~= join(next, seq!['\n']));
            } else {
                assert(body@ =~= join(next, seq!['\n']));
            }
        }
        m = m + 1;
    }
    assert(ls.subrange(j + 1, ls.len() as int) =~= ls.skip(j + 1));
    (Some(FrontMatter::new(fields)), body)
}

proof fn lemma_digits_value_step(d: Seq<char>, k: int)
    requires
        0 <= k < d.len(),
    ensures
        digits_value(d.take(k + 1)) == digits_value(d.take(k)) * 10 + (d[k] as int - '0' as int),
{
    assert(d.take(k + 1).drop_last() =~= d.take(k));
}

/// What `i64::from_str` gives for `chars[from..to]`.
fn parse_i64_range(chars: &Vec<char>, from: usize, to: usize) -> (r: Option<i64>)
    requires
        from <= to <= chars@.len(),
    ensures
        match r {
            Some(n) => parse_i64(chars@.subrange(from as int, to as int)) == Some(n as int),
            None => parse_i64(chars@.subrange(from as int, to as int)) is None,
        },
{
    let ghost s = chars@.subrange(from as int, to as int);
    let mut negative = false;
    let mut start = from;
    if from < to {
        assert(s[0] == chars@[from as int]);
        if chars[from] == '-' {
            negative = true;
            start = from + 1;
        } else if chars[from] == '+' {
            start = from + 1;
        }
    }
    let ghost d = chars@.subrange(start as int, to as int);
    assert(start > from ==> d =~= s.drop_first());
    assert(start == from ==> d =~= s);
    assert((s.len() > 0 && (s[0] == '-' || s[0] == '+')) == (start > from));
    assert((s.len() > 0 && s[0] == '-') == negative);
    assert(d == unsigned_part(s));
    if start == to {
        return None;
    }
    let limit: u64 = 9223372036854775808;
    let mut magnitude: u64 = 0;
    let mut over = false;
    let mut i = start;
    assert(d.take(0) =~= Seq::<char>::empty());
    while i < to
        invariant
            from <= start <= i <= to <= chars@.len(),
            d == chars@.subrange(start as int, to as int),
            forall|k: int| 0 <= k < i - start ==> is_digit(#[trigger] d[k]),
            !over ==> magnitude == digits_value(d.take(i - start)) && magnitude <= limit,
            over ==> digits_value(d.take(i - start)) > limit,
            limit == 9223372036854775808u64,
            s == chars@.subrange(from as int, to as int),
            (s.len() > 0 && (s[0] == '-' || s[0] == '+')) == (start > from),
            (s.len() > 0 && s[0] == '-') == negative,
            d == unsigned_part(s),
        decreases to - i,
    {
        let c = chars[i];
        assert(d[i - start] == c);
        if !(c >= '0' && c <= '9') {
            assert(!is_digit(d[i - start]));
            assert(!all_digits(d));
            return None;
        }
        let digit = (c as u32 - '0' as u32) as u64;
        proof {
            lemma_digits_value_step(d, i - start);
        }
        if !over {
            if magnitude > 922337203685477580 {
                over = true;
            } else {
                let next = magnitude * 10 + digit;
                if next > limit {
                    over = true;
                } else {
                    magnitude = next;
                }
            }
        }
        i = i + 1;
    }
    assert(d.take(d.len() as int) =~= d);
    if over {
        return None;
    }
    if negative {
        if magnitude == limit {
            Some(i64::MIN)
        } else {
            Some(-(magnitude as i64))
        }
    } else if magnitude > 9223372036854775807 {
        None
    } else {
        Some(magnitude as i64)
    }
}

/// The typed reading of a raw value: `true` and `false` are booleans, what
/// parses as an `i64` is an integer, text in square brackets is an array of
/// its comma-separated items (trimmed, empty ones left out, unquoted), and
/// anything else is a string.
pub fn parse_value(raw: &str) -> (r: FrontMatterValue)
    ensures
        r@ == value_of(raw@),
{
    let chars = chars_of(raw);
    let n = chars.len();
    let word_true = vec!['t', 'r', 'u', 'e'];
    let word_false = vec!['f', 'a', 'l', 's', 'e'];
    assert(chars@.subrange(0, n as int) =~= chars@);
    if range_eq(&chars, 0, n, &word_true) {
        assert(word_true@ =~= seq!['t', 'r', 'u', 'e']);
        return FrontMatterValue::Bool(true);
    }
    assert(word_true@ =~= seq!['t', 'r', 'u', 'e']);
    if range_eq(&chars, 0, n, &word_false) {
        assert(word_false@ =~= seq!['f', 'a', 'l', 's', 'e']);
        return FrontMatterValue::Bool(false);
    }
    assert(word_false@ =~= seq!['f', 'a', 'l', 's', 'e']);
    match parse_i64_range(&chars, 0, n) {
        Some(v) => {
            return FrontMatterValue::Integer(v);
        },
        None => {},
    }
    if n > 0 && chars[0] == '[' && chars[n - 1] == ']' {
        let pieces = split_bounds(&chars, 1, n - 1, ',');
        let ghost ps = split_on(chars@.subrange(1, n - 1), ',');
        let mut items: Vec<String> = Vec::new();
        let mut k: usize = 0;
        assert(ps.take(0) =~= Seq::<Seq<char>>::empty());
        while k < pieces.len()
            invariant
                k <= pieces@.len(),
                1 <= n - 1 <= chars@.len(),
                pieces@.len() == ps.len(),
                forall|i: int|
                    0 <= i < pieces@.len() ==> {
                        &&& 1 <= (#[trigger] pieces@[i]).0 <= pieces@[i].1 <= n - 1
                        &&& chars@.subrange(pieces@[i].0 as int, pieces@[i].1 as int) == ps[i]
                    },
                n == chars@.len(),
                items@.map_values(|s: String| s@) == array_items(ps.take(k as int)),
            decreases pieces@.len() - k,
        {
            let ghost acc = items@.map_values(|s: String| s@);
            assert(ps.take(k + 1).drop_last() =~= ps.take(k as int));
            assert(ps.take(k + 1).last() == ps[k as int]);
            let (a, b) = trim_range(&chars, pieces[k].0, pieces[k].1);
            if a < b {
                let (ua, ub) = unquote_range(&chars, a, b);
                let item = string_of_range(&chars, ua, ub);
                items.push(item);
                assert(items@.map_values(|s: String| s@) =~= acc.push(item@));
            }
            k = k + 1;
        }
        assert(ps.take(ps.len() as int) =~= ps);
        return FrontMatterValue::Array(items);
    }
    FrontMatterValue::String(raw.to_string())
}

/// `BTreeMap::insert`: afterwards `key` maps to `value` and every other key
/// to what it mapped to before. Keys are told apart by their characters,
/// which is how `String`'s ordering compares them.
#[verifier::external_body]
fn map_insert(map: &mut BTreeMap<String, FrontMatterValue>, key: String, value: FrontMatterValue)
    ensures
        final(map).deep_view() == old(map).deep_view().insert(key@, value.deep_view()),
{
    map.insert(key, value);
}

impl FrontMatter {
    /// Each key with the typed reading of its value; where a key occurs more
    /// than once, the last field with it gives the value.
    pub fn to_map(&self) -> (r: BTreeMap<String, FrontMatterValue>)
        ensures
            r.deep_view() == value_map(self@),
    {
        let mut map: BTreeMap<String, FrontMatterValue> = BTreeMap::new();
        proof {
            reveal(vstd::std_specs::btree::btree_map_deep_view_impl);
            assert(map.deep_view() =~= Map::<Seq<char>, ValueModel>::empty());
        }
        let mut i: usize = 0;
        assert(self@.take(0) =~= Seq::<Field>::empty());
        while i < self.fields.len()
            invariant
                i <= self.fields@.len(),
                self@ == fields_view(self.fields@),
                map.deep_view() == value_map(self@.take(i as int)),
            decreases self.fields@.len() - i,
        {
            assert(self@.take(i + 1).drop_last() =~= self@.take(i as int));
            assert(self@.take(i + 1).last() == self@[i as int]);
            let value = parse_value(self.fields[i].1.as_str());
            map_insert(&mut map, self.fields[i].0.clone(), value);
            i = i + 1;
        }
        assert(self@.take(self@.len() as int) =~= self@);
        map
    }
}

} // verus!
