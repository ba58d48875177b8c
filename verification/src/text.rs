//! Character-level text model: whitespace, trimming, line splitting and
//! joining, each given as a spec function on `Seq<char>` together with an
//! executable counterpart proved against it.
use vstd::prelude::*;

verus! {

broadcast use vstd::string::group_string_axioms;

/// `String::push` appends one character at the end of the string.
pub assume_specification[ std::string::String::push ](string: &mut std::string::String, ch: char)
    ensures
        final(string)@ == old(string)@.push(ch),
;

/// Unicode `White_Space`, the set that `char::is_whitespace` tests.
pub open spec fn is_whitespace(c: char) -> bool {
    ||| c == '\t'
    ||| c == '\n'
    ||| c == '\x0B'
    ||| c == '\x0C'
    ||| c == '\r'
    ||| c == ' '
    ||| c == '\u{85}'
    ||| c == '\u{A0}'
    ||| c == '\u{1680}'
    ||| ('\u{2000}' <= c && c <= '\u{200A}')
    ||| c == '\u{2028}'
    ||| c == '\u{2029}'
    ||| c == '\u{202F}'
    ||| c == '\u{205F}'
    ||| c == '\u{3000}'
}

/// `s` with its leading whitespace removed.
pub open spec fn trim_start(s: Seq<char>) -> Seq<char>
    decreases s.len(),
{
    if s.len() > 0 && is_whitespace(s[0]) {
        trim_start(s.drop_first())
    } else {
        s
    }
}

/// `s` with its trailing whitespace removed.
pub open spec fn trim_end(s: Seq<char>) -> Seq<char>
    decreases s.len(),
{
    if s.len() > 0 && is_whitespace(s.last()) {
        trim_end(s.drop_last())
    } else {
        s
    }
}

/// `s` with whitespace removed at both ends, as `str::trim` does.
pub open spec fn trim(s: Seq<char>) -> Seq<char> {
    trim_end(trim_start(s))
}

/// Index of the first occurrence of `c` in `s`.
pub open spec fn find_char(s: Seq<char>, c: char) -> Option<int>
    decreases s.len(),
{
    if s.len() == 0 {
        None
    } else if s[0] == c {
        Some(0)
    } else {
        match find_char(s.drop_first(), c) {
            Some(i) => Some(i + 1),
            None => None,
        }
    }
}

/// A line without its line feed loses one carriage return at its end.
pub open spec fn strip_cr(line: Seq<char>) -> Seq<char> {
    if line.len() > 0 && line.last() == '\r' {
        line.drop_last()
    } else {
        line
    }
}

/// The lines of `s` as `str::lines` yields them: split at each `'\n'`, a
/// `"\r\n"` ending counts as one, and a final line ending adds no empty line.
pub open spec fn lines(s: Seq<char>) -> Seq<Seq<char>>
    decreases s.len(),
{
    if s.len() == 0 {
        Seq::empty()
    } else {
        match find_char(s, '\n') {
            None => seq![s],
            Some(i) => {
                if 0 <= i < s.len() {
                    seq![strip_cr(s.take(i))] + lines(s.skip(i + 1))
                } else {
                    Seq::empty()
                }
            },
        }
    }
}

/// The pieces of `s` between the occurrences of `sep`, as `str::split` with a
/// character yields them; there is always at least one piece.
pub open spec fn split_on(s: Seq<char>, sep: char) -> Seq<Seq<char>>
    decreases s.len(),
{
    match find_char(s, sep) {
        None => seq![s],
        Some(i) => {
            if 0 <= i < s.len() {
                seq![s.take(i)] + split_on(s.skip(i + 1), sep)
            } else {
                seq![s]
            }
        },
    }
}

/// The pieces joined with `sep` between each two, as `[&str]::join` does.
pub open spec fn join(pieces: Seq<Seq<char>>, sep: Seq<char>) -> Seq<char>
    decreases pieces.len(),
{
    if pieces.len() == 0 {
        Seq::empty()
    } else if pieces.len() == 1 {
        pieces[0]
    } else {
        join(pieces.drop_last(), sep) + sep + pieces.last()
    }
}

pub proof fn lemma_find_char_at(s: Seq<char>, c: char, j: int)
    requires
        0 <= j <= s.len(),
        forall|k: int| 0 <= k < j ==> s[k] != c,
    ensures
        j < s.len() && s[j] == c ==> find_char(s, c) == Some(j),
        j == s.len() ==> find_char(s, c) is None,
    decreases j,
{
    if j > 0 {
        lemma_find_char_at(s.drop_first(), c, j - 1);
    }
}

pub proof fn lemma_find_char_some(s: Seq<char>, c: char)
    ensures
        find_char(s, c) matches Some(i) ==> 0 <= i < s.len() && s[i] == c && forall|k: int|
            0 <= k < i ==> s[k] != c,
        find_char(s, c) is None ==> forall|k: int| 0 <= k < s.len() ==> s[k] != c,
    decreases s.len(),
{
    if s.len() > 0 {
        lemma_find_char_some(s.drop_first(), c);
        if s[0] != c {
            assert forall|k: int| 1 <= k < s.len() implies s[k] == s.drop_first()[k - 1] by {}
        }
    }
}

pub proof fn lemma_trim_start_at(s: Seq<char>, j: int)
    requires
        0 <= j <= s.len(),
        forall|k: int| 0 <= k < j ==> is_whitespace(#[trigger] s[k]),
        j == s.len() || !is_whitespace(s[j]),
    ensures
        trim_start(s) == s.skip(j),
    decreases j,
{
    if j > 0 {
        lemma_trim_start_at(s.drop_first(), j - 1);
        assert(s.drop_first().skip(j - 1) =~= s.skip(j));
    } else {
        assert(s.skip(0) =~= s);
    }
}

pub proof fn lemma_trim_end_at(s: Seq<char>, j: int)
    requires
        0 <= j <= s.len(),
        forall|k: int| j <= k < s.len() ==> is_whitespace(#[trigger] s[k]),
        j == 0 || !is_whitespace(s[j - 1]),
    ensures
        trim_end(s) == s.take(j),
    decreases s.len() - j,
{
    if j < s.len() {
        lemma_trim_end_at(s.drop_last(), j);
        assert(s.drop_last().take(j) =~= s.take(j));
    } else {
        assert(s.take(j) =~= s);
    }
}

/// The characters of `s`, in order.
pub(crate) fn chars_of(s: &str) -> (out: Vec<char>)
    ensures
        out@ == s@,
{
    let mut out: Vec<char> = Vec::new();
    for c in it: s.chars()
        invariant
            it.seq() == s@,
            out@ == it.seq().take(it.index() as int),
    {
        out.push(c);
    }
    out
}

/// Appends `chars[from..to]` to `out`.
pub(crate) fn push_range(out: &mut String, chars: &Vec<char>, from: usize, to: usize)
    requires
        from <= to <= chars@.len(),
    ensures
        final(out)@ == old(out)@ + chars@.subrange(from as int, to as int),
{
    let mut i = from;
    while i < to
        invariant
            from <= i <= to <= chars@.len(),
            out@ == old(out)@ + chars@.subrange(from as int, i as int),
        decreases to - i,
    {
        out.push(chars[i]);
        assert(chars@.subrange(from as int, i + 1) =~= chars@.subrange(from as int, i as int).push(
            chars@[i as int],
        ));
        i = i + 1;
    }
}

/// Appends all of `s` to `out`.
pub(crate) fn push_all(out: &mut String, s: &Vec<char>)
    ensures
        final(out)@ == old(out)@ + s@,
{
    push_range(out, s, 0, s.len());
    assert(s@.subrange(0, s@.len() as int) =~= s@);
}

/// A new string holding `chars[from..to]`.
pub(crate) fn string_of_range(chars: &Vec<char>, from: usize, to: usize) -> (out: String)
    requires
        from <= to <= chars@.len(),
    ensures
        out@ == chars@.subrange(from as int, to as int),
{
    let mut out = String::new();
    push_range(&mut out, chars, from, to);
    assert(Seq::<char>::empty() + chars@.subrange(from as int, to as int) =~= chars@.subrange(
        from as int,
        to as int,
    ));
    out
}

/// Whether `c` is whitespace, as `char::is_whitespace` answers.
pub(crate) fn char_is_whitespace(c: char) -> (b: bool)
    ensures
        b == is_whitespace(c),
{
    c == '\t' || c == '\n' || c == '\x0B' || c == '\x0C' || c == '\r' || c == ' ' || c == '\u{85}'
        || c == '\u{A0}' || c == '\u{1680}' || ('\u{2000}' <= c && c <= '\u{200A}') || c
        == '\u{2028}' || c == '\u{2029}' || c == '\u{202F}' || c == '\u{205F}' || c == '\u{3000}'
}

/// The bounds of `chars[from..to]` with whitespace trimmed at both ends.
pub(crate) fn trim_range(chars: &Vec<char>, from: usize, to: usize) -> (r: (usize, usize))
    requires
        from <= to <= chars@.len(),
    ensures
        from <= r.0 <= r.1 <= to,
        chars@.subrange(r.0 as int, r.1 as int) == trim(chars@.subrange(from as int, to as int)),
{
    let ghost s = chars@.subrange(from as int, to as int);
    let mut a = from;
    while a < to && char_is_whitespace(chars[a])
        invariant
            from <= a <= to <= chars@.len(),
            forall|k: int| from <= k < a ==> is_whitespace(#[trigger] chars@[k]),
        decreases to - a,
    {
        a = a + 1;
    }
    proof {
        assert forall|k: int| 0 <= k < a - from implies is_whitespace(#[trigger] s[k]) by {
            assert(s[k] == chars@[from + k]);
        }
        lemma_trim_start_at(s, a - from);
        assert(s.skip(a - from) =~= chars@.subrange(a as int, to as int));
    }
    let ghost t = chars@.subrange(a as int, to as int);
    let mut b = to;
    while b > a && char_is_whitespace(chars[b - 1])
        invariant
            from <= a <= b <= to <= chars@.len(),
            forall|k: int| b <= k < to ==> is_whitespace(#[trigger] chars@[k]),
        decreases b - a,
    {
        b = b - 1;
    }
    proof {
        assert forall|k: int| b - a <= k < t.len() implies is_whitespace(#[trigger] t[k]) by {
            assert(t[k] == chars@[a + k]);
        }
        lemma_trim_end_at(t, b - a);
        assert(t.take(b - a) =~= chars@.subrange(a as int, b as int));
    }
    (a, b)
}

/// Whether `chars[from..to]` equals `word`.
pub(crate) fn range_eq(chars: &Vec<char>, from: usize, to: usize, word: &Vec<char>) -> (b: bool)
    requires
        from <= to <= chars@.len(),
    ensures
        b == (chars@.subrange(from as int, to as int) == word@),
{
    if to - from != word.len() {
        return false;
    }
    let mut i: usize = 0;
    while i < word.len()
        invariant
            from <= to <= chars@.len(),
            to - from == word@.len(),
            i <= word@.len(),
            forall|k: int| 0 <= k < i ==> chars@[from + k] == word@[k],
        decreases word@.len() - i,
    {
        if chars[from + i] != word[i] {
            assert(chars@.subrange(from as int, to as int)[i as int] != word@[i as int]);
            return false;
        }
        i = i + 1;
    }
    assert(chars@.subrange(from as int, to as int) =~= word@);
    true
}

/// The bounds of the lines of `chars`, each line as `lines` gives it.
pub(crate) fn line_bounds(chars: &Vec<char>) -> (out: Vec<(usize, usize)>)
    ensures
        out@.len() == lines(chars@).len(),
        forall|i: int|
            0 <= i < out@.len() ==> {
                &&& (#[trigger] out@[i]).0 <= out@[i].1 <= chars@.len()
                &&& chars@.subrange(out@[i].0 as int, out@[i].1 as int) == lines(chars@)[i]
            },
{
    let mut out: Vec<(usize, usize)> = Vec::new();
    let mut pos: usize = 0;
    let ghost done: Seq<Seq<char>> = Seq::empty();
    assert(chars@.skip(0) =~= chars@);
    assert(lines(chars@) =~= done + lines(chars@.skip(0)));
    while pos < chars.len()
        invariant
            pos <= chars@.len(),
            lines(chars@) == done + lines(chars@.skip(pos as int)),
            out@.len() == done.len(),
            forall|i: int|
                0 <= i < out@.len() ==> {
                    &&& (#[trigger] out@[i]).0 <= out@[i].1 <= chars@.len()
                    &&& chars@.subrange(out@[i].0 as int, out@[i].1 as int) == done[i]
                },
        decreases chars@.len() - pos,
    {
        let ghost rest = chars@.skip(pos as int);
        let mut j = pos;
        while j < chars.len() && chars[j] != '\n'
            invariant
                pos <= j <= chars@.len(),
                forall|k: int| pos <= k < j ==> chars@[k] != '\n',
            decreases chars@.len() - j,
        {
            j = j + 1;
        }
        proof {
            assert forall|k: int| 0 <= k < j - pos implies rest[k] != '\n' by {
                assert(rest[k] == chars@[pos + k]);
            }
            lemma_find_char_at(rest, '\n', j - pos);
        }
        let mut end = j;
        if j < chars.len() {
            assert(rest[j - pos] == chars@[j as int]);
            if end > pos && chars[end - 1] == '\r' {
                end = end - 1;
            }
            proof {
                let line = rest.take(j - pos);
                assert(line =~= chars@.subrange(pos as int, j as int));
                assert(strip_cr(line) =~= chars@.subrange(pos as int, end as int));
                assert(rest.skip(j - pos + 1) =~= chars@.skip(j + 1));
                done = done.push(strip_cr(line));
                assert(lines(rest) == seq![strip_cr(line)] + lines(chars@.skip(j + 1)));
                assert(lines(chars@) =~= done + lines(chars@.skip(j + 1)));
            }
            out.push((pos, end));
            pos = j + 1;
        } else {
            proof {
                assert(rest =~= chars@.subrange(pos as int, j as int));
                assert(lines(rest) == seq![rest]);
                done = done.push(rest);
                assert(chars@.skip(j as int) =~= Seq::<char>::empty());
                assert(lines(chars@.skip(j as int)) =~= Seq::<Seq<char>>::empty());
                assert(lines(chars@) =~= done + lines(chars@.skip(j as int)));
            }
            out.push((pos, end));
            pos = j;
        }
    }
    proof {
        assert(chars@.skip(pos as int) =~= Seq::<char>::empty());
        assert(lines(chars@) =~= done);
    }
    out
}

/// The bounds of the pieces of `chars[from..to]` between occurrences of
/// `sep`, each piece as `split_on` gives it.
pub(crate) fn split_bounds(chars: &Vec<char>, from: usize, to: usize, sep: char) -> (out: Vec<(usize, usize)>)
    requires
        from <= to <= chars@.len(),
    ensures
        out@.len() == split_on(chars@.subrange(from as int, to as int), sep).len(),
        forall|i: int|
            0 <= i < out@.len() ==> {
                &&& from <= (#[trigger] out@[i]).0 <= out@[i].1 <= to
                &&& chars@.subrange(out@[i].0 as int, out@[i].1 as int) == split_on(
                    chars@.subrange(from as int, to as int),
                    sep,
                )[i]
            },
{
    let ghost whole = chars@.subrange(from as int, to as int);
    let mut out: Vec<(usize, usize)> = Vec::new();
    let mut pos: usize = from;
    let ghost done: Seq<Seq<char>> = Seq::empty();
    assert(split_on(whole, sep) =~= done + split_on(chars@.subrange(pos as int, to as int), sep));
    loop
        invariant_except_break
            from <= pos <= to,
            split_on(whole, sep) == done + split_on(chars@.subrange(pos as int, to as int), sep),
        invariant
            from <= to <= chars@.len(),
            whole == chars@.subrange(from as int, to as int),
            out@.len() == done.len(),
            forall|i: int|
                0 <= i < out@.len() ==> {
                    &&& from <= (#[trigger] out@[i]).0 <= out@[i].1 <= to
                    &&& chars@.subrange(out@[i].0 as int, out@[i].1 as int) == done[i]
                },
        ensures
            split_on(whole, sep) == done,
        decreases to - pos,
    {
        let ghost rest = chars@.subrange(pos as int, to as int);
        let mut j = pos;
        while j < to && chars[j] != sep
            invariant
                pos <= j <= to <= chars@.len(),
                forall|k: int| pos <= k < j ==> chars@[k] != sep,
            decreases to - j,
        {
            j = j + 1;
        }
        proof {
            assert forall|k: int| 0 <= k < j - pos implies rest[k] != sep by {
                assert(rest[k] == chars@[pos + k]);
            }
            lemma_find_char_at(rest, sep, j - pos);
        }
        if j < to {
            proof {
                assert(rest[j - pos] == chars@[j as int]);
                let piece = rest.take(j - pos);
                assert(piece =~= chars@.subrange(pos as int, j as int));
                assert(rest.skip(j - pos + 1) =~= chars@.subrange(j + 1, to as int));
                done = done.push(piece);
                assert(split_on(rest, sep) == seq![piece] + split_on(chars@.subrange(j + 1, to as int), sep));
                assert(split_on(whole, sep) =~= done + split_on(chars@.subrange(j + 1, to as int), sep));
            }
            out.push((pos, j));
            pos = j + 1;
        } else {
            proof {
                assert(split_on(rest, sep) == seq![rest]);
                done = done.push(rest);
                assert(split_on(whole, sep) =~= done);
            }
            out.push((pos, to));
            break;
        }
    }
    out
}

} // verus!
