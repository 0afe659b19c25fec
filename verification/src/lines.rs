//! Taking text apart: lines, words, and what stands around them.

use vstd::prelude::*;

use crate::text::characters;

verus! {

/// Whether a character is white space.
pub open spec fn is_space(c: char) -> bool {
    ||| ('\u{9}' <= c && c <= '\u{d}')
    ||| c == ' '
    ||| c == '\u{85}'
    ||| c == '\u{a0}'
    ||| c == '\u{1680}'
    ||| ('\u{2000}' <= c && c <= '\u{200a}')
    ||| c == '\u{2028}'
    ||| c == '\u{2029}'
    ||| c == '\u{202f}'
    ||| c == '\u{205f}'
    ||| c == '\u{3000}'
}

/// Whether a character is white space.
pub fn is_white_space(c: char) -> (r: bool)
    ensures
        r == is_space(c),
{
    ('\u{9}' <= c && c <= '\u{d}') || c == ' ' || c == '\u{85}' || c == '\u{a0}' || c == '\u{1680}'
        || ('\u{2000}' <= c && c <= '\u{200a}') || c == '\u{2028}' || c == '\u{2029}' || c
        == '\u{202f}' || c == '\u{205f}' || c == '\u{3000}'
}

/// Text without the white space it starts with.
pub open spec fn trim_front(s: Seq<char>) -> Seq<char>
    decreases s.len(),
{
    if s.len() > 0 && is_space(s[0]) {
        trim_front(s.skip(1))
    } else {
        s
    }
}

/// Text without the white space it ends with.
pub open spec fn trim_back(s: Seq<char>) -> Seq<char>
    decreases s.len(),
{
    if s.len() > 0 && is_space(s.last()) {
        trim_back(s.drop_last())
    } else {
        s
    }
}

/// Text without the white space around it.
pub open spec fn trimmed(s: Seq<char>) -> Seq<char> {
    trim_back(trim_front(s))
}

/// Text without the white space around it.
pub fn trim(s: &[char]) -> (r: &[char])
    ensures
        r@ == trimmed(s@),
{
    let mut start: usize = 0;
    proof {
        assert(s@.skip(0) =~= s@);
    }
    while start < s.len() && is_white_space(s[start])
        invariant
            start <= s@.len(),
            trim_front(s@) == trim_front(s@.skip(start as int)),
        decreases s@.len() - start,
    {
        proof {
            assert(s@.skip(start as int).skip(1) =~= s@.skip(start + 1));
        }
        start += 1;
    }
    let ghost front = s@.skip(start as int);
    proof {
        assert(trim_front(front) == front);
        assert(s@.subrange(start as int, s@.len() as int) =~= front);
    }
    let mut end: usize = s.len();
    while end > start && is_white_space(s[end - 1])
        invariant
            start <= end <= s@.len(),
            front == s@.skip(start as int),
            trim_back(front) == trim_back(s@.subrange(start as int, end as int)),
        decreases end,
    {
        proof {
            assert(s@.subrange(start as int, end as int).drop_last() =~= s@.subrange(
                start as int,
                end - 1,
            ));
        }
        end -= 1;
    }
    vstd::slice::slice_subrange(s, start, end)
}

/// Whether text starts with some other.
pub open spec fn begins(s: Seq<char>, prefix: Seq<char>) -> bool {
    s.len() >= prefix.len() && s.take(prefix.len() as int) == prefix
}

/// Whether text starts with some other.
pub fn starts_with(s: &[char], prefix: &[char]) -> (r: bool)
    ensures
        r == begins(s@, prefix@),
{
    if s.len() < prefix.len() {
        return false;
    }
    let mut i: usize = 0;
    while i < prefix.len()
        invariant
            i <= prefix@.len() <= s@.len(),
            forall|j: int| 0 <= j < i ==> s@[j] == prefix@[j],
        decreases prefix@.len() - i,
    {
        if s[i] != prefix[i] {
            proof {
                assert(s@.take(prefix@.len() as int)[i as int] == s@[i as int]);
            }
            return false;
        }
        i += 1;
    }
    proof {
        assert(s@.take(prefix@.len() as int) =~= prefix@);
    }
    true
}

/// Where a character first stands.
pub open spec fn first_at(s: Seq<char>, c: char) -> int
    decreases s.len(),
{
    if s.len() == 0 || s[0] == c {
        0
    } else {
        1 + first_at(s.skip(1), c)
    }
}

proof fn lemma_first_at(s: Seq<char>, c: char)
    ensures
        0 <= first_at(s, c) <= s.len(),
        first_at(s, c) < s.len() ==> s[first_at(s, c)] == c,
        forall|i: int| 0 <= i < first_at(s, c) ==> s[i] != c,
    decreases s.len(),
{
    if s.len() > 0 && s[0] != c {
        lemma_first_at(s.skip(1), c);
        assert forall|i: int| 0 <= i < first_at(s, c) implies s[i] != c by {
            if i > 0 {
                assert(s.skip(1)[i - 1] == s[i]);
            }
        }
    }
}

/// A line without the carriage return that its end may hold.
pub open spec fn without_return(s: Seq<char>) -> Seq<char> {
    if s.len() > 0 && s.last() == '\r' {
        s.drop_last()
    } else {
        s
    }
}

/// The lines of a text, without what ends them. What ends a line is a line feed,
/// with a carriage return before it or without; the last line need not be ended.
pub open spec fn lines_of(s: Seq<char>) -> Seq<Seq<char>>
    decreases s.len(),
{
    if s.len() == 0 {
        Seq::empty()
    } else {
        let at = first_at(s, '\n');
        if 0 <= at < s.len() {
            seq![without_return(s.take(at))] + lines_of(s.skip(at + 1))
        } else {
            seq![s]
        }
    }
}

/// What some lines hold.
pub open spec fn char_views(lines: Seq<Vec<char>>) -> Seq<Seq<char>> {
    lines.map_values(|l: Vec<char>| l@)
}

/// The lines of a text.
pub fn split_lines(text: &str) -> (r: Vec<Vec<char>>)
    ensures
        char_views(r@) == lines_of(text@),
{
    let chars = characters(text);
    let mut lines: Vec<Vec<char>> = Vec::new();
    let mut start: usize = 0;
    let ghost all = text@;
    proof {
        assert(all.skip(0) =~= all);
        assert(char_views(lines@) + lines_of(all) =~= lines_of(all));
    }
    while start < chars.len()
        invariant
            start <= chars@.len(),
            chars@ == all,
            char_views(lines@) + lines_of(all.skip(start as int)) == lines_of(all),
        decreases chars@.len() - start,
    {
        let ghost rest = all.skip(start as int);
        let mut end: usize = start;
        proof {
            lemma_first_at(rest, '\n');
        }
        while end < chars.len() && chars[end] != '\n'
            invariant
                start <= end <= chars@.len(),
                chars@ == all,
                forall|j: int| start <= j < end ==> chars@[j] != '\n',
            decreases chars@.len() - end,
        {
            end += 1;
        }
        let ghost at = first_at(rest, '\n');
        proof {
            if at < end - start {
                assert(rest[at] == chars@[start + at]);
            }
            if end < chars@.len() && at > end - start {
                assert(rest[end - start] == chars@[end as int]);
            }
            if end == chars@.len() && at < rest.len() {
                assert(rest[at] == chars@[start + at]);
            }
            assert(at == end - start);
        }
        let ended = end < chars.len();
        let stop: usize = if ended && end > start && chars[end - 1] == '\r' {
            end - 1
        } else {
            end
        };
        let line = vstd::slice::slice_to_vec(
            vstd::slice::slice_subrange(chars.as_slice(), start, stop),
        );
        let ghost one = line@;
        let ghost before = lines@;
        lines.push(line);
        proof {
            assert(char_views(lines@) =~= char_views(before).push(one));
            if ended {
                let whole = rest.take(at);
                if at > 0 {
                    assert(whole.last() == chars@[end - 1]);
                }
                assert(one =~= without_return(whole));
                assert(rest.skip(at + 1) =~= all.skip(end + 1));
                assert(char_views(before) + (seq![one] + lines_of(all.skip(end + 1)))
                    =~= char_views(lines@) + lines_of(all.skip(end + 1)));
            } else {
                assert(one =~= rest);
                assert(all.skip(end as int) =~= Seq::empty());
                assert(char_views(before) + seq![rest] =~= char_views(lines@) + Seq::empty());
            }
        }
        start = if ended {
            end + 1
        } else {
            end
        };
    }
    proof {
        assert(all.skip(start as int) =~= Seq::empty());
        assert(char_views(lines@) + Seq::empty() =~= char_views(lines@));
    }
    lines
}

/// The first line that starts with something.
pub open spec fn first_with(lines: Seq<Seq<char>>, prefix: Seq<char>) -> Option<Seq<char>>
    decreases lines.len(),
{
    if lines.len() == 0 {
        None
    } else if begins(lines[0], prefix) {
        Some(lines[0])
    } else {
        first_with(lines.skip(1), prefix)
    }
}

/// The first line of a text that starts with something.
pub fn find_line(text: &str, prefix: &str) -> (r: Option<Vec<char>>)
    ensures
        match r {
            Some(line) => first_with(lines_of(text@), prefix@) == Some(line@),
            None => first_with(lines_of(text@), prefix@) is None,
        },
{
    let lines = split_lines(text);
    let start = characters(prefix);
    let ghost all = char_views(lines@);
    proof {
        assert(all.skip(0) =~= all);
    }
    for line in it: lines
        invariant
            all == char_views(it.seq()),
            all == lines_of(text@),
            start@ == prefix@,
            first_with(all, prefix@) == first_with(all.skip(it.index() as int), prefix@),
    {
        proof {
            let rest = all.skip(it.index() as int);
            assert(rest[0] == line@);
            assert(rest.skip(1) =~= all.skip(it.index() + 1));
        }
        if starts_with(line.as_slice(), start.as_slice()) {
            return Some(line);
        }
    }
    None
}

/// What follows the first colon and space of a line, where it has one.
pub open spec fn after_colon(s: Seq<char>) -> Option<Seq<char>>
    decreases s.len(),
{
    if s.len() < 2 {
        None
    } else if s[0] == ':' && s[1] == ' ' {
        Some(s.skip(2))
    } else {
        after_colon(s.skip(1))
    }
}

/// What follows the first colon and space of a line, where it has one.
pub fn value_after_colon(s: &[char]) -> (r: Option<&[char]>)
    ensures
        match r {
            Some(v) => after_colon(s@) == Some(v@),
            None => after_colon(s@) is None,
        },
{
    let mut i: usize = 0;
    proof {
        assert(s@.skip(0) =~= s@);
    }
    while s.len() >= 2 && i < s.len() - 1
        invariant
            i <= s@.len(),
            after_colon(s@) == after_colon(s@.skip(i as int)),
        decreases s@.len() - i,
    {
        proof {
            assert(s@.skip(i as int).skip(1) =~= s@.skip(i + 1));
            assert(s@.skip(i as int).skip(2) =~= s@.skip(i + 2));
        }
        if s[i] == ':' && s[i + 1] == ' ' {
            let r = vstd::slice::slice_subrange(s, i + 2, s.len());
            proof {
                assert(r@ =~= s@.skip(i + 2));
            }
            return Some(r);
        }
        i += 1;
    }
    None
}

/// Where the first white space of a text stands.
pub open spec fn first_space(s: Seq<char>) -> int
    decreases s.len(),
{
    if s.len() == 0 || is_space(s[0]) {
        0
    } else {
        1 + first_space(s.skip(1))
    }
}

/// The first word of a text, and what follows it.
pub open spec fn first_word(s: Seq<char>) -> Option<(Seq<char>, Seq<char>)> {
    let rest = trim_front(s);
    if rest.len() == 0 {
        None
    } else {
        Some((rest.take(first_space(rest)), rest.skip(first_space(rest))))
    }
}

/// The second word of a text.
pub open spec fn second_word(s: Seq<char>) -> Option<Seq<char>> {
    match first_word(s) {
        None => None,
        Some((_, rest)) => match first_word(rest) {
            None => None,
            Some((word, _)) => Some(word),
        },
    }
}

proof fn lemma_first_space(s: Seq<char>)
    ensures
        0 <= first_space(s) <= s.len(),
    decreases s.len(),
{
    if s.len() > 0 && !is_space(s[0]) {
        lemma_first_space(s.skip(1));
    }
}

/// The first word of a text, and what follows it.
fn take_word(s: &[char]) -> (r: Option<(&[char], &[char])>)
    ensures
        match r {
            Some((word, rest)) => first_word(s@) == Some((word@, rest@)),
            None => first_word(s@) is None,
        },
{
    let mut start: usize = 0;
    proof {
        assert(s@.skip(0) =~= s@);
    }
    while start < s.len() && is_white_space(s[start])
        invariant
            start <= s@.len(),
            trim_front(s@) == trim_front(s@.skip(start as int)),
        decreases s@.len() - start,
    {
        proof {
            assert(s@.skip(start as int).skip(1) =~= s@.skip(start + 1));
        }
        start += 1;
    }
    if start == s.len() {
        return None;
    }
    let ghost rest = s@.skip(start as int);
    let mut end: usize = start;
    proof {
        assert(rest.skip(0) =~= rest);
        assert(trim_front(rest) == rest);
    }
    while end < s.len() && !is_white_space(s[end])
        invariant
            start <= end <= s@.len(),
            rest == s@.skip(start as int),
            first_space(rest) == (end - start) + first_space(rest.skip(end - start)),
        decreases s@.len() - end,
    {
        proof {
            assert(rest.skip(end - start)[0] == s@[end as int]);
            assert(rest.skip(end - start).skip(1) =~= rest.skip(end + 1 - start));
        }
        end += 1;
    }
    proof {
        if end < s@.len() {
            assert(rest.skip(end - start)[0] == s@[end as int]);
        }
        assert(first_space(rest) == end - start);
    }
    let word = vstd::slice::slice_subrange(s, start, end);
    let after = vstd::slice::slice_subrange(s, end, s.len());
    proof {
        assert(word@ =~= rest.take(end - start));
        assert(after@ =~= rest.skip(end - start));
    }
    Some((word, after))
}

/// The second word of a text.
pub fn take_second_word(s: &[char]) -> (r: Option<&[char]>)
    ensures
        match r {
            Some(word) => second_word(s@) == Some(word@),
            None => second_word(s@) is None,
        },
{
    match take_word(s) {
        None => None,
        Some((_, rest)) => match take_word(rest) {
            None => None,
            Some((word, _)) => Some(word),
        },
    }
}

/// Text without the double quotes around it.
pub open spec fn unquote_back(s: Seq<char>) -> Seq<char>
    decreases s.len(),
{
    if s.len() > 0 && s.last() == '"' {
        unquote_back(s.drop_last())
    } else {
        s
    }
}

/// Text without the double quotes it starts with.
pub open spec fn unquote_front(s: Seq<char>) -> Seq<char>
    decreases s.len(),
{
    if s.len() > 0 && s[0] == '"' {
        unquote_front(s.skip(1))
    } else {
        s
    }
}

/// Text without a prefix, however often it stands there.
pub open spec fn without_prefix(s: Seq<char>, prefix: Seq<char>) -> Seq<char>
    decreases s.len(),
{
    if prefix.len() > 0 && begins(s, prefix) {
        without_prefix(s.skip(prefix.len() as int), prefix)
    } else {
        s
    }
}

/// The value of a quoted setting: the text after its name, without the double
/// quotes around it.
pub fn setting(s: &[char], name: &[char]) -> (r: Vec<char>)
    requires
        name@.len() > 0,
    ensures
        r@ == unquote_back(unquote_front(without_prefix(s@, name@))),
{
    let mut start: usize = 0;
    proof {
        assert(s@.skip(0) =~= s@);
    }
    while starts_with(vstd::slice::slice_subrange(s, start, s.len()), name)
        invariant
            start <= s@.len(),
            name@.len() > 0,
            without_prefix(s@, name@) == without_prefix(s@.skip(start as int), name@),
        decreases s@.len() - start,
    {
        proof {
            let here = s@.skip(start as int);
            assert(s@.subrange(start as int, s@.len() as int) =~= here);
            assert(here.skip(name@.len() as int) =~= s@.skip(start + name@.len()));
        }
        start += name.len();
    }
    let ghost value = s@.skip(start as int);
    proof {
        assert(s@.subrange(start as int, s@.len() as int) =~= value);
    }
    let mut front: usize = start;
    while front < s.len() && s[front] == '"'
        invariant
            start <= front <= s@.len(),
            value == s@.skip(start as int),
            unquote_front(value) == unquote_front(s@.skip(front as int)),
        decreases s@.len() - front,
    {
        proof {
            assert(s@.skip(front as int).skip(1) =~= s@.skip(front + 1));
        }
        front += 1;
    }
    let ghost opened = s@.skip(front as int);
    let mut end: usize = s.len();
    proof {
        assert(s@.subrange(front as int, s@.len() as int) =~= opened);
    }
    while end > front && s[end - 1] == '"'
        invariant
            front <= end <= s@.len(),
            opened == s@.skip(front as int),
            unquote_back(opened) == unquote_back(s@.subrange(front as int, end as int)),
        decreases end,
    {
        proof {
            assert(s@.subrange(front as int, end as int).drop_last() =~= s@.subrange(
                front as int,
                end - 1,
            ));
        }
        end -= 1;
    }
    vstd::slice::slice_to_vec(vstd::slice::slice_subrange(s, front, end))
}

// ------------------------------------------------------------------- fields

/// The parts of a text between separators. There is always one.
pub open spec fn fields_of(s: Seq<char>, separator: char) -> Seq<Seq<char>>
    decreases s.len(),
{
    if s.len() == 0 {
        seq![Seq::empty()]
    } else {
        let before = fields_of(s.drop_last(), separator);
        if s.last() == separator {
            before.push(Seq::empty())
        } else {
            before.drop_last().push(before.last().push(s.last()))
        }
    }
}

/// The parts of a text between separators.
pub fn split_fields(s: &[char], separator: char) -> (r: Vec<Vec<char>>)
    ensures
        char_views(r@) == fields_of(s@, separator),
{
    let mut fields: Vec<Vec<char>> = Vec::new();
    let mut field: Vec<char> = Vec::new();
    let mut i: usize = 0;
    proof {
        assert(s@.take(0) =~= Seq::empty());
        assert(char_views(fields@).push(field@) =~= seq![Seq::empty()]);
    }
    while i < s.len()
        invariant
            i <= s@.len(),
            char_views(fields@).push(field@) == fields_of(s@.take(i as int), separator),
        decreases s@.len() - i,
    {
        let c: char = s[i];
        let ghost before = fields@;
        let ghost held = field@;
        proof {
            assert(s@.take(i + 1).drop_last() =~= s@.take(i as int));
        }
        if c == separator {
            fields.push(field);
            field = Vec::new();
            proof {
                assert(char_views(fields@).push(field@) =~= char_views(before).push(held).push(
                    Seq::empty(),
                ));
            }
        } else {
            field.push(c);
            proof {
                assert(char_views(fields@).push(field@) =~= char_views(before).push(
                    held,
                ).drop_last().push(held.push(c)));
            }
        }
        i += 1;
    }
    let ghost before = fields@;
    let ghost held = field@;
    fields.push(field);
    proof {
        assert(s@.take(i as int) =~= s@);
        assert(char_views(fields@) =~= char_views(before).push(held));
    }
    fields
}

// -------------------------------------------------------------------- inside

/// Whether a text holds another somewhere.
pub open spec fn holds(s: Seq<char>, inner: Seq<char>) -> bool {
    exists|at: int| 0 <= at <= s.len() && begins(#[trigger] s.skip(at), inner)
}

/// Whether a text holds another somewhere.
pub fn contains(s: &[char], inner: &[char]) -> (r: bool)
    ensures
        r == holds(s@, inner@),
{
    let mut at: usize = 0;
    let count: usize = s.len();
    loop
        invariant
            at <= count,
            count == s@.len(),
            forall|j: int| 0 <= j < at ==> !begins(#[trigger] s@.skip(j), inner@),
        decreases count - at,
    {
        let rest: &[char] = vstd::slice::slice_subrange(s, at, count);
        proof {
            assert(rest@ =~= s@.skip(at as int));
        }
        if starts_with(rest, inner) {
            return true;
        }
        if at == count {
            return false;
        }
        at += 1;
    }
}

/// A text without one character.
pub open spec fn without(s: Seq<char>, c: char) -> Seq<char>
    decreases s.len(),
{
    if s.len() == 0 {
        s
    } else if s.last() == c {
        without(s.drop_last(), c)
    } else {
        without(s.drop_last(), c).push(s.last())
    }
}

/// A text without one character.
pub fn drop_char(s: &[char], c: char) -> (r: Vec<char>)
    ensures
        r@ == without(s@, c),
{
    let mut r: Vec<char> = Vec::new();
    let mut i: usize = 0;
    proof {
        assert(s@.take(0) =~= Seq::empty());
    }
    while i < s.len()
        invariant
            i <= s@.len(),
            r@ == without(s@.take(i as int), c),
        decreases s@.len() - i,
    {
        proof {
            assert(s@.take(i + 1).drop_last() =~= s@.take(i as int));
        }
        if s[i] != c {
            r.push(s[i]);
        }
        i += 1;
    }
    proof {
        assert(s@.take(i as int) =~= s@);
    }
    r
}

} // verus!
