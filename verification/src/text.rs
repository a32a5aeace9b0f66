//! Text as sequences of characters: comparing, splitting, trimming and joining.
use vstd::prelude::*;

verus! {

/// `String::push` of the standard library: the character goes to the end of the string, and
/// nothing else of the string changes.
pub assume_specification[ String::push ](s: &mut String, c: char)
    ensures
        final(s)@ == old(s)@.push(c),
;

/// The contents of a list of strings.
pub open spec fn contents(strings: Seq<String>) -> Seq<Seq<char>> {
    strings.map_values(|s: String| s@)
}

/// Whether a character is white space, as Unicode has it.
pub open spec fn is_space(c: char) -> bool {
    ||| '\u{9}' <= c <= '\u{d}'
    ||| c == ' '
    ||| c == '\u{85}'
    ||| c == '\u{a0}'
    ||| c == '\u{1680}'
    ||| '\u{2000}' <= c <= '\u{200a}'
    ||| c == '\u{2028}'
    ||| c == '\u{2029}'
    ||| c == '\u{202f}'
    ||| c == '\u{205f}'
    ||| c == '\u{3000}'
}

/// The character with ASCII small letters turned into capitals.
pub open spec fn capital(c: char) -> char {
    if 'a' <= c <= 'z' {
        (c as u8 - 32) as char
    } else {
        c
    }
}

/// The text with ASCII small letters turned into capitals.
pub open spec fn capitals(s: Seq<char>) -> Seq<char> {
    s.map_values(|c: char| capital(c))
}

/// The parts of a text between the characters that `ends` picks: always one more than there are
/// such characters, and a part may be empty.
pub open spec fn parts(s: Seq<char>, ends: spec_fn(char) -> bool) -> Seq<Seq<char>>
    decreases s.len(),
{
    if s.len() == 0 {
        seq![Seq::empty()]
    } else {
        let before = parts(s.drop_last(), ends);
        if ends(s.last()) {
            before.push(Seq::empty())
        } else {
            before.drop_last().push(before.last().push(s.last()))
        }
    }
}

/// Picks one character.
pub open spec fn only(separator: char) -> spec_fn(char) -> bool {
    |c: char| c == separator
}

/// The parts of a text between the characters `separator`.
pub open spec fn fields(s: Seq<char>, separator: char) -> Seq<Seq<char>> {
    parts(s, only(separator))
}

/// The words of a text: its parts between white space, but for the empty ones.
pub open spec fn words(s: Seq<char>) -> Seq<Seq<char>> {
    parts(s, |c: char| is_space(c)).filter(|word: Seq<char>| word.len() > 0)
}

/// The text without a carriage return at its end.
pub open spec fn without_return(s: Seq<char>) -> Seq<char> {
    if s.len() > 0 && s.last() == '\r' {
        s.drop_last()
    } else {
        s
    }
}

/// The lines of a text. A line ends with a line feed, perhaps with a carriage return before it;
/// what follows the last line feed is a line if there is anything.
pub open spec fn lines(s: Seq<char>) -> Seq<Seq<char>> {
    let found = fields(s, '\n');
    let ended = found.drop_last().map_values(|line: Seq<char>| without_return(line));
    if found.last().len() > 0 {
        ended.push(found.last())
    } else {
        ended
    }
}

/// The text without white space at its end.
pub open spec fn trimmed_end(s: Seq<char>) -> Seq<char>
    decreases s.len(),
{
    if s.len() > 0 && is_space(s.last()) {
        trimmed_end(s.drop_last())
    } else {
        s
    }
}

/// The text without white space at its start.
pub open spec fn trimmed_start(s: Seq<char>) -> Seq<char>
    decreases s.len(),
{
    if s.len() > 0 && is_space(s.first()) {
        trimmed_start(s.drop_first())
    } else {
        s
    }
}

/// The text without white space at its start and at its end.
pub open spec fn trimmed(s: Seq<char>) -> Seq<char> {
    trimmed_end(trimmed_start(s))
}

/// Whether a character does not occur in a text.
pub open spec fn lacks(s: Seq<char>, c: char) -> bool {
    forall|i: int| 0 <= i < s.len() ==> #[trigger] s[i] != c
}

/// The text with one character put for another.
pub open spec fn replaced(s: Seq<char>, from: char, to: char) -> Seq<char> {
    s.map_values(
        |c: char|
            if c == from {
                to
            } else {
                c
            },
    )
}

/// Texts one after the other with `separator` between them.
pub open spec fn joined(items: Seq<Seq<char>>, separator: Seq<char>) -> Seq<char>
    decreases items.len(),
{
    if items.len() == 0 {
        Seq::empty()
    } else if items.len() == 1 {
        items[0]
    } else {
        joined(items.drop_last(), separator) + separator + items.last()
    }
}

/// Whether a character is white space.
pub fn is_whitespace(c: char) -> (yes: bool)
    ensures
        yes == is_space(c),
{
    ('\u{9}' <= c && c <= '\u{d}') || c == ' ' || c == '\u{85}' || c == '\u{a0}' || c == '\u{1680}'
        || ('\u{2000}' <= c && c <= '\u{200a}') || c == '\u{2028}' || c == '\u{2029}' || c
        == '\u{202f}' || c == '\u{205f}' || c == '\u{3000}'
}

/// The characters of a text.
pub(crate) fn characters(s: &str) -> (chars: Vec<char>)
    ensures
        chars@ == s@,
{
    let mut chars: Vec<char> = Vec::new();
    for c in it: s.chars()
        invariant
            it.seq() == s@,
            chars@ == s@.take(it.index()),
    {
        chars.push(c);
    }
    assert(s@.take(s@.len() as int) =~= s@);
    chars
}

/// Whether two texts are the same.
pub(crate) fn same(a: &str, b: &str) -> (yes: bool)
    ensures
        yes == (a@ == b@),
{
    let left = characters(a);
    let right = characters(b);
    if left.len() != right.len() {
        return false;
    }
    let mut i: usize = 0;
    while i < left.len()
        invariant
            i <= left@.len(),
            left@ == a@,
            right@ == b@,
            left@.len() == right@.len(),
            forall|j: int| 0 <= j < i ==> left@[j] == right@[j],
        decreases left@.len() - i,
    {
        if left[i] != right[i] {
            return false;
        }
        i = i + 1;
    }
    assert(left@ =~= right@);
    true
}

/// The text with ASCII small letters turned into capitals.
pub(crate) fn to_capitals(s: &str) -> (up: String)
    ensures
        up@ == capitals(s@),
{
    let mut up = String::new();
    for c in it: s.chars()
        invariant
            it.seq() == s@,
            up@ == capitals(s@.take(it.index())),
    {
        if 'a' <= c && c <= 'z' {
            up.push((c as u8 - 32) as char);
        } else {
            up.push(c);
        }
        assert(up@ =~= capitals(s@.take(it.index() + 1)));
    }
    assert(s@.take(s@.len() as int) =~= s@);
    up
}

/// Puts one character for another.
pub(crate) fn replace(s: &str, from: char, to: char) -> (out: String)
    ensures
        out@ == replaced(s@, from, to),
{
    let mut out = String::new();
    for c in it: s.chars()
        invariant
            it.seq() == s@,
            out@ == replaced(s@.take(it.index()), from, to),
    {
        if c == from {
            out.push(to);
        } else {
            out.push(c);
        }
        assert(out@ =~= replaced(s@.take(it.index() + 1), from, to));
    }
    assert(s@.take(s@.len() as int) =~= s@);
    out
}

/// A text has at least one part.
pub proof fn lemma_parts_len(s: Seq<char>, ends: spec_fn(char) -> bool)
    ensures
        parts(s, ends).len() > 0,
    decreases s.len(),
{
    if s.len() > 0 {
        lemma_parts_len(s.drop_last(), ends);
    }
}

/// One more character, seen from the parts before it.
proof fn lemma_parts_push(s: Seq<char>, c: char, ends: spec_fn(char) -> bool)
    ensures
        parts(s.push(c), ends) == if ends(c) {
            parts(s, ends).push(Seq::empty())
        } else {
            parts(s, ends).drop_last().push(parts(s, ends).last().push(c))
        },
{
    assert(s.push(c).drop_last() =~= s);
}

/// Splits a text at the characters `separator`.
pub(crate) fn split_fields(s: &str, separator: char) -> (found: Vec<String>)
    ensures
        contents(found@) == fields(s@, separator),
{
    let ghost ends = only(separator);
    let mut found: Vec<String> = Vec::new();
    let mut part = String::new();
    assert(contents(found@).push(part@) =~= parts(Seq::empty(), ends));
    for c in it: s.chars()
        invariant
            it.seq() == s@,
            ends == only(separator),
            contents(found@).push(part@) == parts(s@.take(it.index()), ends),
    {
        let ghost before = s@.take(it.index());
        let ghost held = contents(found@).push(part@);
        proof {
            lemma_parts_push(before, c, ends);
            assert(s@.take(it.index() + 1) =~= before.push(c));
            assert(held.drop_last() =~= contents(found@));
        }
        if c == separator {
            found.push(part);
            part = String::new();
            assert(contents(found@).push(part@) =~= held.push(Seq::empty()));
        } else {
            part.push(c);
        }
    }
    assert(s@.take(s@.len() as int) =~= s@);
    let ghost held = contents(found@).push(part@);
    found.push(part);
    assert(contents(found@) =~= held);
    found
}

/// Splits a text at white space.
pub(crate) fn split_words(s: &str) -> (found: Vec<String>)
    ensures
        contents(found@) == words(s@),
{
    let ghost ends = |c: char| is_space(c);
    let ghost keep = |word: Seq<char>| word.len() > 0;
    let ghost mut done: Seq<Seq<char>> = Seq::empty();
    let mut found: Vec<String> = Vec::new();
    let mut part = String::new();
    proof {
        reveal(Seq::filter);
        assert(done.push(part@) =~= parts(Seq::empty(), ends));
        assert(contents(found@) =~= done.filter(keep));
    }
    for c in it: s.chars()
        invariant
            it.seq() == s@,
            ends == (|c: char| is_space(c)),
            keep == (|word: Seq<char>| word.len() > 0),
            done.push(part@) == parts(s@.take(it.index()), ends),
            contents(found@) == done.filter(keep),
    {
        let ghost before = s@.take(it.index());
        proof {
            lemma_parts_push(before, c, ends);
            assert(s@.take(it.index() + 1) =~= before.push(c));
            assert(done.push(part@).drop_last() =~= done);
        }
        if is_whitespace(c) {
            let ghost next = done.push(part@);
            proof {
                lemma_filter_push(done, part@, keep);
                done = next;
            }
            if !part.as_str().is_empty() {
                let ghost held = contents(found@);
                let ghost word = part@;
                found.push(part);
                assert(contents(found@) =~= held.push(word));
                part = String::new();
            }
            assert(part@ =~= Seq::<char>::empty());
        } else {
            part.push(c);
        }
    }
    assert(s@.take(s@.len() as int) =~= s@);
    proof {
        lemma_filter_push(done, part@, keep);
    }
    if !part.as_str().is_empty() {
        let ghost held = contents(found@);
        let ghost word = part@;
        found.push(part);
        assert(contents(found@) =~= held.push(word));
    }
    found
}

/// Picking from a list with one more item.
pub proof fn lemma_filter_push<A>(s: Seq<A>, item: A, keep: spec_fn(A) -> bool)
    ensures
        s.push(item).filter(keep) == if keep(item) {
            s.filter(keep).push(item)
        } else {
            s.filter(keep)
        },
{
    reveal(Seq::filter);
    assert(s.push(item).drop_last() =~= s);
}

/// The part of a text between two places.
fn slice(chars: &Vec<char>, from: usize, to: usize) -> (s: String)
    requires
        from <= to <= chars@.len(),
    ensures
        s@ == chars@.subrange(from as int, to as int),
{
    let mut s = String::new();
    let mut i = from;
    while i < to
        invariant
            from <= i <= to <= chars@.len(),
            s@ == chars@.subrange(from as int, i as int),
        decreases to - i,
    {
        s.push(chars[i]);
        i = i + 1;
        assert(s@ =~= chars@.subrange(from as int, i as int));
    }
    s
}

/// Splits a text into its lines.
pub(crate) fn split_lines(s: &str) -> (found: Vec<String>)
    ensures
        contents(found@) == lines(s@),
{
    let parts = split_fields(s, '\n');
    let ghost all = fields(s@, '\n');
    proof {
        lemma_parts_len(s@, only('\n'));
        assert(parts@.len() == contents(parts@).len());
    }
    let mut found: Vec<String> = Vec::new();
    let last = parts.len() - 1;
    let mut i: usize = 0;
    while i < last
        invariant
            i <= last,
            last == parts@.len() - 1,
            contents(parts@) == all,
            found@.len() == i,
            forall|j: int|
                0 <= j < i ==> (#[trigger] found@[j])@ == without_return(all[j]),
        decreases last - i,
    {
        let chars = characters(&parts[i]);
        assert(chars@ == all[i as int]);
        let n = chars.len();
        let to = if n > 0 && chars[n - 1] == '\r' {
            n - 1
        } else {
            n
        };
        let line = slice(&chars, 0, to);
        assert(line@ =~= without_return(all[i as int]));
        found.push(line);
        i = i + 1;
    }
    let rest = &parts[last];
    assert(rest@ == all.last());
    assert(contents(found@) =~= all.drop_last().map_values(
        |line: Seq<char>| without_return(line),
    ));
    if !rest.as_str().is_empty() {
        let ghost held = contents(found@);
        found.push(rest.clone());
        assert(contents(found@) =~= held.push(rest@));
    }
    found
}

/// What follows a prefix, `None` where the text does not start with it.
pub(crate) fn strip_prefix(s: &str, prefix: &str) -> (rest: Option<String>)
    ensures
        match rest {
            Some(rest) => prefix@.is_prefix_of(s@) && rest@ == s@.skip(prefix@.len() as int),
            None => !prefix@.is_prefix_of(s@),
        },
{
    let chars = characters(s);
    let start = characters(prefix);
    if start.len() > chars.len() {
        return None;
    }
    let head = slice(&chars, 0, start.len());
    if same(&head, prefix) {
        let rest = slice(&chars, start.len(), chars.len());
        assert(rest@ =~= s@.skip(prefix@.len() as int));
        Some(rest)
    } else {
        None
    }
}

/// The text without white space at its end.
pub(crate) fn trim_end(s: &str) -> (rest: String)
    ensures
        rest@ == trimmed_end(s@),
{
    let chars = characters(s);
    let mut to = chars.len();
    assert(chars@.take(to as int) =~= chars@);
    while to > 0 && is_whitespace(chars[to - 1])
        invariant
            to <= chars@.len(),
            trimmed_end(chars@.take(to as int)) == trimmed_end(chars@),
        decreases to,
    {
        assert(chars@.take(to as int).drop_last() =~= chars@.take(to - 1));
        to = to - 1;
    }
    assert(to > 0 ==> chars@.take(to as int).last() == chars@[to - 1]);
    slice(&chars, 0, to)
}

/// The text without white space at its start and at its end.
pub(crate) fn trim(s: &str) -> (rest: String)
    ensures
        rest@ == trimmed(s@),
{
    let chars = characters(s);
    let mut from: usize = 0;
    assert(chars@.skip(0) =~= chars@);
    while from < chars.len() && is_whitespace(chars[from])
        invariant
            from <= chars@.len(),
            trimmed_start(chars@.skip(from as int)) == trimmed_start(chars@),
        decreases chars@.len() - from,
    {
        assert(chars@.skip(from as int).drop_first() =~= chars@.skip(from + 1));
        from = from + 1;
    }
    let rest = slice(&chars, from, chars.len());
    assert(rest@ =~= chars@.skip(from as int));
    trim_end(&rest)
}

/// Joining one item more.
pub proof fn lemma_joined_next(items: Seq<Seq<char>>, n: int, separator: Seq<char>)
    requires
        0 <= n < items.len(),
    ensures
        joined(items.take(n + 1), separator) == if n == 0 {
            items[0]
        } else {
            joined(items.take(n), separator) + separator + items[n]
        },
{
    assert(items.take(n + 1).drop_last() =~= items.take(n));
}

/// A character that occurs neither in the items nor in the separator does not occur in what is
/// joined.
pub proof fn lemma_joined_lacks(items: Seq<Seq<char>>, separator: Seq<char>, c: char)
    requires
        lacks(separator, c),
        forall|i: int| 0 <= i < items.len() ==> lacks(#[trigger] items[i], c),
    ensures
        lacks(joined(items, separator), c),
    decreases items.len(),
{
    if items.len() > 1 {
        let front = items.drop_last();
        assert forall|i: int| 0 <= i < front.len() implies lacks(#[trigger] front[i], c) by {
            assert(front[i] == items[i]);
        }
        lemma_joined_lacks(front, separator, c);
        assert(lacks(items[items.len() - 1], c));
    } else if items.len() == 1 {
        assert(lacks(items[0], c));
    }
}

/// No part holds a character at which the text is split.
proof fn lemma_parts_lack(s: Seq<char>, ends: spec_fn(char) -> bool, c: char)
    requires
        ends(c),
    ensures
        forall|i: int| 0 <= i < parts(s, ends).len() ==> lacks(#[trigger] parts(s, ends)[i], c),
    decreases s.len(),
{
    if s.len() > 0 {
        lemma_parts_lack(s.drop_last(), ends, c);
        lemma_parts_len(s.drop_last(), ends);
        let before = parts(s.drop_last(), ends);
        assert(lacks(before[before.len() - 1], c));
        assert(lacks(before.last().push(s.last()), c) || ends(s.last()));
    }
}

/// No word holds white space.
pub proof fn lemma_words_lack(s: Seq<char>, c: char)
    requires
        is_space(c),
    ensures
        forall|i: int| 0 <= i < words(s).len() ==> lacks(#[trigger] words(s)[i], c),
{
    let ends = |c: char| is_space(c);
    let all = parts(s, ends);
    lemma_parts_lack(s, ends, c);
    let keep = |word: Seq<char>| word.len() > 0;
    assert forall|i: int| 0 <= i < words(s).len() implies lacks(#[trigger] words(s)[i], c) by {
        assert(all.filter(keep).contains(words(s)[i]));
        all.lemma_filter_contains_rev(keep, words(s)[i]);
        assert(all.contains(words(s)[i]));
    }
}

/// A text without a place to split it goes to the last part.
proof fn lemma_parts_longer(s: Seq<char>, more: Seq<char>, ends: spec_fn(char) -> bool)
    requires
        forall|i: int| 0 <= i < more.len() ==> !ends(#[trigger] more[i]),
    ensures
        ({
            let found = parts(s, ends);
            parts(s + more, ends) == found.drop_last().push(found.last() + more)
        }),
    decreases more.len(),
{
    lemma_parts_len(s, ends);
    let found = parts(s, ends);
    if more.len() == 0 {
        assert(s + more =~= s);
        assert(found.last() + more =~= found.last());
        assert(found =~= found.drop_last().push(found.last() + more));
    } else {
        let front = more.drop_last();
        lemma_parts_longer(s, front, ends);
        assert((s + more).drop_last() =~= s + front);
        assert(!ends(more[more.len() - 1]));
        assert((found.last() + front).push(more.last()) =~= found.last() + more);
        assert(found.drop_last().push(found.last() + front).drop_last() =~= found.drop_last());
    }
}

/// A text without a place to split it is its only part.
proof fn lemma_parts_only(s: Seq<char>, ends: spec_fn(char) -> bool)
    requires
        forall|i: int| 0 <= i < s.len() ==> !ends(#[trigger] s[i]),
    ensures
        parts(s, ends) == seq![s],
{
    lemma_parts_longer(Seq::empty(), s, ends);
    assert(Seq::empty() + s =~= s);
    assert(parts(Seq::empty(), ends) =~= seq![Seq::empty()]);
    assert(parts(s, ends) =~= seq![s]);
}

/// What stands before the first place to split a text is the first part.
proof fn lemma_parts_first(
    first: Seq<char>,
    end: char,
    rest: Seq<char>,
    ends: spec_fn(char) -> bool,
)
    requires
        forall|i: int| 0 <= i < first.len() ==> !ends(#[trigger] first[i]),
        ends(end),
    ensures
        parts(first + seq![end] + rest, ends) == seq![first] + parts(rest, ends),
    decreases rest.len(),
{
    let s = first + seq![end] + rest;
    lemma_parts_len(rest, ends);
    if rest.len() == 0 {
        lemma_parts_only(first, ends);
        assert(s.drop_last() =~= first);
        assert(parts(s, ends) =~= seq![first] + parts(rest, ends));
    } else {
        let front = rest.drop_last();
        lemma_parts_first(first, end, front, ends);
        lemma_parts_len(front, ends);
        assert(s.drop_last() =~= first + seq![end] + front);
        let before = parts(front, ends);
        assert((seq![first] + before).last() == before.last());
        assert((seq![first] + before).drop_last() =~= seq![first] + before.drop_last());
        assert(parts(s, ends) =~= seq![first] + parts(rest, ends));
    }
}

/// A text that lacks the separator goes to the last field.
pub proof fn lemma_fields_longer(s: Seq<char>, more: Seq<char>, separator: char)
    requires
        lacks(more, separator),
    ensures
        ({
            let found = fields(s, separator);
            fields(s + more, separator) == found.drop_last().push(found.last() + more)
        }),
{
    lemma_parts_longer(s, more, only(separator));
}

/// A text without the separator is its only field.
pub proof fn lemma_fields_only(s: Seq<char>, separator: char)
    requires
        lacks(s, separator),
    ensures
        fields(s, separator) == seq![s],
{
    lemma_parts_only(s, only(separator));
}

/// What stands before the first separator is the first field.
pub proof fn lemma_fields_first(first: Seq<char>, rest: Seq<char>, separator: char)
    requires
        lacks(first, separator),
    ensures
        fields(first + seq![separator] + rest, separator) == seq![first] + fields(rest, separator),
{
    lemma_parts_first(first, separator, rest, only(separator));
}

/// The fields of two texts with the separator between them are those of the one and then those of
/// the other.
pub proof fn lemma_fields_concat(a: Seq<char>, b: Seq<char>, separator: char)
    ensures
        fields(a + seq![separator] + b, separator) == fields(a, separator) + fields(b, separator),
    decreases b.len(),
{
    let ends = only(separator);
    let s = a + seq![separator] + b;
    lemma_parts_len(b, ends);
    if b.len() == 0 {
        lemma_parts_push(a, separator, ends);
        assert(s =~= a.push(separator));
        assert(fields(s, separator) =~= fields(a, separator) + fields(b, separator));
    } else {
        let front = b.drop_last();
        lemma_fields_concat(a, front, separator);
        lemma_parts_len(front, ends);
        lemma_parts_push(a + seq![separator] + front, b.last(), ends);
        assert(s =~= (a + seq![separator] + front).push(b.last()));
        let before = fields(front, separator);
        let all = fields(a, separator) + before;
        assert(all.last() == before.last());
        assert(all.drop_last() =~= fields(a, separator) + before.drop_last());
        assert(fields(s, separator) =~= fields(a, separator) + fields(b, separator));
    }
}

/// Texts without the separator that are joined with it are the fields of what comes out.
pub proof fn lemma_fields_joined(items: Seq<Seq<char>>, separator: char)
    requires
        items.len() > 0,
        forall|i: int| 0 <= i < items.len() ==> lacks(#[trigger] items[i], separator),
    ensures
        fields(joined(items, seq![separator]), separator) == items,
    decreases items.len(),
{
    let n = items.len() - 1;
    assert(lacks(items[n], separator));
    lemma_fields_only(items[n], separator);
    if items.len() == 1 {
        assert(items =~= seq![items[0]]);
    } else {
        let front = items.drop_last();
        assert forall|i: int| 0 <= i < front.len() implies lacks(
            #[trigger] front[i],
            separator,
        ) by {
            assert(front[i] == items[i]);
        }
        lemma_fields_joined(front, separator);
        lemma_fields_concat(joined(front, seq![separator]), items[n], separator);
        assert(front + seq![items[n]] =~= items);
    }
}

/// Whether a text is one word.
pub open spec fn is_word(s: Seq<char>) -> bool {
    &&& s.len() > 0
    &&& forall|i: int| 0 <= i < s.len() ==> !is_space(#[trigger] s[i])
}

/// A word by itself.
pub proof fn lemma_words_only(s: Seq<char>)
    requires
        is_word(s),
    ensures
        words(s) == seq![s],
{
    let ends = |c: char| is_space(c);
    let keep = |word: Seq<char>| word.len() > 0;
    lemma_parts_only(s, ends);
    lemma_filter_push(Seq::empty(), s, keep);
    assert(Seq::<Seq<char>>::empty().push(s) =~= seq![s]);
    reveal(Seq::filter);
    assert(Seq::<Seq<char>>::empty().filter(keep).push(s) =~= seq![s]);
}

/// What stands before white space is the first word, if there is anything.
pub proof fn lemma_words_before(first: Seq<char>, space: char, rest: Seq<char>)
    requires
        forall|i: int| 0 <= i < first.len() ==> !is_space(#[trigger] first[i]),
        is_space(space),
    ensures
        words(first) == if first.len() == 0 {
            Seq::empty()
        } else {
            seq![first]
        },
        words(first + seq![space] + rest) == if first.len() == 0 {
            words(rest)
        } else {
            seq![first] + words(rest)
        },
{
    let ends = |c: char| is_space(c);
    let keep = |word: Seq<char>| word.len() > 0;
    lemma_parts_first(first, space, rest, ends);
    lemma_parts_only(first, ends);
    Seq::filter_distributes_over_add(seq![first], parts(rest, ends), keep);
    if first.len() > 0 {
        lemma_words_only(first);
    } else {
        lemma_filter_push(Seq::empty(), first, keep);
        assert(Seq::<Seq<char>>::empty().push(first) =~= seq![first]);
        reveal(Seq::filter);
        assert(words(first) =~= Seq::empty());
        assert(words(first) + words(rest) =~= words(rest));
    }
}

/// White space behind a text does not matter to its words.
pub proof fn lemma_words_after(s: Seq<char>, space: char)
    requires
        is_space(space),
    ensures
        words(s.push(space)) == words(s),
{
    let ends = |c: char| is_space(c);
    let keep = |word: Seq<char>| word.len() > 0;
    lemma_parts_push(s, space, ends);
    lemma_filter_push(parts(s, ends), Seq::empty(), keep);
}

/// A word with a space and more behind it.
pub proof fn lemma_words_first(first: Seq<char>, rest: Seq<char>)
    requires
        is_word(first),
    ensures
        words(first + seq![' '] + rest) == seq![first] + words(rest),
{
    lemma_words_before(first, ' ', rest);
}

/// Capitals in place of small letters leave white space where it is.
proof fn lemma_parts_capitals(s: Seq<char>, ends: spec_fn(char) -> bool)
    requires
        forall|c: char| ends(#[trigger] capital(c)) == ends(c),
    ensures
        parts(capitals(s), ends) == parts(s, ends).map_values(|part: Seq<char>| capitals(part)),
    decreases s.len(),
{
    let up = |part: Seq<char>| capitals(part);
    if s.len() == 0 {
        assert(capitals(s) =~= Seq::empty());
        assert(capitals(Seq::empty()) =~= Seq::empty());
        assert(parts(capitals(s), ends) =~= parts(s, ends).map_values(up));
    } else {
        let front = s.drop_last();
        let before = parts(front, ends);
        lemma_parts_capitals(front, ends);
        lemma_parts_len(front, ends);
        assert(capitals(s).drop_last() =~= capitals(front));
        assert(capitals(s).last() == capital(s.last()));
        assert(capitals(before.last().push(s.last())) =~= capitals(before.last()).push(
            capital(s.last()),
        ));
        assert(capitals(Seq::empty()) =~= Seq::empty());
        assert(parts(capitals(s), ends) =~= parts(s, ends).map_values(up));
    }
}

/// Picking from a list whose items were changed in a way that does not matter to the choice.
proof fn lemma_filter_map(
    s: Seq<Seq<char>>,
    keep: spec_fn(Seq<char>) -> bool,
    change: spec_fn(Seq<char>) -> Seq<char>,
)
    requires
        forall|item: Seq<char>| keep(#[trigger] change(item)) == keep(item),
    ensures
        s.map_values(change).filter(keep) == s.filter(keep).map_values(change),
    decreases s.len(),
{
    if s.len() == 0 {
        reveal(Seq::filter);
        assert(s.map_values(change).filter(keep) =~= s.filter(keep).map_values(change));
    } else {
        let front = s.drop_last();
        lemma_filter_map(front, keep, change);
        lemma_filter_push(front, s.last(), keep);
        lemma_filter_push(front.map_values(change), change(s.last()), keep);
        assert(front.push(s.last()) =~= s);
        assert(front.map_values(change).push(change(s.last())) =~= s.map_values(change));
        assert(s.map_values(change).filter(keep) =~= s.filter(keep).map_values(change));
    }
}

/// The words of a text in capitals are its words in capitals.
pub proof fn lemma_words_capitals(s: Seq<char>)
    ensures
        words(capitals(s)) == words(s).map_values(|word: Seq<char>| capitals(word)),
{
    let ends = |c: char| is_space(c);
    let keep = |word: Seq<char>| word.len() > 0;
    let up = |word: Seq<char>| capitals(word);
    lemma_parts_capitals(s, ends);
    lemma_filter_map(parts(s, ends), keep, up);
}

} // verus!
