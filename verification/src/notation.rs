//! What holds of numbers and texts, said without the functions that write and read them.
use vstd::prelude::*;

use crate::decimal;
use crate::text;

verus! {

/// The number that figures stand for by their places: each figure counts ten times as much as the
/// one behind it.
pub open spec fn place_value(figures: Seq<char>) -> int {
    figures.fold_left(0int, |sum: int, c: char| 10 * sum + (c as int - 48))
}

/// Whether a text is one or more of the ten figures.
pub open spec fn figures(s: Seq<char>) -> bool {
    &&& s.len() > 0
    &&& forall|i: int| 0 <= i < s.len() ==> 48 <= (#[trigger] s[i]) as int <= 57
}

/// Place value by places is what reading adds up.
proof fn lemma_place_value(s: Seq<char>)
    ensures
        decimal::value(s) == place_value(s),
    decreases s.len(),
{
    if s.len() > 0 {
        lemma_place_value(s.drop_last());
    }
}

/// Figures are digits.
proof fn lemma_figures(s: Seq<char>)
    ensures
        decimal::all_digits(s) == figures(s),
{
    if decimal::all_digits(s) {
        assert forall|i: int| 0 <= i < s.len() implies 48 <= (#[trigger] s[i]) as int <= 57 by {
            assert(decimal::is_digit(s[i]));
        }
    }
    if figures(s) {
        assert forall|i: int| 0 <= i < s.len() implies decimal::is_digit(#[trigger] s[i]) by {
            assert(48 <= s[i] as int <= 57);
        }
    }
}

/// Numbers are written in figures by place value: the figures stand for the size of the number,
/// there is no zero in front, and a minus sign stands before them where, and only where, the
/// number is below zero.
pub proof fn numbers_are_written_by_place_value(n: int)
    ensures
        ({
            let s = decimal::decimal(n);
            let size = if n < 0 {
                s.skip(1)
            } else {
                s
            };
            &&& n < 0 ==> s.len() > 0 && s[0] == '-'
            &&& figures(size)
            &&& size.len() > 1 ==> size[0] != '0'
            &&& place_value(size) == if n < 0 {
                -n
            } else {
                n
            }
        }),
{
    let size: nat = if n < 0 {
        (-n) as nat
    } else {
        n as nat
    };
    decimal::lemma_digits(size);
    lemma_place_value(decimal::digits(size));
    lemma_figures(decimal::digits(size));
    lemma_no_zero_in_front(size);
    if n < 0 {
        assert(decimal::decimal(n).skip(1) =~= decimal::digits(size));
    }
}

/// Nothing but zero itself starts with a zero.
proof fn lemma_no_zero_in_front(n: nat)
    ensures
        decimal::digits(n).len() > 0,
        n > 0 ==> decimal::digits(n)[0] != '0',
        n < 10 ==> decimal::digits(n).len() == 1,
    decreases n,
{
    if n >= 10 {
        lemma_no_zero_in_front(n / 10);
        assert(decimal::digits(n)[0] == decimal::digits(n / 10)[0]);
    } else {
        assert(n > 0 ==> ('0' as int + n) as char != '0');
    }
}

/// Numbers are read by place value. A text is a number if and only if it is figures, perhaps with
/// a plus sign before them (for signed numbers, a plus or a minus sign), and the number that the
/// figures stand for fits; and then it is that number.
pub proof fn numbers_are_read_by_place_value(s: Seq<char>)
    ensures
        ({
            let plus = s.len() > 0 && s[0] == '+';
            let minus = s.len() > 0 && s[0] == '-';
            let unsigned = if plus {
                s.skip(1)
            } else {
                s
            };
            let signed = if plus || minus {
                s.skip(1)
            } else {
                s
            };
            let amount = if minus {
                -place_value(signed)
            } else {
                place_value(signed)
            };
            &&& decimal::u64_read(s) is Some <==> figures(unsigned) && place_value(unsigned)
                <= 0xffff_ffff_ffff_ffff
            &&& decimal::u64_read(s) matches Some(n) ==> n == place_value(unsigned)
            &&& decimal::usize_read(s) is Some <==> figures(unsigned) && place_value(unsigned)
                <= usize::MAX
            &&& decimal::usize_read(s) matches Some(n) ==> n == place_value(unsigned)
            &&& decimal::i64_read(s) is Some <==> figures(signed) && -0x8000_0000_0000_0000
                <= amount <= 0x7fff_ffff_ffff_ffff
            &&& decimal::i64_read(s) matches Some(n) ==> n == amount
        }),
{
    lemma_place_value(s);
    lemma_figures(s);
    decimal::lemma_not_negative(s);
    if s.len() > 0 {
        assert(s.skip(1) =~= s.drop_first());
        lemma_place_value(s.skip(1));
        lemma_figures(s.skip(1));
        decimal::lemma_not_negative(s.skip(1));
        if figures(s.skip(1)) {
            assert(48 <= s.skip(1)[0] as int <= 57);
        }
    }
}

/// A small letter becomes its capital, and no other character changes.
pub proof fn capitals_change_small_letters_only(s: Seq<char>)
    ensures
        text::capitals(s).len() == s.len(),
        forall|i: int|
            0 <= i < s.len() ==> (#[trigger] text::capitals(s)[i]) as int == if 97 <= s[i] as int
                <= 122 {
                s[i] as int - 32
            } else {
                s[i] as int
            },
{
}

/// White space is the twenty-five characters that Unicode has for it.
pub proof fn white_space_is_that_of_unicode(c: char)
    ensures
        ({
            let code = c as int;
            text::is_space(c) <==> {
                ||| 0x9 <= code <= 0xd
                ||| code == 0x20
                ||| code == 0x85
                ||| code == 0xa0
                ||| code == 0x1680
                ||| 0x2000 <= code <= 0x200a
                ||| code == 0x2028
                ||| code == 0x2029
                ||| code == 0x202f
                ||| code == 0x205f
                ||| code == 0x3000
            }
        }),
{
}

/// Fields are what stands between the separators: a text without the separator is one field, and
/// what stands before the first separator is the first field, whatever follows.
pub proof fn fields_stand_between_separators(first: Seq<char>, rest: Seq<char>, separator: char)
    requires
        forall|i: int| 0 <= i < first.len() ==> #[trigger] first[i] != separator,
    ensures
        text::fields(first, separator) == seq![first],
        text::fields(first.push(separator) + rest, separator) == seq![first] + text::fields(
            rest,
            separator,
        ),
{
    text::lemma_fields_only(first, separator);
    text::lemma_fields_first(first, rest, separator);
    assert(first.push(separator) + rest =~= first + seq![separator] + rest);
}

/// Words are what stands between white space: white space in front does not matter, a text of
/// anything else is one word, and what stands before the first white space is the first word.
pub proof fn words_stand_between_white_space(first: Seq<char>, space: char, rest: Seq<char>)
    requires
        forall|i: int| 0 <= i < first.len() ==> !text::is_space(#[trigger] first[i]),
        text::is_space(space),
    ensures
        text::words(first) == if first.len() == 0 {
            Seq::empty()
        } else {
            seq![first]
        },
        text::words(first.push(space) + rest) == if first.len() == 0 {
            text::words(rest)
        } else {
            seq![first] + text::words(rest)
        },
{
    text::lemma_words_before(first, space, rest);
    assert(first.push(space) + rest =~= first + seq![space] + rest);
}

/// Trimming takes away white space at both ends, all of it and nothing else.
pub proof fn trimming_takes_white_space_away(s: Seq<char>) -> (r: (int, int))
    ensures
        ({
            let (from, to) = r;
            let kept = text::trimmed(s);
            &&& 0 <= from <= to <= s.len()
            &&& kept == s.subrange(from, to)
            &&& forall|i: int| 0 <= i < from || to <= i < s.len() ==> text::is_space(#[trigger] s[i])
            &&& kept.len() > 0 ==> !text::is_space(kept[0]) && !text::is_space(
                kept[kept.len() - 1],
            )
        }),
{
    let from = lemma_trimmed_start(s);
    let rest = s.skip(from);
    let to = lemma_trimmed_end(rest);
    assert(text::trimmed(s) =~= s.subrange(from, from + to));
    assert forall|i: int| 0 <= i < from || from + to <= i < s.len() implies text::is_space(
        #[trigger] s[i],
    ) by {
        if i >= from {
            assert(text::is_space(rest[i - from]));
        }
    }
    (from, from + to)
}

/// How much white space a text starts with.
proof fn lemma_trimmed_start(s: Seq<char>) -> (from: int)
    ensures
        0 <= from <= s.len(),
        text::trimmed_start(s) == s.skip(from),
        forall|i: int| 0 <= i < from ==> text::is_space(#[trigger] s[i]),
        from < s.len() ==> !text::is_space(s[from]),
    decreases s.len(),
{
    if s.len() > 0 && text::is_space(s.first()) {
        let rest = s.drop_first();
        let from = lemma_trimmed_start(rest);
        assert(rest.skip(from) =~= s.skip(from + 1));
        assert forall|i: int| 0 <= i < from + 1 implies text::is_space(#[trigger] s[i]) by {
            if i > 0 {
                assert(text::is_space(rest[i - 1]));
            }
        }
        from + 1
    } else {
        assert(s.skip(0) =~= s);
        0
    }
}

/// Where the white space at the end of a text starts.
proof fn lemma_trimmed_end(s: Seq<char>) -> (to: int)
    ensures
        0 <= to <= s.len(),
        text::trimmed_end(s) == s.take(to),
        forall|i: int| to <= i < s.len() ==> text::is_space(#[trigger] s[i]),
        to > 0 ==> !text::is_space(s[to - 1]),
    decreases s.len(),
{
    if s.len() > 0 && text::is_space(s.last()) {
        let front = s.drop_last();
        let to = lemma_trimmed_end(front);
        assert(front.take(to) =~= s.take(to));
        assert forall|i: int| to <= i < s.len() implies text::is_space(#[trigger] s[i]) by {
            if i < front.len() {
                assert(text::is_space(front[i]));
            }
        }
        to
    } else {
        assert(s.take(s.len() as int) =~= s);
        s.len() as int
    }
}

/// Trimming the end takes away the white space there, all of it and nothing else.
pub proof fn trimming_the_end_leaves_the_start(s: Seq<char>)
    ensures
        ({
            let kept = text::trimmed_end(s);
            &&& kept.is_prefix_of(s)
            &&& forall|i: int| kept.len() <= i < s.len() ==> text::is_space(#[trigger] s[i])
            &&& kept.len() > 0 ==> !text::is_space(kept[kept.len() - 1])
        }),
{
    let to = lemma_trimmed_end(s);
}

/// Joined texts stand one after the other, with the separator behind each but the last.
pub proof fn joined_texts_stand_one_after_the_other(items: Seq<Seq<char>>, separator: Seq<char>)
    requires
        items.len() > 0,
    ensures
        text::joined(items, separator) == items.drop_last().map_values(
            |item: Seq<char>| item + separator,
        ).flatten() + items.last(),
    decreases items.len(),
{
    let ended = |item: Seq<char>| item + separator;
    let front = items.drop_last();
    if items.len() == 1 {
        assert(front.map_values(ended) =~= Seq::empty());
        assert(text::joined(items, separator) =~= front.map_values(ended).flatten() + items.last());
    } else {
        joined_texts_stand_one_after_the_other(front, separator);
        let before = front.drop_last().map_values(ended);
        assert(front.map_values(ended) =~= before.push(front.last() + separator));
        before.lemma_flatten_push(front.last() + separator);
        assert(text::joined(items, separator) =~= front.map_values(ended).flatten() + items.last());
    }
}

/// Lines are what line feeds end: what stands before the first line feed is the first line, but
/// for one carriage return right before the line feed. What no line feed ends is a line as it
/// stands, if there is anything.
pub proof fn lines_are_what_line_feeds_end(first: Seq<char>, rest: Seq<char>)
    requires
        forall|i: int| 0 <= i < first.len() ==> #[trigger] first[i] != '\n',
    ensures
        text::lines(first) == if first.len() == 0 {
            Seq::empty()
        } else {
            seq![first]
        },
        text::lines(first.push('\n') + rest) == seq![
            if first.len() > 0 && first[first.len() - 1] == '\r' {
                first.take(first.len() - 1)
            } else {
                first
            },
        ] + text::lines(rest),
{
    fields_stand_between_separators(first, rest, '\n');
    text::lemma_parts_len(rest, text::only('\n'));
    let found = text::fields(first, '\n');
    assert(found.drop_last() =~= Seq::empty());
    if first.len() == 0 {
        assert(text::lines(first) =~= Seq::empty());
    } else {
        assert(text::lines(first) =~= seq![first]);
    }
    let after = text::fields(rest, '\n');
    let all = text::fields(first.push('\n') + rest, '\n');
    assert(all.last() == after.last());
    assert(all.drop_last() =~= seq![first] + after.drop_last());
    assert(first.len() > 0 ==> first.take(first.len() - 1) =~= first.drop_last());
    assert(text::lines(first.push('\n') + rest) =~= seq![text::without_return(first)] + text::lines(
        rest,
    ));
}

} // verus!
