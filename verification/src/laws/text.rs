//! What the operations on text promise.

use crate::text::{
    ascending, ascii_lowered, comes_before, decimal_text, digit, digits_value, first_of, is_blank, is_digit, is_white,
    joined, left_aligned, lemma_first_of_is, lemma_split_behind, lemma_trim_end, lemma_trim_start, lemma_word_len, lemma_word_len_is, lowered,
    numeral_digits, right_aligned, same_but_case, split_at_char, trim_end, trim_start, trimmed, u64_value, unicode_lowercase,
    word_len, words,
};
use vstd::prelude::*;

verus! {

// ---- white space ---------------------------------------------------------------

/// Of the ASCII characters the blank and the five that end or indent lines are white
/// space, and no other.
pub proof fn ascii_white_space(c: char)
    requires
        (c as u32) < 0x80,
    ensures
        is_white(c) <==> c == ' ' || c == '\t' || c == '\n' || c == '\r' || (c as u32) == 0xb || (
        c as u32) == 0xc,
{
}

/// Beyond ASCII, white space is what Unicode calls so.
pub proof fn other_white_space(c: char)
    requires
        (c as u32) >= 0x80,
    ensures
        is_white(c) <==> c == '\u{85}' || c == '\u{a0}' || c == '\u{1680}' || '\u{2000}' <= c
            <= '\u{200a}' || c == '\u{2028}' || c == '\u{2029}' || c == '\u{202f}' || c == '\u{205f}'
            || c == '\u{3000}',
{
}

/// A word is a text without white space.
pub open spec fn is_word(s: Seq<char>) -> bool {
    s.len() > 0 && forall|i: int| 0 <= i < s.len() ==> !is_white(#[trigger] s[i])
}

/// White space alone has no words.
pub proof fn white_space_has_no_words(s: Seq<char>)
    requires
        is_blank(s),
    ensures
        words(s).len() == 0,
    decreases s.len(),
{
    if s.len() > 0 {
        assert(is_white(s[0]));
        assert(is_blank(s.drop_first()));
        white_space_has_no_words(s.drop_first());
    }
}

/// A word by itself is its only word.
pub proof fn a_word_is_its_only_word(s: Seq<char>)
    requires
        is_word(s),
    ensures
        words(s) == seq![s],
{
    lemma_word_len_is(s, s.len());
    assert(!is_white(s[0]));
    assert(s.take(s.len() as int) =~= s);
    assert(s.skip(s.len() as int) =~= Seq::<char>::empty());
    assert(words(Seq::<char>::empty()) =~= Seq::<Seq<char>>::empty());
    assert(words(s) =~= seq![s]);
}

/// White space parts the words: a text around it has the words of what is before it,
/// and then those of what is behind it.
pub proof fn white_space_parts_the_words(a: Seq<char>, gap: Seq<char>, b: Seq<char>)
    requires
        gap.len() > 0,
        is_blank(gap),
    ensures
        words(a + gap + b) == words(a) + words(b),
    decreases a.len() + gap.len(),
{
    let all = a + gap + b;
    if a.len() == 0 {
        assert(all =~= gap + b);
        assert(all[0] == gap[0]);
        assert(is_white(gap[0]));
        assert(words(a) + words(b) =~= words(b));
        assert(all.drop_first() =~= gap.drop_first() + b);
        if gap.len() == 1 {
            assert(gap.drop_first() + b =~= b);
        } else {
            assert(is_blank(gap.drop_first()));
            assert(a + gap.drop_first() + b =~= gap.drop_first() + b);
            white_space_parts_the_words(a, gap.drop_first(), b);
        }
    } else if is_white(a[0]) {
        assert(all[0] == a[0]);
        assert(all.drop_first() =~= a.drop_first() + gap + b);
        white_space_parts_the_words(a.drop_first(), gap, b);
    } else {
        lemma_word_len(a);
        let k = word_len(a);
        assert forall|i: int| 0 <= i < k implies !is_white(#[trigger] all[i]) by {
            assert(all[i] == a[i]);
        }
        if k < a.len() {
            assert(all[k as int] == a[k as int]);
        } else {
            assert(all[k as int] == gap[0]);
            assert(is_white(gap[0]));
        }
        lemma_word_len_is(all, k);
        assert(all[0] == a[0]);
        assert(all.take(k as int) =~= a.take(k as int));
        let rest = a.skip(k as int);
        assert(all.skip(k as int) =~= rest + gap + b);
        white_space_parts_the_words(rest, gap, b);
        let first = seq![a.take(k as int)];
        assert(first + (words(rest) + words(b)) =~= first + words(rest) + words(b));
    }
}

/// A text that neither starts nor ends with white space is left as it is by trimming.
pub proof fn trimming_keeps_what_has_no_white_ends(s: Seq<char>)
    requires
        s.len() > 0 ==> !is_white(s[0]) && !is_white(s.last()),
    ensures
        trimmed(s) == s,
{
}

/// A trimmed text neither starts nor ends with white space.
pub proof fn a_trimmed_text_has_no_white_ends(s: Seq<char>)
    ensures
        trimmed(s).len() > 0 ==> !is_white(trimmed(s)[0]) && !is_white(trimmed(s).last()),
        is_blank(s) ==> trimmed(s).len() == 0,
{
    let w = lemma_trim_start(s);
    let t = trim_start(s);
    let v = lemma_trim_end(t);
    if trimmed(s).len() > 0 {
        assert(t[0] == trim_end(t)[0]);
    }
    if is_blank(s) && t.len() > 0 {
        assert(s[w.len() as int] == t[0]);
    }
}

// ---- case ----------------------------------------------------------------------

/// Lower case takes the capital letters of ASCII to the small ones, and leaves every
/// other character of ASCII as it is.
pub proof fn lower_case_of_ascii(s: Seq<char>)
    requires
        vstd::utf8::is_ascii_chars(s),
    ensures
        lowered(s).len() == s.len(),
        forall|i: int|
            0 <= i < s.len() ==> ((#[trigger] lowered(s)[i]) as u32) == if 'A' <= s[i] <= 'Z' {
                (s[i] as u32) + 32
            } else {
                s[i] as int
            },
{
}

/// Beyond ASCII, lower case is that of Unicode.
pub proof fn lower_case_of_other_text(s: Seq<char>, i: int)
    requires
        0 <= i < s.len(),
        (s[i] as u32) >= 0x80,
    ensures
        lowered(s) == unicode_lowercase(s),
{
    if vstd::utf8::is_ascii_chars(s) {
        assert('\0' <= s[i] <= '\u{7f}');
    }
}

/// Texts are the same but for case when they are as long as each other and differ
/// nowhere but in the case of an ASCII letter.
pub proof fn case_is_that_of_ascii_letters(a: Seq<char>, b: Seq<char>)
    ensures
        same_but_case(a, b) <==> a.len() == b.len() && forall|i: int|
            0 <= i < a.len() ==> ((#[trigger] a[i]) == b[i] || ('A' <= a[i] <= 'Z' && b[i] as u32
                == a[i] as u32 + 32) || ('A' <= b[i] <= 'Z' && a[i] as u32 == b[i] as u32 + 32)),
{
    if same_but_case(a, b) {
        assert(ascii_lowered(a).len() == ascii_lowered(b).len());
        assert forall|i: int| 0 <= i < a.len() implies ((#[trigger] a[i]) == b[i] || ('A' <= a[i]
            <= 'Z' && b[i] as u32 == a[i] as u32 + 32) || ('A' <= b[i] <= 'Z' && a[i] as u32 == b[i]
            as u32 + 32)) by {
            assert(ascii_lowered(a)[i] == ascii_lowered(b)[i]);
        }
    }
    if a.len() == b.len() && forall|i: int|
        0 <= i < a.len() ==> ((#[trigger] a[i]) == b[i] || ('A' <= a[i] <= 'Z' && b[i] as u32
            == a[i] as u32 + 32) || ('A' <= b[i] <= 'Z' && a[i] as u32 == b[i] as u32 + 32)) {
        assert forall|i: int| 0 <= i < a.len() implies ascii_lowered(a)[i] == #[trigger] ascii_lowered(
            b,
        )[i] by {
            assert(a[i] == a[i]);
        }
        assert(ascii_lowered(a) =~= ascii_lowered(b));
    }
}

// ---- parts ---------------------------------------------------------------------

/// Joining puts the separator between each two parts, and nowhere else.
pub proof fn joining_adds_a_part(parts: Seq<Seq<char>>, part: Seq<char>, sep: Seq<char>)
    ensures
        joined(Seq::empty(), sep).len() == 0,
        joined(seq![part], sep) == part,
        parts.len() > 0 ==> joined(parts.push(part), sep) == joined(parts, sep) + sep + part,
{
    assert(parts.push(part).drop_last() =~= parts);
}

// ---- numbers -------------------------------------------------------------------

/// A digit at the end of a numeral multiplies what is before it by ten.
pub proof fn a_digit_is_worth_its_place(s: Seq<char>, d: nat)
    requires
        d < 10,
    ensures
        digits_value(Seq::empty()) == 0,
        digits_value(s.push(digit(d))) == 10 * digits_value(s) + d,
        is_digit(digit(d)),
        digit(d) as u32 == '0' as u32 + d,
{
    assert(s.push(digit(d)).drop_last() =~= s);
}

/// A number in decimal spells that number, in digits, and with no zero in front.
pub proof fn a_decimal_spells_its_number(n: nat)
    ensures
        digits_value(decimal_text(n)) == n,
        decimal_text(n).len() > 0,
        forall|i: int| 0 <= i < decimal_text(n).len() ==> is_digit(#[trigger] decimal_text(n)[i]),
        n > 0 ==> decimal_text(n)[0] != '0',
    decreases n,
{
    let s = decimal_text(n);
    if n < 10 {
        assert(s.drop_last() =~= Seq::<char>::empty());
        assert(digits_value(s.drop_last()) == 0);
    } else {
        a_decimal_spells_its_number(n / 10);
        let t = decimal_text(n / 10);
        assert(s.drop_last() =~= t);
        assert forall|i: int| 0 <= i < s.len() implies is_digit(#[trigger] s[i]) by {
            if i < t.len() {
                assert(s[i] == t[i]);
            }
        }
        assert(s[0] == t[0]);
    }
}

/// A time or a count that is written in decimal, with or without a `+`, reads as that
/// number.
pub proof fn a_decimal_reads_as_its_number(n: u64)
    ensures
        u64_value(decimal_text(n as nat)) == Some(n),
        u64_value(seq!['+'] + decimal_text(n as nat)) == Some(n),
{
    let s = decimal_text(n as nat);
    a_decimal_spells_its_number(n as nat);
    assert(is_digit(s[0]));
    assert((seq!['+'] + s).drop_first() =~= s);
    assert(numeral_digits(seq!['+'] + s) == s);
}

/// Zeros in front of a number do not change it.
pub proof fn zeros_in_front_do_not_count(s: Seq<char>)
    ensures
        digits_value(seq!['0'] + s) == digits_value(s),
    decreases s.len(),
{
    let t = seq!['0'] + s;
    if s.len() == 0 {
        assert(t.drop_last() =~= Seq::<char>::empty());
        assert(digits_value(t.drop_last()) == 0);
    } else {
        assert(t.drop_last() =~= seq!['0'] + s.drop_last());
        zeros_in_front_do_not_count(s.drop_last());
    }
}

/// What reads as a number is digits, with or without a `+`, and no more than fits.
pub proof fn only_digits_read_as_a_number(s: Seq<char>)
    ensures
        numeral_digits(s) == if s.len() > 0 && s[0] == '+' {
            s.drop_first()
        } else {
            s
        },
        u64_value(s) is Some <==> numeral_digits(s).len() > 0 && (forall|i: int|
            0 <= i < numeral_digits(s).len() ==> '0' <= #[trigger] numeral_digits(s)[i] <= '9')
            && digits_value(numeral_digits(s)) <= u64::MAX,
        u64_value(s) matches Some(n) ==> n == digits_value(numeral_digits(s)),
{
    let d = numeral_digits(s);
    if forall|i: int| 0 <= i < d.len() ==> '0' <= #[trigger] d[i] <= '9' {
        assert forall|i: int| 0 <= i < d.len() implies is_digit(#[trigger] d[i]) by {}
    }
    if u64_value(s) is Some {
        assert forall|i: int| 0 <= i < d.len() implies '0' <= #[trigger] d[i] <= '9' by {
            assert(is_digit(d[i]));
        }
    }
}

// ---- columns -------------------------------------------------------------------

/// A column is as wide as asked, or as its text where that is wider; the text stands
/// at its side, and blanks fill the rest.
pub proof fn a_column_is_filled_with_blanks(s: Seq<char>, width: nat)
    ensures
        left_aligned(s, width).len() == if s.len() < width {
            width
        } else {
            s.len()
        },
        right_aligned(s, width).len() == left_aligned(s, width).len(),
        left_aligned(s, width).take(s.len() as int) == s,
        right_aligned(s, width).skip(right_aligned(s, width).len() - s.len()) == s,
        forall|i: int|
            s.len() <= i < left_aligned(s, width).len() ==> #[trigger] left_aligned(s, width)[i] == ' ',
        forall|i: int|
            0 <= i < right_aligned(s, width).len() - s.len() ==> #[trigger] right_aligned(s, width)[i]
                == ' ',
{
    assert(left_aligned(s, width).take(s.len() as int) =~= s);
    assert(right_aligned(s, width).skip(right_aligned(s, width).len() - s.len()) =~= s);
}

// ---- order ---------------------------------------------------------------------

/// Of two texts that are alike up to a place, the one with the smaller character
/// there comes first; and a text comes before those that it starts.
pub proof fn texts_are_ordered_by_their_first_difference(
    same: Seq<char>,
    a: char,
    b: char,
    x: Seq<char>,
    y: Seq<char>,
)
    ensures
        a < b ==> comes_before(same + seq![a] + x, same + seq![b] + y),
        b < a ==> !comes_before(same + seq![a] + x, same + seq![b] + y),
        comes_before(same, same + seq![b] + y),
        !comes_before(same + seq![b] + y, same),
        !comes_before(same, same),
    decreases same.len(),
{
    let (s, t) = (same + seq![a] + x, same + seq![b] + y);
    if same.len() == 0 {
        assert(s[0] == a);
        assert(t[0] == b);
    } else {
        let rest = same.drop_first();
        assert(s.drop_first() =~= rest + seq![a] + x);
        assert(t.drop_first() =~= rest + seq![b] + y);
        assert(s[0] == same[0]);
        assert(t[0] == same[0]);
        texts_are_ordered_by_their_first_difference(rest, a, b, x, y);
    }
}

/// Texts in ascending order are each before those behind them, and none is there
/// twice.
pub proof fn ascending_texts_stand_once(v: Seq<Seq<char>>, i: int, j: int)
    requires
        ascending(v),
        0 <= i < j < v.len(),
    ensures
        comes_before(v[i], v[j]),
        v[i] != v[j],
{
    texts_are_ordered_by_their_first_difference(v[i], 'a', 'a', Seq::empty(), Seq::empty());
}

// ---- separators ----------------------------------------------------------------

/// A character is found where it first stands, and else at the end.
pub proof fn a_character_is_found_where_it_first_stands(front: Seq<char>, c: char, back: Seq<char>)
    requires
        !front.contains(c),
    ensures
        first_of(front, c) == front.len(),
        first_of(front + seq![c] + back, c) == front.len(),
{
    let all = front + seq![c] + back;
    assert forall|i: int| 0 <= i < front.len() implies #[trigger] front[i] != c by {
        assert(front.contains(front[i]));
    }
    assert forall|i: int| 0 <= i < front.len() implies #[trigger] all[i] != c by {
        assert(all[i] == front[i]);
    }
    assert(all[front.len() as int] == c);
    lemma_first_of_is(front, c, front.len());
    lemma_first_of_is(all, c, front.len());
}

/// Each separator starts one more part; a text without one is its only part.
pub proof fn a_separator_starts_a_part(s: Seq<char>, sep: char, part: Seq<char>)
    requires
        !part.contains(sep),
    ensures
        split_at_char(part, sep) == seq![part],
        split_at_char(s.push(sep) + part, sep) == split_at_char(s, sep).push(part),
{
    a_character_is_found_where_it_first_stands(part, sep, s);
    lemma_split_behind(s, sep, part);
}

} // verus!
