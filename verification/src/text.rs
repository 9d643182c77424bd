//! Text on the character level: the few string operations that the readers
//! and the reports are made of, each with an exact contract over `Seq<char>`.

use vstd::prelude::*;
use vstd::string::*;
use vstd::utf8::{encode_utf8, encode_utf8_decode_utf8};

verus! {

/// `String::push` appends one character.
pub assume_specification[ String::push ](s: &mut String, c: char)
    ensures
        final(s)@ == old(s)@.push(c),
;

/// What `str::to_lowercase` makes of a text that is not all ASCII.
pub uninterp spec fn unicode_lowercase(s: Seq<char>) -> Seq<char>;

/// `str::to_lowercase`, whose result on text beyond ASCII follows the Unicode
/// tables and is only named here.
#[verifier::external_body]
fn lowercase_unicode(s: &str) -> (r: String)
    ensures
        r@ == unicode_lowercase(s@),
{
    s.to_lowercase()
}

/// What the `{:?}` form of a text is.
pub uninterp spec fn debug_text(s: Seq<char>) -> Seq<char>;

/// The `{:?}` form of a text, as `format!` writes it: quoted, with escapes.
#[verifier::external_body]
pub(crate) fn debug_quoted(s: &str) -> (r: String)
    ensures
        r@ == debug_text(s@),
{
    format!("{:?}", s)
}

/// The characters with the Unicode property `White_Space`.
pub open spec fn is_white(c: char) -> bool {
    let u = c as u32;
    ||| 0x9 <= u <= 0xd
    ||| u == 0x20
    ||| u == 0x85
    ||| u == 0xa0
    ||| u == 0x1680
    ||| 0x2000 <= u <= 0x200a
    ||| u == 0x2028
    ||| u == 0x2029
    ||| u == 0x202f
    ||| u == 0x205f
    ||| u == 0x3000
}

/// Is `c` white space?
pub fn is_whitespace(c: char) -> (r: bool)
    ensures
        r == is_white(c),
{
    let u: u32 = c as u32;
    (0x9 <= u && u <= 0xd) || u == 0x20 || u == 0x85 || u == 0xa0 || u == 0x1680 || (0x2000 <= u
        && u <= 0x200a) || u == 0x2028 || u == 0x2029 || u == 0x202f || u == 0x205f || u == 0x3000
}

/// The characters of a text, in order.
pub fn chars_of(s: &str) -> (r: Vec<char>)
    ensures
        r@ == s@,
{
    let mut r: Vec<char> = Vec::new();
    for c in it: s.chars()
        invariant
            it.seq() == s@,
            r@ == s@.take(it.index()),
    {
        proof {
            assert(s@.take(it.index() + 1) =~= s@.take(it.index()).push(c));
        }
        r.push(c);
    }
    assert(s@.take(s@.len() as int) =~= s@);
    r
}

/// The text of the characters `from..to`.
pub fn string_of(cs: &Vec<char>, from: usize, to: usize) -> (r: String)
    requires
        from <= to <= cs@.len(),
    ensures
        r@ == cs@.subrange(from as int, to as int),
{
    let mut r = String::new();
    let mut i: usize = from;
    while i < to
        invariant
            from <= i <= to <= cs@.len(),
            r@ == cs@.subrange(from as int, i as int),
        decreases to - i,
    {
        r.push(cs[i]);
        proof {
            assert(cs@.subrange(from as int, i + 1) =~= cs@.subrange(from as int, i as int).push(
                cs@[i as int],
            ));
        }
        i += 1;
    }
    r
}

/// Do two texts hold the same characters?
pub fn str_eq(a: &str, b: &str) -> (r: bool)
    ensures
        r == (a@ == b@),
{
    let x = a.as_bytes();
    let y = b.as_bytes();
    let n: usize = x.len();
    proof {
        encode_utf8_decode_utf8(a@);
        encode_utf8_decode_utf8(b@);
    }
    if n != y.len() {
        return false;
    }
    let mut i: usize = 0;
    while i < n
        invariant
            n == x@.len(),
            n == y@.len(),
            x@ == encode_utf8(a@),
            y@ == encode_utf8(b@),
            i <= n,
            x@.take(i as int) == y@.take(i as int),
        decreases n - i,
    {
        if x[i] != y[i] {
            return false;
        }
        assert(x@.take(i + 1) =~= x@.take(i as int).push(x@[i as int]));
        assert(y@.take(i + 1) =~= y@.take(i as int).push(y@[i as int]));
        i += 1;
    }
    assert(x@.take(n as int) =~= x@);
    assert(y@.take(n as int) =~= y@);
    true
}

/// How many characters at the front of `s` are not white space.
pub open spec fn word_len(s: Seq<char>) -> nat
    decreases s.len(),
{
    if s.len() == 0 || is_white(s[0]) {
        0
    } else {
        1 + word_len(s.drop_first())
    }
}

/// The maximal runs of characters that are not white space, in order.
pub open spec fn words(s: Seq<char>) -> Seq<Seq<char>>
    decreases s.len(),
    via words_decreases
{
    if s.len() == 0 {
        Seq::empty()
    } else if is_white(s[0]) {
        words(s.drop_first())
    } else {
        seq![s.take(word_len(s) as int)] + words(s.skip(word_len(s) as int))
    }
}

#[via_fn]
proof fn words_decreases(s: Seq<char>) {
    lemma_word_len(s);
}

pub(crate) proof fn lemma_word_len(s: Seq<char>)
    ensures
        word_len(s) <= s.len(),
        forall|i: int| 0 <= i < word_len(s) ==> !is_white(#[trigger] s[i]),
        word_len(s) < s.len() ==> is_white(s[word_len(s) as int]),
        s.len() > 0 && !is_white(s[0]) ==> word_len(s) > 0,
    decreases s.len(),
{
    if s.len() > 0 && !is_white(s[0]) {
        let t = s.drop_first();
        lemma_word_len(t);
        assert forall|i: int| 0 <= i < word_len(s) implies !is_white(#[trigger] s[i]) by {
            if i > 0 {
                assert(s[i] == t[i - 1]);
            }
        }
    }
}

/// A front of `n` characters without white space, ended by white space or the
/// end of the text, is what `word_len` measures.
pub(crate) proof fn lemma_word_len_is(s: Seq<char>, n: nat)
    requires
        n <= s.len(),
        forall|i: int| 0 <= i < n ==> !is_white(#[trigger] s[i]),
        n < s.len() ==> is_white(s[n as int]),
    ensures
        word_len(s) == n,
{
    lemma_word_len(s);
    if word_len(s) < n {
        assert(!is_white(s[word_len(s) as int]));
    }
    if n < word_len(s) {
        assert(!is_white(s[n as int]));
    }
}

/// The words of a text.
pub fn split_whitespace(s: &str) -> (r: Vec<String>)
    ensures
        r.deep_view() == words(s@),
{
    let cs = chars_of(s);
    let mut r: Vec<String> = Vec::new();
    let mut i: usize = 0;
    let n: usize = cs.len();
    assert(cs@.skip(0) =~= cs@);
    assert(r.deep_view() + words(cs@) =~= words(cs@));
    while i < n
        invariant
            n == cs@.len(),
            i <= n,
            r.deep_view() + words(cs@.skip(i as int)) == words(cs@),
        decreases n - i,
    {
        let ghost rest = cs@.skip(i as int);
        if is_whitespace(cs[i]) {
            assert(rest.drop_first() =~= cs@.skip(i + 1));
            i += 1;
        } else {
            let start: usize = i;
            while i < n && !is_whitespace(cs[i])
                invariant
                    n == cs@.len(),
                    start <= i <= n,
                    forall|k: int| start <= k < i ==> !is_white(#[trigger] cs@[k]),
                decreases n - i,
            {
                i += 1;
            }
            let w = string_of(&cs, start, i);
            let ghost before = r.deep_view();
            r.push(w);
            proof {
                lemma_word_len_is(rest, (i - start) as nat);
                assert(rest.take(i - start) =~= w@);
                assert(rest.skip(i - start) =~= cs@.skip(i as int));
                assert(r.deep_view() =~= before.push(w@));
                assert(before.push(w@) + words(cs@.skip(i as int)) =~= before + (seq![w@] + words(
                    cs@.skip(i as int),
                )));
            }
        }
    }
    assert(cs@.skip(n as int) =~= Seq::<char>::empty());
    assert(r.deep_view() + Seq::<Seq<char>>::empty() =~= r.deep_view());
    r
}

/// `s` without the white space at its front.
pub open spec fn trim_start(s: Seq<char>) -> Seq<char>
    decreases s.len(),
{
    if s.len() > 0 && is_white(s[0]) {
        trim_start(s.drop_first())
    } else {
        s
    }
}

/// `s` without the white space at its end.
pub open spec fn trim_end(s: Seq<char>) -> Seq<char>
    decreases s.len(),
{
    if s.len() > 0 && is_white(s.last()) {
        trim_end(s.drop_last())
    } else {
        s
    }
}

/// `s` without the white space at either end.
pub open spec fn trimmed(s: Seq<char>) -> Seq<char> {
    trim_end(trim_start(s))
}

/// Drops the white space at both ends.
pub fn trim(s: &str) -> (r: &str)
    ensures
        r@ == trimmed(s@),
{
    let cs = chars_of(s);
    let n: usize = cs.len();
    let mut i: usize = 0;
    assert(cs@.skip(0) =~= cs@);
    while i < n && is_whitespace(cs[i])
        invariant
            n == cs@.len(),
            i <= n,
            trim_start(cs@.skip(i as int)) == trim_start(cs@),
        decreases n - i,
    {
        assert(cs@.skip(i as int).drop_first() =~= cs@.skip(i + 1));
        i += 1;
    }
    let ghost front = cs@.skip(i as int);
    assert(trim_start(cs@) == front);
    let mut j: usize = n;
    assert(front.take(n - i) =~= front);
    while i < j && is_whitespace(cs[j - 1])
        invariant
            n == cs@.len(),
            i <= j <= n,
            front == cs@.skip(i as int),
            trim_end(front.take(j - i)) == trim_end(front),
        decreases j,
    {
        assert(front.take(j - i).last() == cs@[j - 1]);
        assert(front.take(j - i).drop_last() =~= front.take(j - 1 - i));
        j -= 1;
    }
    proof {
        if i < j {
            assert(front.take(j - i).last() == cs@[j - 1]);
        }
        assert(front.take(j - i) =~= s@.subrange(i as int, j as int));
    }
    s.substring_char(i, j)
}

/// `s` is nothing but white space.
pub open spec fn is_blank(s: Seq<char>) -> bool {
    forall|i: int| 0 <= i < s.len() ==> is_white(#[trigger] s[i])
}

proof fn lemma_blank_front(w: Seq<char>, s: Seq<char>)
    requires
        is_blank(w),
    ensures
        trim_start(w + s) == trim_start(s),
    decreases w.len(),
{
    if w.len() == 0 {
        assert(w + s =~= s);
    } else {
        assert((w + s)[0] == w[0]);
        assert((w + s).drop_first() =~= w.drop_first() + s);
        lemma_blank_front(w.drop_first(), s);
    }
}

proof fn lemma_blank_end(s: Seq<char>, w: Seq<char>)
    requires
        is_blank(w),
    ensures
        trim_end(s + w) == trim_end(s),
    decreases w.len(),
{
    if w.len() == 0 {
        assert(s + w =~= s);
    } else {
        assert((s + w).last() == w.last());
        assert((s + w).drop_last() =~= s + w.drop_last());
        lemma_blank_end(s, w.drop_last());
    }
}

/// What `trim_start` drops, and what it leaves.
pub(crate) proof fn lemma_trim_start(s: Seq<char>) -> (w: Seq<char>)
    ensures
        is_blank(w),
        s == w + trim_start(s),
        trim_start(s).len() > 0 ==> !is_white(trim_start(s)[0]),
    decreases s.len(),
{
    if s.len() > 0 && is_white(s[0]) {
        let w = lemma_trim_start(s.drop_first());
        let v = seq![s[0]] + w;
        assert(s =~= seq![s[0]] + s.drop_first());
        assert(v + trim_start(s) =~= seq![s[0]] + (w + trim_start(s)));
        v
    } else {
        assert(s =~= Seq::<char>::empty() + s);
        Seq::empty()
    }
}

/// What `trim_end` drops, and what it leaves.
pub(crate) proof fn lemma_trim_end(s: Seq<char>) -> (w: Seq<char>)
    ensures
        is_blank(w),
        s == trim_end(s) + w,
        trim_end(s).len() > 0 ==> !is_white(trim_end(s).last()),
    decreases s.len(),
{
    if s.len() > 0 && is_white(s.last()) {
        let w = lemma_trim_end(s.drop_last());
        let v = w.push(s.last());
        assert(s =~= s.drop_last().push(s.last()));
        assert(trim_end(s) + v =~= (trim_end(s) + w).push(s.last()));
        v
    } else {
        assert(s =~= s + Seq::<char>::empty());
        Seq::empty()
    }
}

/// White space around a text is trimmed with it.
pub proof fn white_space_around_is_trimmed(w: Seq<char>, s: Seq<char>, v: Seq<char>)
    requires
        is_blank(w),
        is_blank(v),
    ensures
        trimmed(w + s + v) == trimmed(s),
{
    assert(w + s + v =~= w + (s + v));
    lemma_blank_front(w, s + v);
    let u = lemma_trim_start(s);
    let inner = trim_start(s);
    assert(s + v =~= u + (inner + v));
    lemma_blank_front(u, inner + v);
    if inner.len() == 0 {
        assert(inner + v =~= v + Seq::<char>::empty());
        lemma_blank_front(v, Seq::empty());
        assert(inner =~= Seq::<char>::empty());
    } else {
        assert((inner + v)[0] == inner[0]);
        lemma_blank_end(inner, v);
    }
}

/// A text around a character that is not white space keeps it, and what stands
/// between it and the white space at the ends.
pub(crate) proof fn lemma_trimmed_around(a: Seq<char>, c: char, b: Seq<char>)
    requires
        !is_white(c),
    ensures
        trimmed(a.push(c) + b) == trim_start(a).push(c) + trim_end(b),
        trimmed(trim_start(a)) == trimmed(a),
        trimmed(trim_end(b)) == trimmed(b),
{
    let none = Seq::<char>::empty();
    let w = lemma_trim_start(a);
    let v = lemma_trim_end(b);
    let x = trim_start(a);
    let y = trim_end(b);
    assert(w + x + none =~= a);
    white_space_around_is_trimmed(w, x, none);
    assert(none + y + v =~= b);
    white_space_around_is_trimmed(none, y, v);
    let inner = x.push(c) + y;
    assert(a.push(c) + b =~= w + inner + v);
    white_space_around_is_trimmed(w, inner, v);
    assert(!is_white(inner[0]));
    assert(!is_white(inner.last()));
}

/// The place of the first `c` in `s`, or the length of `s` where there is none.
pub open spec fn first_of(s: Seq<char>, c: char) -> nat
    decreases s.len(),
{
    if s.len() == 0 || s[0] == c {
        0
    } else {
        1 + first_of(s.drop_first(), c)
    }
}

pub(crate) proof fn lemma_first_of(s: Seq<char>, c: char)
    ensures
        first_of(s, c) <= s.len(),
        forall|i: int| 0 <= i < first_of(s, c) ==> #[trigger] s[i] != c,
        first_of(s, c) < s.len() ==> s[first_of(s, c) as int] == c,
    decreases s.len(),
{
    if s.len() > 0 && s[0] != c {
        let t = s.drop_first();
        lemma_first_of(t, c);
        assert forall|i: int| 0 <= i < first_of(s, c) implies #[trigger] s[i] != c by {
            if i > 0 {
                assert(s[i] == t[i - 1]);
            }
        }
    }
}

pub(crate) proof fn lemma_first_of_is(s: Seq<char>, c: char, n: nat)
    requires
        n <= s.len(),
        forall|i: int| 0 <= i < n ==> #[trigger] s[i] != c,
        n < s.len() ==> s[n as int] == c,
    ensures
        first_of(s, c) == n,
{
    lemma_first_of(s, c);
    if first_of(s, c) < n {
        assert(s[first_of(s, c) as int] != c);
    }
    if n < first_of(s, c) {
        assert(s[n as int] != c);
    }
}

/// Finds the first `c` of a text, by its place among the characters.
pub fn find_char(s: &str, c: char) -> (r: Option<usize>)
    ensures
        match r {
            Some(i) => i < s@.len() && i == first_of(s@, c),
            None => first_of(s@, c) == s@.len(),
        },
{
    let cs = chars_of(s);
    let n: usize = cs.len();
    let mut i: usize = 0;
    while i < n
        invariant
            n == cs@.len(),
            cs@ == s@,
            i <= n,
            forall|k: int| 0 <= k < i ==> #[trigger] cs@[k] != c,
        decreases n - i,
    {
        if cs[i] == c {
            proof {
                lemma_first_of_is(s@, c, i as nat);
            }
            return Some(i);
        }
        i += 1;
    }
    proof {
        lemma_first_of_is(s@, c, n as nat);
    }
    None
}

/// The parts of `s` between the separators `sep`: one more than there are
/// separators.
pub open spec fn split_at_char(s: Seq<char>, sep: char) -> Seq<Seq<char>>
    decreases s.len(),
    via split_at_char_decreases
{
    if first_of(s, sep) == s.len() {
        seq![s]
    } else {
        seq![s.take(first_of(s, sep) as int)] + split_at_char(
            s.skip(first_of(s, sep) as int + 1),
            sep,
        )
    }
}

#[via_fn]
proof fn split_at_char_decreases(s: Seq<char>, sep: char) {
    lemma_first_of(s, sep);
}

/// A separator ends a part.
pub(crate) proof fn lemma_split_behind(s: Seq<char>, sep: char, part: Seq<char>)
    requires
        !part.contains(sep),
    ensures
        split_at_char(s.push(sep) + part, sep) == split_at_char(s, sep).push(part),
    decreases s.len(),
{
    let all = s.push(sep) + part;
    lemma_first_of(s, sep);
    let k = first_of(s, sep);
    assert forall|i: int| 0 <= i < k implies #[trigger] all[i] != sep by {
        assert(all[i] == s[i]);
    }
    lemma_first_of_is(all, sep, k);
    assert(all.take(k as int) =~= s.take(k as int));
    if k == s.len() {
        assert(s.take(k as int) =~= s);
        assert(all.skip(k as int + 1) =~= part);
        assert forall|i: int| 0 <= i < part.len() implies #[trigger] part[i] != sep by {
            assert(part.contains(part[i]));
        }
        lemma_first_of_is(part, sep, part.len());
        assert(split_at_char(part, sep) == seq![part]);
        assert(split_at_char(s, sep) == seq![s]);
        assert(seq![s] + seq![part] =~= seq![s].push(part));
    } else {
        let rest = s.skip(k as int + 1);
        assert(all.skip(k as int + 1) =~= rest.push(sep) + part);
        lemma_split_behind(rest, sep, part);
        let head = seq![s.take(k as int)];
        assert(split_at_char(s, sep) == head + split_at_char(rest, sep));
        assert(head + split_at_char(rest, sep).push(part) =~= (head + split_at_char(rest, sep)).push(
            part,
        ));
    }
}

/// Splitting at a separator gives back the parts that were joined by it.
pub proof fn splitting_undoes_joining(parts: Seq<Seq<char>>, sep: char)
    requires
        parts.len() > 0,
        forall|i: int| 0 <= i < parts.len() ==> !(#[trigger] parts[i]).contains(sep),
    ensures
        split_at_char(joined(parts, seq![sep]), sep) == parts,
    decreases parts.len(),
{
    if parts.len() == 1 {
        let s = parts[0];
        assert forall|i: int| 0 <= i < s.len() implies #[trigger] s[i] != sep by {
            assert(s.contains(s[i]));
        }
        lemma_first_of_is(s, sep, s.len());
        assert(parts =~= seq![s]);
    } else {
        let front = parts.drop_last();
        splitting_undoes_joining(front, sep);
        lemma_split_behind(joined(front, seq![sep]), sep, parts.last());
        assert(joined(front, seq![sep]) + seq![sep] =~= joined(front, seq![sep]).push(sep));
        assert(front.push(parts.last()) =~= parts);
    }
}

/// Splits a text at each `sep`.
pub fn split_char(s: &str, sep: char) -> (r: Vec<String>)
    ensures
        r.deep_view() == split_at_char(s@, sep),
{
    let cs = chars_of(s);
    let n: usize = cs.len();
    let mut r: Vec<String> = Vec::new();
    let mut start: usize = 0;
    let mut i: usize = 0;
    assert(cs@.skip(0) =~= cs@);
    assert(r.deep_view() + split_at_char(cs@, sep) =~= split_at_char(cs@, sep));
    while i < n
        invariant
            n == cs@.len(),
            start <= i <= n,
            forall|k: int| start <= k < i ==> #[trigger] cs@[k] != sep,
            r.deep_view() + split_at_char(cs@.skip(start as int), sep) == split_at_char(cs@, sep),
        decreases n - i,
    {
        if cs[i] == sep {
            let ghost rest = cs@.skip(start as int);
            let w = string_of(&cs, start, i);
            let ghost before = r.deep_view();
            r.push(w);
            proof {
                lemma_first_of_is(rest, sep, (i - start) as nat);
                assert(rest.take(i - start) =~= w@);
                assert(rest.skip(i - start + 1) =~= cs@.skip(i + 1));
                assert(r.deep_view() =~= before.push(w@));
                let tail = split_at_char(cs@.skip(i + 1), sep);
                assert(before.push(w@) + tail =~= before + (seq![w@] + tail));
            }
            start = i + 1;
        }
        i += 1;
    }
    let ghost rest = cs@.skip(start as int);
    let w = string_of(&cs, start, n);
    let ghost before = r.deep_view();
    r.push(w);
    proof {
        lemma_first_of_is(rest, sep, rest.len());
        assert(rest =~= w@);
        assert(r.deep_view() =~= before + seq![w@]);
    }
    r
}

/// `A`–`Z` as `a`–`z`; every other character as it is.
pub open spec fn ascii_lower(c: char) -> char {
    if 'A' <= c <= 'Z' {
        ((c as u32) + 32) as char
    } else {
        c
    }
}

/// `ascii_lower`, character by character.
pub open spec fn ascii_lowered(s: Seq<char>) -> Seq<char> {
    Seq::new(s.len(), |i: int| ascii_lower(s[i]))
}

/// A text in lower case.
pub open spec fn lowered(s: Seq<char>) -> Seq<char> {
    if vstd::utf8::is_ascii_chars(s) {
        ascii_lowered(s)
    } else {
        unicode_lowercase(s)
    }
}

pub(crate) fn lower_ascii_char(c: char) -> (r: char)
    ensures
        r == ascii_lower(c),
{
    match c {
        'A' => 'a',
        'B' => 'b',
        'C' => 'c',
        'D' => 'd',
        'E' => 'e',
        'F' => 'f',
        'G' => 'g',
        'H' => 'h',
        'I' => 'i',
        'J' => 'j',
        'K' => 'k',
        'L' => 'l',
        'M' => 'm',
        'N' => 'n',
        'O' => 'o',
        'P' => 'p',
        'Q' => 'q',
        'R' => 'r',
        'S' => 's',
        'T' => 't',
        'U' => 'u',
        'V' => 'v',
        'W' => 'w',
        'X' => 'x',
        'Y' => 'y',
        'Z' => 'z',
        _ => c,
    }
}

fn lower_ascii(s: &str) -> (r: String)
    ensures
        r@ == ascii_lowered(s@),
{
    let cs = chars_of(s);
    let n: usize = cs.len();
    let mut r = String::new();
    let mut i: usize = 0;
    while i < n
        invariant
            n == cs@.len(),
            i <= n,
            r@ == ascii_lowered(cs@.take(i as int)),
        decreases n - i,
    {
        r.push(lower_ascii_char(cs[i]));
        proof {
            assert(ascii_lowered(cs@.take(i + 1)) =~= ascii_lowered(cs@.take(i as int)).push(
                ascii_lower(cs@[i as int]),
            ));
        }
        i += 1;
    }
    assert(cs@.take(n as int) =~= cs@);
    r
}

/// A text in lower case.
pub fn lowercase(s: &str) -> (r: String)
    ensures
        r@ == lowered(s@),
{
    if s.is_ascii() {
        lower_ascii(s)
    } else {
        lowercase_unicode(s)
    }
}

/// Equal but for the case of ASCII letters.
pub open spec fn same_but_case(a: Seq<char>, b: Seq<char>) -> bool {
    ascii_lowered(a) == ascii_lowered(b)
}

/// Texts of ASCII that are equal but for their case are the same in lower case.
pub proof fn lower_case_has_no_case(a: Seq<char>, b: Seq<char>)
    requires
        vstd::utf8::is_ascii_chars(a),
        same_but_case(a, b),
    ensures
        lowered(a) == lowered(b),
{
    assert(ascii_lowered(a).len() == ascii_lowered(b).len());
    assert forall|i: int| 0 <= i < b.len() implies '\0' <= #[trigger] b[i] <= '\u{7f}' by {
        assert('\0' <= a[i] <= '\u{7f}');
        assert(ascii_lowered(a)[i] == ascii_lowered(b)[i]);
    }
}

/// Are two texts equal but for the case of ASCII letters?
pub fn eq_ignore_ascii_case(a: &str, b: &str) -> (r: bool)
    ensures
        r == same_but_case(a@, b@),
{
    lower_ascii(a) == lower_ascii(b)
}

/// `s` ends in `suffix`.
pub open spec fn has_suffix(s: Seq<char>, suffix: Seq<char>) -> bool {
    suffix.len() <= s.len() && s.skip(s.len() - suffix.len()) == suffix
}

/// What stands before `suffix` at the end of a text.
pub fn strip_suffix<'a>(s: &'a str, suffix: &str) -> (r: Option<&'a str>)
    ensures
        match r {
            Some(front) => has_suffix(s@, suffix@) && front@ == s@.take(s@.len() - suffix@.len()),
            None => !has_suffix(s@, suffix@),
        },
{
    let n: usize = s.unicode_len();
    let m: usize = suffix.unicode_len();
    if m > n {
        return None;
    }
    assert(s@.subrange(n - m, n as int) =~= s@.skip(n - m));
    if str_eq(s.substring_char(n - m, n), suffix) {
        assert(s@.subrange(0, n - m) =~= s@.take(n - m));
        Some(s.substring_char(0, n - m))
    } else {
        None
    }
}

/// The parts in order, with `sep` between each two.
pub open spec fn joined(parts: Seq<Seq<char>>, sep: Seq<char>) -> Seq<char>
    decreases parts.len(),
{
    if parts.len() == 0 {
        Seq::empty()
    } else if parts.len() == 1 {
        parts[0]
    } else {
        joined(parts.drop_last(), sep) + sep + parts.last()
    }
}

/// Puts `sep` between the parts.
pub fn join(parts: &Vec<String>, sep: &str) -> (r: String)
    ensures
        r@ == joined(parts.deep_view(), sep@),
{
    let n: usize = parts.len();
    let mut r = String::new();
    let mut i: usize = 0;
    let ghost all = parts.deep_view();
    assert(all.take(0) =~= Seq::empty());
    while i < n
        invariant
            n == parts@.len(),
            all == parts.deep_view(),
            i <= n,
            r@ == joined(all.take(i as int), sep@),
        decreases n - i,
    {
        let ghost before = r@;
        assert(all.take(i + 1).drop_last() =~= all.take(i as int));
        assert(all.take(i + 1).last() == all[i as int]);
        if i > 0 {
            r.append(sep);
        }
        r.append(parts[i].as_str());
        assert(Seq::<char>::empty() + all[i as int] =~= all[i as int]);
        i += 1;
    }
    assert(all.take(n as int) =~= all);
    r
}

/// The decimal digit `d`.
pub open spec fn digit(d: nat) -> char {
    ((48 + d) as u32) as char
}

/// A number in decimal, without leading zeros.
pub open spec fn decimal_text(n: nat) -> Seq<char>
    decreases n,
{
    if n < 10 {
        seq![digit(n)]
    } else {
        decimal_text(n / 10).push(digit(n % 10))
    }
}

fn digit_char(d: u64) -> (r: char)
    requires
        d < 10,
    ensures
        r == digit(d as nat),
{
    match d {
        0 => '0',
        1 => '1',
        2 => '2',
        3 => '3',
        4 => '4',
        5 => '5',
        6 => '6',
        7 => '7',
        8 => '8',
        _ => '9',
    }
}

/// Writes a number in decimal.
pub fn decimal(n: u64) -> (r: String)
    ensures
        r@ == decimal_text(n as nat),
    decreases n,
{
    let mut r = if n < 10 {
        String::new()
    } else {
        decimal(n / 10)
    };
    r.push(digit_char(n % 10));
    proof {
        if n < 10 {
            assert(Seq::<char>::empty().push(digit(n as nat)) =~= seq![digit(n as nat)]);
        }
    }
    r
}

/// `c` is one of the ASCII digits.
pub open spec fn is_digit(c: char) -> bool {
    '0' <= c <= '9'
}

/// The number that the decimal digits of `s` spell.
pub open spec fn digits_value(s: Seq<char>) -> nat
    decreases s.len(),
{
    if s.len() == 0 {
        0
    } else {
        10 * digits_value(s.drop_last()) + ((s.last() as u32) - 48) as nat
    }
}

/// The digits of a numeral: an optional `+` in front does not count.
pub open spec fn numeral_digits(s: Seq<char>) -> Seq<char> {
    if s.len() > 0 && s[0] == '+' {
        s.drop_first()
    } else {
        s
    }
}

/// The `u64` that `s` writes: an optional `+`, at least one digit, nothing
/// else, and no more than the type holds.
pub open spec fn u64_value(s: Seq<char>) -> Option<u64> {
    let d = numeral_digits(s);
    if d.len() > 0 && (forall|i: int| 0 <= i < d.len() ==> is_digit(#[trigger] d[i]))
        && digits_value(d) <= u64::MAX {
        Some(digits_value(d) as u64)
    } else {
        None
    }
}

proof fn lemma_digits_value_grows(s: Seq<char>, n: int)
    requires
        0 <= n <= s.len(),
    ensures
        digits_value(s.take(n)) <= digits_value(s),
    decreases s.len() - n,
{
    if n < s.len() {
        lemma_digits_value_grows(s, n + 1);
        assert(s.take(n + 1).drop_last() =~= s.take(n));
    } else {
        assert(s.take(n) =~= s);
    }
}

/// Reads an unsigned decimal number.
pub fn parse_u64(s: &str) -> (r: Option<u64>)
    ensures
        r == u64_value(s@),
{
    let cs = chars_of(s);
    let n: usize = cs.len();
    let start: usize = if n > 0 && cs[0] == '+' {
        1
    } else {
        0
    };
    let ghost d = numeral_digits(s@);
    assert(d =~= cs@.skip(start as int));
    if start == n {
        return None;
    }
    let mut v: u64 = 0;
    let mut i: usize = start;
    assert(d.take(0) =~= Seq::empty());
    while i < n
        invariant
            n == cs@.len(),
            start <= i <= n,
            d == numeral_digits(s@),
            d == cs@.skip(start as int),
            v == digits_value(d.take(i - start)),
            forall|k: int| 0 <= k < i - start ==> is_digit(#[trigger] d[k]),
        decreases n - i,
    {
        let c = cs[i];
        assert(d[i - start] == c);
        if !('0' <= c && c <= '9') {
            return None;
        }
        assert(d.take(i + 1 - start).drop_last() =~= d.take(i - start));
        assert(d.take(i + 1 - start).last() == c);
        let k: u64 = (c as u32 - 48) as u64;
        proof {
            lemma_digits_value_grows(d, i + 1 - start);
        }
        let tens: u64 = match v.checked_mul(10) {
            Some(t) => t,
            None => {
                return None;
            },
        };
        v = match tens.checked_add(k) {
            Some(t) => t,
            None => {
                return None;
            },
        };
        i += 1;
    }
    assert(d.take(n - start) =~= d);
    Some(v)
}

/// `n` blanks.
pub open spec fn blanks(n: nat) -> Seq<char> {
    Seq::new(n, |i: int| ' ')
}

/// How many blanks bring a text to `width` characters.
pub open spec fn gap(s: Seq<char>, width: nat) -> nat {
    if s.len() < width {
        (width - s.len()) as nat
    } else {
        0
    }
}

/// `s`, filled with blanks on its right to `width` characters.
pub open spec fn left_aligned(s: Seq<char>, width: nat) -> Seq<char> {
    s + blanks(gap(s, width))
}

/// `s`, filled with blanks on its left to `width` characters.
pub open spec fn right_aligned(s: Seq<char>, width: nat) -> Seq<char> {
    blanks(gap(s, width)) + s
}

fn push_gap(out: &mut String, s: &str, width: usize)
    ensures
        final(out)@ == old(out)@ + blanks(gap(s@, width as nat)),
{
    let n: usize = s.unicode_len();
    let mut i: usize = n;
    let ghost before = out@;
    assert(before + blanks(0) =~= before);
    while i < width
        invariant
            n == s@.len(),
            n <= i,
            i <= width || i == n,
            out@ == before + blanks((i - n) as nat),
        decreases width - i,
    {
        out.push(' ');
        assert(before + blanks((i + 1 - n) as nat) =~= (before + blanks((i - n) as nat)).push(' '));
        i += 1;
    }
}

/// Appends `s`, filled with blanks on its right to `width` characters.
pub fn push_left_aligned(out: &mut String, s: &str, width: usize)
    ensures
        final(out)@ == old(out)@ + left_aligned(s@, width as nat),
{
    let ghost before = out@;
    out.append(s);
    push_gap(out, s, width);
    assert(before + s@ + blanks(gap(s@, width as nat)) =~= before + left_aligned(s@, width as nat));
}

/// Appends `s`, filled with blanks on its left to `width` characters.
pub fn push_right_aligned(out: &mut String, s: &str, width: usize)
    ensures
        final(out)@ == old(out)@ + right_aligned(s@, width as nat),
{
    let ghost before = out@;
    push_gap(out, s, width);
    out.append(s);
    assert(before + blanks(gap(s@, width as nat)) + s@ =~= before + right_aligned(s@, width as nat));
}

/// `a` comes before `b` in the order of the code points.
pub open spec fn comes_before(a: Seq<char>, b: Seq<char>) -> bool
    decreases a.len(),
{
    if b.len() == 0 {
        false
    } else if a.len() == 0 {
        true
    } else {
        a[0] < b[0] || (a[0] == b[0] && comes_before(a.drop_first(), b.drop_first()))
    }
}

pub(crate) proof fn lemma_order_is_total(a: Seq<char>, b: Seq<char>)
    ensures
        comes_before(a, b) || comes_before(b, a) || a == b,
        !(comes_before(a, b) && comes_before(b, a)),
        comes_before(a, b) ==> a != b,
    decreases a.len(),
{
    if a.len() > 0 && b.len() > 0 {
        lemma_order_is_total(a.drop_first(), b.drop_first());
        if a[0] == b[0] && a.drop_first() == b.drop_first() {
            assert(a =~= seq![a[0]] + a.drop_first());
            assert(b =~= seq![b[0]] + b.drop_first());
        }
    } else if a.len() == 0 && b.len() == 0 {
        assert(a =~= b);
    }
}

pub(crate) proof fn lemma_order_is_transitive(a: Seq<char>, b: Seq<char>, c: Seq<char>)
    requires
        comes_before(a, b),
        comes_before(b, c),
    ensures
        comes_before(a, c),
    decreases a.len(),
{
    if a.len() > 0 && b.len() > 0 && c.len() > 0 && a[0] == b[0] && b[0] == c[0] {
        lemma_order_is_transitive(a.drop_first(), b.drop_first(), c.drop_first());
    }
}

/// Does `a` come before `b`?
pub fn precedes(a: &str, b: &str) -> (r: bool)
    ensures
        r == comes_before(a@, b@),
{
    let x = chars_of(a);
    let y = chars_of(b);
    let n: usize = x.len();
    let m: usize = y.len();
    let mut i: usize = 0;
    assert(x@.skip(0) =~= x@);
    assert(y@.skip(0) =~= y@);
    while i < n && i < m && x[i] == y[i]
        invariant
            n == x@.len(),
            m == y@.len(),
            i <= n,
            i <= m,
            comes_before(x@.skip(i as int), y@.skip(i as int)) == comes_before(x@, y@),
        decreases n - i,
    {
        assert(x@.skip(i as int).drop_first() =~= x@.skip(i + 1));
        assert(y@.skip(i as int).drop_first() =~= y@.skip(i + 1));
        i += 1;
    }
    if i >= m {
        false
    } else if i >= n {
        true
    } else {
        x[i] < y[i]
    }
}

/// Each text comes before those behind it.
pub open spec fn ascending(v: Seq<Seq<char>>) -> bool {
    forall|i: int, j: int| 0 <= i < j < v.len() ==> comes_before(#[trigger] v[i], #[trigger] v[j])
}

/// Puts a text in its place among texts in order, unless it is there.
pub fn insert_ascending(v: &mut Vec<String>, s: &str)
    requires
        ascending(old(v).deep_view()),
    ensures
        ascending(final(v).deep_view()),
        forall|t: Seq<char>|
            final(v).deep_view().contains(t) <==> old(v).deep_view().contains(t) || t == s@,
{
    let ghost was = v.deep_view();
    let n: usize = v.len();
    let mut i: usize = 0;
    while i < n && precedes(v[i].as_str(), s)
        invariant
            n == v@.len(),
            was == v.deep_view(),
            i <= n,
            forall|k: int| 0 <= k < i ==> comes_before(#[trigger] was[k], s@),
        decreases n - i,
    {
        assert(was[i as int] == v@[i as int]@);
        i += 1;
    }
    if i < n && str_eq(v[i].as_str(), s) {
        assert(was[i as int] == s@);
        return;
    }
    v.insert(i, s.to_owned());
    proof {
        let now = v.deep_view();
        assert(now =~= was.insert(i as int, s@));
        if i < n {
            assert(was[i as int] == v@[i + 1]@);
            lemma_order_is_total(was[i as int], s@);
        }
        assert forall|a: int, b: int| 0 <= a < b < now.len() implies comes_before(
            #[trigger] now[a],
            #[trigger] now[b],
        ) by {
            if a < i && b > i {
                assert(now[a] == was[a] && now[b] == was[b - 1]);
            } else if a > i {
                assert(now[a] == was[a - 1] && now[b] == was[b - 1]);
            } else if a == i {
                assert(now[b] == was[b - 1]);
                if b - 1 > i {
                    lemma_order_is_transitive(s@, was[i as int], was[b - 1]);
                }
            } else if b < i {
                assert(now[a] == was[a] && now[b] == was[b]);
            }
        }
        assert forall|t: Seq<char>| now.contains(t) <==> was.contains(t) || t == s@ by {
            if now.contains(t) {
                let k = now.index_of(t);
                if k < i {
                    assert(was[k] == t);
                } else if k > i {
                    assert(was[k - 1] == t);
                }
            }
            if was.contains(t) {
                let k = was.index_of(t);
                if k < i {
                    assert(now[k] == t);
                } else {
                    assert(now[k + 1] == t);
                }
            }
            assert(now[i as int] == s@);
        }
    }
}

} // verus!
