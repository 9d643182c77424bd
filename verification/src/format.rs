//! How numbers, names and strings stand in a report.

use crate::double::Double;
use crate::text::{chars_of, join, joined};
use vstd::prelude::*;
use vstd::string::*;

verus! {

/// The bits of 10^-3.
pub const MILLI_BITS: u64 = 0x3f50_624d_d2f1_a9fc;

/// The bits of 10^-6.
pub const MICRO_BITS: u64 = 0x3eb0_c6f7_a0b5_ed8d;

/// The bits of 10^-9.
pub const NANO_BITS: u64 = 0x3e11_2e0b_e826_d695;

/// The prefix that a quantity is shown with.
#[derive(Clone, Copy, Debug, PartialEq, Eq, Structural)]
pub enum Prefix {
    Milli,
    Micro,
    Nano,
    Pico,
    /// None at all: the quantity is zero.
    Zero,
}

/// The prefix that fits a quantity: the largest that it reaches, whatever its
/// sign.
pub open spec fn prefix_of(x: Double) -> Prefix {
    let a = x.absolute();
    if (Double { bits: MILLI_BITS }).at_most(a) {
        Prefix::Milli
    } else if (Double { bits: MICRO_BITS }).at_most(a) {
        Prefix::Micro
    } else if (Double { bits: NANO_BITS }).at_most(a) {
        Prefix::Nano
    } else if a.bits == 0 {
        Prefix::Zero
    } else {
        Prefix::Pico
    }
}

/// Picks the prefix that fits a quantity.
pub fn fitting_prefix(x: Double) -> (r: Prefix)
    ensures
        r == prefix_of(x),
{
    let a = x.abs();
    if (Double { bits: MILLI_BITS }).le(&a) {
        Prefix::Milli
    } else if (Double { bits: MICRO_BITS }).le(&a) {
        Prefix::Micro
    } else if (Double { bits: NANO_BITS }).le(&a) {
        Prefix::Nano
    } else if a.bits == 0 {
        Prefix::Zero
    } else {
        Prefix::Pico
    }
}

/// A quantity, and its digits in the prefix that fits it, with three decimals.
#[derive(Debug)]
pub struct Quantity {
    pub value: Double,
    pub digits: String,
}

/// A power as it is shown.
pub open spec fn watts_text(q: Quantity) -> Seq<char> {
    match prefix_of(q.value) {
        Prefix::Milli => q.digits@ + " mW"@,
        Prefix::Micro => q.digits@ + " uW"@,
        Prefix::Nano => q.digits@ + " nW"@,
        Prefix::Zero => "0"@,
        Prefix::Pico => q.digits@ + " pW"@,
    }
}

/// A current as it is shown.
pub open spec fn amps_text(q: Quantity) -> Seq<char> {
    match prefix_of(q.value) {
        Prefix::Milli => q.digits@ + " mA"@,
        Prefix::Micro => q.digits@ + " uA"@,
        Prefix::Nano => q.digits@ + " nA"@,
        Prefix::Zero => "0"@,
        Prefix::Pico => q.digits@ + " pA"@,
    }
}

/// Shows a power.
pub fn fmt_w(q: &Quantity) -> (r: String)
    ensures
        r@ == watts_text(*q),
{
    let mut s = q.digits.clone();
    match fitting_prefix(q.value) {
        Prefix::Milli => s.append(" mW"),
        Prefix::Micro => s.append(" uW"),
        Prefix::Nano => s.append(" nW"),
        Prefix::Zero => {
            return "0".to_owned();
        },
        Prefix::Pico => s.append(" pW"),
    }
    s
}

/// Shows a current.
pub fn fmt_a(q: &Quantity) -> (r: String)
    ensures
        r@ == amps_text(*q),
{
    let mut s = q.digits.clone();
    match fitting_prefix(q.value) {
        Prefix::Milli => s.append(" mA"),
        Prefix::Micro => s.append(" uA"),
        Prefix::Nano => s.append(" nA"),
        Prefix::Zero => {
            return "0".to_owned();
        },
        Prefix::Pico => s.append(" pA"),
    }
    s
}

/// How many bytes a character takes in UTF-8.
pub open spec fn char_bytes(c: char) -> nat {
    if (c as u32) < 0x80 {
        1
    } else if (c as u32) < 0x800 {
        2
    } else if (c as u32) < 0x10000 {
        3
    } else {
        4
    }
}

/// How many bytes a text takes in UTF-8.
pub open spec fn text_bytes(s: Seq<char>) -> nat
    decreases s.len(),
{
    if s.len() == 0 {
        0
    } else {
        char_bytes(s[0]) + text_bytes(s.drop_first())
    }
}

/// How many characters at the front of `s` are whole within `n` bytes.
pub open spec fn chars_within(s: Seq<char>, n: nat) -> nat
    decreases s.len(),
{
    if s.len() == 0 || char_bytes(s[0]) > n {
        0
    } else {
        1 + chars_within(s.drop_first(), (n - char_bytes(s[0])) as nat)
    }
}

/// `s` can be cut to `n` bytes without cutting through a character.
pub open spec fn cuts_between_chars(s: Seq<char>, n: nat) -> bool {
    text_bytes(s.take(chars_within(s, n) as int)) == n
}

/// The bytes that a cut column keeps of a text: one less than it is wide.
pub open spec fn kept_bytes(n: nat) -> nat {
    if n == 0 {
        0
    } else {
        (n - 1) as nat
    }
}

/// The text fits a column of `n` bytes, or can be cut for it.
pub open spec fn fits_column(s: Seq<char>, n: nat) -> bool {
    text_bytes(s) <= n || cuts_between_chars(s, kept_bytes(n))
}

/// A text in a column of `n` bytes: as it is, or cut, with an ellipsis.
pub open spec fn column_text(s: Seq<char>, n: nat) -> Seq<char> {
    if text_bytes(s) <= n {
        s
    } else {
        s.take(chars_within(s, kept_bytes(n)) as int) + "…"@
    }
}

proof fn lemma_chars_within(s: Seq<char>, n: nat)
    ensures
        chars_within(s, n) <= s.len(),
        chars_within(s, n) == s.len() <==> text_bytes(s) <= n,
    decreases s.len(),
{
    if s.len() > 0 && char_bytes(s[0]) <= n {
        lemma_chars_within(s.drop_first(), (n - char_bytes(s[0])) as nat);
    }
}

fn bytes_of(c: char) -> (r: usize)
    ensures
        r == char_bytes(c),
{
    let u: u32 = c as u32;
    if u < 0x80 {
        1
    } else if u < 0x800 {
        2
    } else if u < 0x10000 {
        3
    } else {
        4
    }
}

proof fn lemma_text_bytes_push(s: Seq<char>, c: char)
    ensures
        text_bytes(s.push(c)) == text_bytes(s) + char_bytes(c),
    decreases s.len(),
{
    reveal_with_fuel(text_bytes, 2);
    if s.len() == 0 {
        assert(s.push(c).drop_first() =~= Seq::<char>::empty());
    } else {
        assert(s.push(c).drop_first() =~= s.drop_first().push(c));
        lemma_text_bytes_push(s.drop_first(), c);
    }
}

/// How many characters are whole within `n` bytes, and how many bytes they leave.
fn whole_chars(cs: &Vec<char>, n: usize) -> (r: (usize, usize))
    ensures
        r.0 == chars_within(cs@, n as nat),
        r.0 <= cs@.len(),
        text_bytes(cs@.take(r.0 as int)) + r.1 == n,
{
    let len: usize = cs.len();
    let mut left: usize = n;
    let mut i: usize = 0;
    assert(cs@.skip(0) =~= cs@);
    assert(cs@.take(0) =~= Seq::<char>::empty());
    while i < len && bytes_of(cs[i]) <= left
        invariant
            len == cs@.len(),
            i <= len,
            i + chars_within(cs@.skip(i as int), left as nat) == chars_within(cs@, n as nat),
            text_bytes(cs@.take(i as int)) + left == n,
        decreases len - i,
    {
        proof {
            assert(cs@.skip(i as int).drop_first() =~= cs@.skip(i + 1));
            assert(cs@.take(i + 1) =~= cs@.take(i as int).push(cs@[i as int]));
            lemma_text_bytes_push(cs@.take(i as int), cs@[i as int]);
        }
        left -= bytes_of(cs[i]);
        i += 1;
    }
    (i, left)
}

fn kept(n: usize) -> (r: usize)
    ensures
        r == kept_bytes(n as nat),
{
    if n == 0 {
        0
    } else {
        n - 1
    }
}

/// Does the text fit a column of `n` bytes, or can it be cut for it?
pub fn column_fits(s: &str, n: usize) -> (r: bool)
    ensures
        r == fits_column(s@, n as nat),
{
    let cs = chars_of(s);
    let (whole, _) = whole_chars(&cs, n);
    proof {
        lemma_chars_within(s@, n as nat);
    }
    if whole == cs.len() {
        return true;
    }
    let (_, left) = whole_chars(&cs, kept(n));
    left == 0
}

/// Cuts a text for a column of `n` bytes.
pub fn trunc(s: &str, n: usize) -> (r: String)
    requires
        fits_column(s@, n as nat),
    ensures
        r@ == column_text(s@, n as nat),
{
    let cs = chars_of(s);
    let (whole, _) = whole_chars(&cs, n);
    proof {
        lemma_chars_within(s@, n as nat);
    }
    if whole == cs.len() {
        return s.to_owned();
    }
    let (k, _) = whole_chars(&cs, kept(n));
    let mut r = s.substring_char(0, k).to_owned();
    assert(s@.subrange(0, k as int) =~= s@.take(k as int));
    r.append("…");
    r
}

/// A character inside a JSON string.
pub open spec fn escaped(c: char) -> Seq<char> {
    if c == '"' {
        "\\\""@
    } else if c == '\\' {
        "\\\\"@
    } else if c == '\n' {
        "\\n"@
    } else {
        seq![c]
    }
}

/// The characters of a text inside a JSON string.
pub open spec fn all_escaped(s: Seq<char>) -> Seq<char>
    decreases s.len(),
{
    if s.len() == 0 {
        Seq::empty()
    } else {
        all_escaped(s.drop_last()) + escaped(s.last())
    }
}

/// A text as a JSON string.
pub open spec fn json_text(s: Seq<char>) -> Seq<char> {
    "\""@ + all_escaped(s) + "\""@
}

/// Writes a text as a JSON string.
pub fn jstr(s: &str) -> (r: String)
    ensures
        r@ == json_text(s@),
{
    let cs = chars_of(s);
    let n: usize = cs.len();
    let mut o = "\"".to_owned();
    let ghost head = o@;
    let mut i: usize = 0;
    assert(cs@.take(0) =~= Seq::<char>::empty());
    assert(head + Seq::<char>::empty() =~= head);
    while i < n
        invariant
            n == cs@.len(),
            i <= n,
            o@ == head + all_escaped(cs@.take(i as int)),
        decreases n - i,
    {
        let c = cs[i];
        let ghost before = o@;
        if c == '"' {
            o.append("\\\"");
        } else if c == '\\' {
            o.append("\\\\");
        } else if c == '\n' {
            o.append("\\n");
        } else {
            o.push(c);
            assert(before.push(c) =~= before + seq![c]);
        }
        proof {
            let t = cs@.take(i + 1);
            assert(t.drop_last() =~= cs@.take(i as int));
            assert(o@ =~= before + escaped(c));
            assert(head + all_escaped(cs@.take(i as int)) + escaped(c) =~= head + all_escaped(t));
        }
        i += 1;
    }
    assert(cs@.take(n as int) =~= cs@);
    o.append("\"");
    o
}

/// The texts as JSON strings, in order.
pub open spec fn json_texts(items: Seq<Seq<char>>) -> Seq<Seq<char>> {
    items.map_values(|s: Seq<char>| json_text(s))
}

/// Writes texts as JSON strings with commas between them.
pub fn jlist(items: &Vec<String>) -> (r: String)
    ensures
        r@ == joined(json_texts(items.deep_view()), ", "@),
{
    let n: usize = items.len();
    let ghost all = items.deep_view();
    let mut parts: Vec<String> = Vec::new();
    let mut i: usize = 0;
    while i < n
        invariant
            n == items@.len(),
            all == items.deep_view(),
            i <= n,
            parts.deep_view() == json_texts(all.take(i as int)),
        decreases n - i,
    {
        let ghost before = parts.deep_view();
        let part = jstr(items[i].as_str());
        let ghost v = part@;
        parts.push(part);
        proof {
            assert(parts.deep_view() =~= before.push(v));
            assert(json_texts(all.take(i + 1)) =~= before.push(json_text(all[i as int])));
        }
        i += 1;
    }
    assert(all.take(n as int) =~= all);
    join(&parts, ", ")
}

} // verus!
