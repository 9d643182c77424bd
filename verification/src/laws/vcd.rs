//! What reading a value change dump promises: of its words, of the signals and
//! their transitions, and of the times.

use crate::double::{Double, ZERO_BITS};
use crate::text::{joined, lowered, trimmed, u64_value, words};
use crate::units::{default_timescale, timescale_of, TimescaleView};
use crate::vcd::{
    before_end, behind_end, dump_end, events, in_window, marks_before, measured_span, name_of, open_after,
    scale_before, signal, tally, ticks_before, time_marks, toggles_of, transition, value_before, EventView, MarkView, Times, Vcd,
};
use vstd::prelude::*;

verus! {

// ---- the words of a dump -------------------------------------------------------

/// `c` is a value that a one-bit signal takes.
pub open spec fn is_bit(c: char) -> bool {
    c == '0' || c == '1' || c == 'x' || c == 'X' || c == 'z' || c == 'Z'
}

/// The value that a character writes: the unknown and the open one go by their small
/// letters.
pub open spec fn bit_value(c: char) -> char {
    if c == 'X' {
        'x'
    } else if c == 'Z' {
        'z'
    } else {
        c
    }
}

proof fn lemma_no_keyword(tok: Seq<char>)
    requires
        tok.len() > 0,
        tok[0] != '$',
    ensures
        tok != "$timescale"@,
        tok != "$var"@,
        tok != "$end"@,
{
    reveal_strlit("$timescale");
    reveal_strlit("$var");
    reveal_strlit("$end");
}

/// A value and a symbol, of whatever length, in one word are a change of a one-bit
/// signal.
pub proof fn a_scalar_change_is_read(v: char, sym: Seq<char>, rest: Seq<Seq<char>>)
    requires
        is_bit(v),
    ensures
        events(seq![seq![v] + sym] + rest) == seq![EventView::Scalar(sym, bit_value(v))] + events(rest),
{
    let tok = seq![v] + sym;
    let toks = seq![tok] + rest;
    lemma_no_keyword(tok);
    assert(toks[0] == tok);
    assert(tok[0] == v);
    assert(toks.drop_first() =~= rest);
    assert(tok.drop_first() =~= sym);
}

/// A word that starts with `b` or `r`, and the symbol behind it, are a change of a
/// vector or of a real signal.
pub proof fn a_vector_change_is_read(v: char, bits: Seq<char>, sym: Seq<char>, rest: Seq<Seq<char>>)
    requires
        v == 'b' || v == 'B' || v == 'r' || v == 'R',
    ensures
        events(seq![seq![v] + bits, sym] + rest) == seq![EventView::Vector(sym)] + events(rest),
{
    let tok = seq![v] + bits;
    let toks = seq![tok, sym] + rest;
    lemma_no_keyword(tok);
    assert(toks[0] == tok);
    assert(tok[0] == v);
    assert(toks.drop_first() =~= seq![sym] + rest);
    assert(toks.drop_first()[0] == sym);
    assert(toks.drop_first().drop_first() =~= rest);
}

/// A `#` and a number are a time mark. Without a number they say nothing.
pub proof fn a_time_mark_is_read(digits: Seq<char>, rest: Seq<Seq<char>>)
    ensures
        events(seq![seq!['#'] + digits] + rest) == (match u64_value(digits) {
            Some(t) => seq![EventView::Time(t)] + events(rest),
            None => events(rest),
        }),
{
    let tok = seq!['#'] + digits;
    let toks = seq![tok] + rest;
    lemma_no_keyword(tok);
    assert(toks[0] == tok);
    assert(tok[0] == '#');
    assert(toks.drop_first() =~= rest);
    assert(tok.drop_first() =~= digits);
}

proof fn lemma_before_end(inner: Seq<Seq<char>>, rest: Seq<Seq<char>>)
    requires
        forall|i: int| 0 <= i < inner.len() ==> #[trigger] inner[i] != "$end"@,
    ensures
        before_end(inner + seq!["$end"@] + rest) == inner.len(),
        behind_end(inner + seq!["$end"@] + rest) == rest,
    decreases inner.len(),
{
    let toks = inner + seq!["$end"@] + rest;
    if inner.len() == 0 {
        assert(toks[0] == "$end"@);
    } else {
        assert(toks[0] == inner[0]);
        assert(toks.drop_first() =~= inner.drop_first() + seq!["$end"@] + rest);
        lemma_before_end(inner.drop_first(), rest);
    }
    assert(toks.skip(inner.len() as int + 1) =~= rest);
}

/// A declaration, up to its `$end`, gives the symbol of a signal and its name,
/// whatever its type and width, and whatever stands behind the name.
pub proof fn a_declaration_is_read(
    kind: Seq<char>,
    width: Seq<char>,
    sym: Seq<char>,
    name: Seq<char>,
    more: Seq<Seq<char>>,
    rest: Seq<Seq<char>>,
)
    requires
        forall|i: int| 0 <= i < more.len() ==> #[trigger] more[i] != "$end"@,
    ensures
        events(seq!["$var"@, kind, width, sym, name] + more + seq!["$end"@] + rest)
            == seq![EventView::Declare(sym, name)] + events(rest),
{
    let toks = seq!["$var"@, kind, width, sym, name] + more + seq!["$end"@] + rest;
    reveal_strlit("$timescale");
    reveal_strlit("$var");
    assert("$var"@.len() != "$timescale"@.len());
    let behind = toks.drop_first();
    assert(toks[0] == "$var"@);
    assert(behind[2] == sym);
    assert(behind[3] == name);
    assert(behind.skip(4) =~= more + seq!["$end"@] + rest);
    lemma_before_end(more, rest);
}

/// A time scale, up to its `$end`, is that of its words put together.
pub proof fn a_time_scale_is_read(words: Seq<Seq<char>>, rest: Seq<Seq<char>>)
    requires
        forall|i: int| 0 <= i < words.len() ==> #[trigger] words[i] != "$end"@,
    ensures
        events(seq!["$timescale"@] + words + seq!["$end"@] + rest) == seq![
            EventView::Scale(timescale_of(lowered(trimmed(joined(words, ""@))))),
        ] + events(rest),
{
    let toks = seq!["$timescale"@] + words + seq!["$end"@] + rest;
    let behind = toks.drop_first();
    assert(toks[0] == "$timescale"@);
    assert(behind =~= words + seq!["$end"@] + rest);
    lemma_before_end(words, rest);
    assert(behind.take(words.len() as int) =~= words);
}

/// Every other word says nothing.
pub proof fn other_words_say_nothing(tok: Seq<char>, rest: Seq<Seq<char>>)
    requires
        tok != "$timescale"@,
        tok != "$var"@,
        tok.len() > 0 ==> tok[0] != '#' && !is_bit(tok[0]) && tok[0] != 'b' && tok[0] != 'B' && tok[0]
            != 'r' && tok[0] != 'R',
    ensures
        events(seq![tok] + rest) == events(rest),
        events(Seq::empty()).len() == 0,
{
    let toks = seq![tok] + rest;
    assert(toks[0] == tok);
    assert(toks.drop_first() =~= rest);
}

// ---- signals -------------------------------------------------------------------

/// The latest declaration of a symbol before place `n` is at place `d`.
pub open spec fn declared_at(evs: Seq<EventView>, n: int, sym: Seq<char>, d: int, name: Seq<char>) -> bool {
    &&& 0 <= d < n <= evs.len()
    &&& evs[d] == EventView::Declare(sym, name)
    &&& forall|k: int| d < k < n ==> !((#[trigger] evs[k]) is Declare && evs[k]->Declare_0 == sym)
}

/// A symbol stands for the name that it was last declared with.
pub proof fn a_symbol_stands_for_its_latest_name(
    evs: Seq<EventView>,
    n: int,
    sym: Seq<char>,
    d: int,
    name: Seq<char>,
)
    requires
        declared_at(evs, n, sym, d, name),
    ensures
        name_of(evs, n, sym) == Some(name),
    decreases n - d,
{
    if d < n - 1 {
        a_symbol_stands_for_its_latest_name(evs, n - 1, sym, d, name);
    }
}

/// A symbol that is not declared stands for nothing.
pub proof fn an_undeclared_symbol_stands_for_nothing(evs: Seq<EventView>, n: int, sym: Seq<char>)
    requires
        0 <= n <= evs.len(),
        forall|k: int| 0 <= k < n ==> !((#[trigger] evs[k]) is Declare && evs[k]->Declare_0 == sym),
    ensures
        name_of(evs, n, sym) is None,
    decreases n,
{
    if n > 0 {
        an_undeclared_symbol_stands_for_nothing(evs, n - 1, sym);
    }
}

/// A one-bit signal changes at place `i` to the value `v`.
pub open spec fn sets(evs: Seq<EventView>, i: int, name: Seq<char>, v: char) -> bool {
    &&& 0 <= i < evs.len()
    &&& evs[i] is Scalar && evs[i]->Scalar_1 == v
    &&& name_of(evs, i, evs[i]->Scalar_0) == Some(name)
}

proof fn lemma_value_kept(evs: Seq<EventView>, j: int, n: int, name: Seq<char>, v: char)
    requires
        j < n <= evs.len(),
        sets(evs, j, name, v),
        forall|k: int, w: char| j < k < n ==> !#[trigger] sets(evs, k, name, w),
    ensures
        value_before(evs, n, name) == Some(v),
    decreases n - j,
{
    if j < n - 1 {
        lemma_value_kept(evs, j, n - 1, name, v);
        if let EventView::Scalar(_, w) = evs[n - 1] {
            assert(!sets(evs, n - 1, name, w));
        }
    }
}

proof fn lemma_no_value(evs: Seq<EventView>, n: int, name: Seq<char>)
    requires
        0 <= n <= evs.len(),
        forall|k: int, w: char| 0 <= k < n ==> !#[trigger] sets(evs, k, name, w),
    ensures
        value_before(evs, n, name) is None,
    decreases n,
{
    if n > 0 {
        lemma_no_value(evs, n - 1, name);
        if let EventView::Scalar(_, w) = evs[n - 1] {
            assert(!sets(evs, n - 1, name, w));
        }
    }
}

/// A one-bit signal makes a transition where it changes from the value that it was
/// last set to, however long ago, to another one.
pub proof fn a_change_of_value_is_a_transition(
    evs: Seq<EventView>,
    j: int,
    i: int,
    name: Seq<char>,
    v: char,
    w: char,
)
    requires
        j < i,
        sets(evs, j, name, v),
        sets(evs, i, name, w),
        forall|k: int, x: char| j < k < i ==> !#[trigger] sets(evs, k, name, x),
    ensures
        transition(evs, i, name) <==> v != w,
{
    lemma_value_kept(evs, j, i, name, v);
}

/// The first value of a one-bit signal is no transition.
pub proof fn a_first_value_is_no_transition(evs: Seq<EventView>, i: int, name: Seq<char>, w: char)
    requires
        sets(evs, i, name, w),
        forall|k: int, x: char| 0 <= k < i ==> !#[trigger] sets(evs, k, name, x),
    ensures
        !transition(evs, i, name),
{
    lemma_no_value(evs, i, name);
}

/// Each change of a vector or of a real signal is a transition of it.
pub proof fn a_vector_change_is_a_transition(evs: Seq<EventView>, i: int, sym: Seq<char>, name: Seq<char>)
    requires
        0 <= i < evs.len(),
        evs[i] == EventView::Vector(sym),
    ensures
        transition(evs, i, name) <==> name_of(evs, i, sym) == Some(name),
{
}

/// Nothing but a change of a signal is a transition of it.
pub proof fn only_a_change_is_a_transition(evs: Seq<EventView>, i: int, name: Seq<char>)
    requires
        0 <= i < evs.len(),
        transition(evs, i, name),
    ensures
        (evs[i] is Scalar && name_of(evs, i, evs[i]->Scalar_0) == Some(name)) || (evs[i] is Vector
            && name_of(evs, i, evs[i]->Vector_0) == Some(name)),
{
}

// ---- counts --------------------------------------------------------------------

/// The time at place `n` of a dump whose marks are at these times: that of the latest
/// mark, and 0 before the first.
pub open spec fn is_time_at(evs: Seq<EventView>, at: Seq<Double>, n: int, t: Double) -> bool {
    if marks_before(evs, n) == 0 {
        t == (Double { bits: ZERO_BITS })
    } else {
        t == at[marks_before(evs, n) - 1]
    }
}

/// The time lies in the window `[from, to)`; without a window, from the time 0 on.
pub open spec fn lies_in(window: Option<(Double, Option<Double>)>, t: Double) -> bool {
    match window {
        Some((from, Some(to))) => from.at_most(t) && t.below(to),
        Some((from, None)) => from.at_most(t),
        None => (Double { bits: ZERO_BITS }).at_most(t),
    }
}

/// The transitions of a signal in a window are counted one by one: each one at a time
/// in the window counts, and nothing else does.
pub proof fn transitions_in_the_window_are_counted(
    evs: Seq<EventView>,
    at: Seq<Double>,
    window: Option<(Double, Option<Double>)>,
    n: int,
    t: Double,
    name: Seq<char>,
)
    requires
        0 <= n < evs.len(),
        is_time_at(evs, at, n, t),
    ensures
        tally(evs, open_after(window, at), 0, name) == 0,
        tally(evs, open_after(window, at), n + 1, name) == tally(evs, open_after(window, at), n, name)
            + if transition(evs, n, name) && lies_in(window, t) {
            1nat
        } else {
            0
        },
        toggles_of(evs, at, window, name) == tally(
            evs,
            open_after(window, at),
            evs.len() as int,
            name,
        ),
        in_window(window, t) == lies_in(window, t),
{
}

/// The time marks are counted one by one.
pub proof fn time_marks_are_counted(evs: Seq<EventView>, n: int)
    requires
        0 <= n < evs.len(),
    ensures
        marks_before(evs, 0) == 0,
        marks_before(evs, n + 1) == marks_before(evs, n) + if evs[n] is Time {
            1nat
        } else {
            0
        },
{
}

// ---- times ---------------------------------------------------------------------

proof fn lemma_scale(evs: Seq<EventView>, n: int, d: int, s: TimescaleView)
    requires
        0 <= d < n <= evs.len(),
        evs[d] == EventView::Scale(s),
        forall|k: int| d < k < n ==> !((#[trigger] evs[k]) is Scale),
    ensures
        scale_before(evs, n) == s,
    decreases n - d,
{
    if d < n - 1 {
        lemma_scale(evs, n - 1, d, s);
    }
}

/// The scale in force is the latest one that was given.
pub proof fn the_latest_scale_is_in_force(evs: Seq<EventView>, n: int, d: int, s: TimescaleView)
    requires
        0 <= d < n <= evs.len(),
        evs[d] == EventView::Scale(s),
        forall|k: int| d < k < n ==> !((#[trigger] evs[k]) is Scale),
    ensures
        scale_before(evs, n) == s,
{
    lemma_scale(evs, n, d, s);
}

/// Without a scale, a tick is a nanosecond.
pub proof fn without_a_scale_there_is_the_default(evs: Seq<EventView>, n: int)
    requires
        0 <= n <= evs.len(),
        forall|k: int| 0 <= k < n ==> !((#[trigger] evs[k]) is Scale),
    ensures
        scale_before(evs, n) == default_timescale(),
        default_timescale().unit is None,
    decreases n,
{
    if n > 0 {
        without_a_scale_there_is_the_default(evs, n - 1);
    }
}

/// A time mark gives its ticks, in the scale in force where it stands, and it comes
/// behind those before it. Nothing else is a point in time.
pub proof fn each_mark_is_a_point_in_time(evs: Seq<EventView>, n: int)
    requires
        0 <= n < evs.len(),
    ensures
        time_marks(evs, 0).len() == 0,
        evs[n] is Time ==> time_marks(evs, n + 1) == time_marks(evs, n).push(
            MarkView { ticks: evs[n]->Time_0, scale: scale_before(evs, n) },
        ),
        !(evs[n] is Time) ==> time_marks(evs, n + 1) == time_marks(evs, n),
{
}

proof fn lemma_ticks(evs: Seq<EventView>, n: int, d: int, t: u64)
    requires
        0 <= d < n <= evs.len(),
        evs[d] == EventView::Time(t),
        forall|k: int| d < k < n ==> !((#[trigger] evs[k]) is Time),
    ensures
        ticks_before(evs, n) == t,
    decreases n - d,
{
    if d < n - 1 {
        lemma_ticks(evs, n - 1, d, t);
    }
}

/// A dump ends at its last time mark.
pub proof fn a_dump_ends_at_its_last_mark(evs: Seq<EventView>, d: int, t: u64)
    requires
        0 <= d < evs.len(),
        evs[d] == EventView::Time(t),
        forall|k: int| d < k < evs.len() ==> !((#[trigger] evs[k]) is Time),
    ensures
        dump_end(evs) == (MarkView { ticks: t, scale: scale_before(evs, evs.len() as int) }),
{
    lemma_ticks(evs, evs.len() as int, d, t);
}

/// A dump without a time mark ends where it starts.
pub proof fn a_dump_without_marks_has_no_length(evs: Seq<EventView>, n: int)
    requires
        0 <= n <= evs.len(),
        forall|k: int| 0 <= k < evs.len() ==> !((#[trigger] evs[k]) is Time),
    ensures
        ticks_before(evs, n) == 0,
        dump_end(evs).ticks == ticks_before(evs, evs.len() as int),
        marks_before(evs, n) == 0,
    decreases n,
{
    if n > 0 {
        a_dump_without_marks_has_no_length(evs, n - 1);
    }
}

/// A window inside the dump is measured as it is; an open one to the end of the dump;
/// one that sticks out is cut. Without a window the whole dump is measured.
pub proof fn a_window_is_measured_where_the_dump_is(
    from: Double,
    to: Double,
    end: Double,
)
    requires
        (Double { bits: ZERO_BITS }).at_most(end),
        !from.nan(),
        !to.nan(),
    ensures
        ({
            let zero = Double { bits: ZERO_BITS };
            let inside = zero.at_most(from) && from.at_most(end);
            &&& measured_span(None, end) == (zero, end)
            &&& inside && from.at_most(to) && to.at_most(end) ==> measured_span(
                Some((from, Some(to))),
                end,
            ) == (from, to)
            &&& inside ==> measured_span(Some((from, None)), end) == (from, end)
            &&& inside && end.below(to) ==> measured_span(Some((from, Some(to))), end) == (from, end)
            &&& inside && to.below(from) ==> measured_span(Some((from, Some(to))), end) == (from, from)
            &&& from.below(zero) ==> measured_span(Some((from, Some(to))), end).0 == zero
            &&& end.below(from) ==> measured_span(Some((from, Some(to))), end).0 == end
        }),
{
}

/// A window that starts outside of the dump is measured from the nearest point of the
/// dump, up to its own end where that lies between, and else to the nearest of the two.
pub proof fn a_window_is_cut_to_the_dump(from: Double, to: Double, end: Double)
    ensures
        ({
            let zero = Double { bits: 0 };
            let start = if from.below(zero) {
                zero
            } else if end.below(from) {
                end
            } else {
                from
            };
            let stop = if to.below(start) {
                start
            } else if end.below(to) {
                end
            } else {
                to
            };
            &&& measured_span(Some((from, Some(to))), end) == (start, stop)
            &&& !end.below(start) ==> measured_span(Some((from, None)), end) == (start, end)
        }),
{
}

/// A dump that is measured has an entry for each signal that makes a transition in the
/// window, with their number, and for no other; and the span that is measured.
pub proof fn a_measured_dump_tells_its_transitions(
    v: Vcd,
    text: Seq<char>,
    times: Times,
    window: Option<(Double, Option<Double>)>,
    name: Seq<char>,
)
    requires
        v.measures(text, times, window),
    ensures
        ({
            let evs = events(words(text));
            let n = toggles_of(evs, times.at@, window, name);
            &&& n == 0 <==> !v.toggles@.contains_key(name)
            &&& n > 0 ==> v.toggles@[name] == n
        }),
        v.from_s == measured_span(window, times.end).0,
        v.to_s == measured_span(window, times.end).1,
{
}

} // verus!
