//! Value change dumps as an activity source: per-signal transition counts over
//! the dump, or over a window of it.
//!
//! Signals go by their leaf name. A scalar change is a transition when it changes
//! the value that the signal had; a vector or real change is one transition. The
//! times of a dump are ticks of its time scale; what they are in seconds comes
//! from outside, one number for each time mark.

use crate::double::{Double, ZERO_BITS};
use crate::name_map::NameMap;
use crate::text::{
    ascii_lower, chars_of, join, joined, lower_ascii_char, lowered, parse_u64, split_whitespace,
    str_eq, string_of, trim, trimmed, u64_value, words,
};
use crate::units::{default_timescale, parse_timescale, timescale_of, Timescale, TimescaleView};
use vstd::prelude::*;
use vstd::string::*;

verus! {

/// Why a dump was refused.
#[derive(Debug)]
pub struct VcdError(pub String);

impl VcdError {
    /// The error as a sentence.
    pub fn message(&self) -> (r: String)
        ensures
            r@ == "vcd error: "@ + self.0@,
    {
        let mut s = "vcd error: ".to_owned();
        s.append(self.0.as_str());
        s
    }
}

// ---- what a dump says ----------------------------------------------------------

/// What a part of a dump says.
pub enum EventView {
    /// The time scale.
    Scale(TimescaleView),
    /// A signal: the symbol that stands for it, and its name.
    Declare(Seq<char>, Seq<char>),
    /// The time, in ticks, from here on.
    Time(u64),
    /// A one-bit signal, by its symbol, takes a value.
    Scalar(Seq<char>, char),
    /// A vector or real signal, by its symbol, takes a value.
    Vector(Seq<char>),
}

/// How many words stand before the first `$end`.
pub open spec fn before_end(toks: Seq<Seq<char>>) -> nat
    decreases toks.len(),
{
    if toks.len() == 0 || toks[0] == "$end"@ {
        0
    } else {
        1 + before_end(toks.drop_first())
    }
}

/// The words behind the first `$end`.
pub open spec fn behind_end(toks: Seq<Seq<char>>) -> Seq<Seq<char>> {
    if before_end(toks) < toks.len() {
        toks.skip(before_end(toks) as int + 1)
    } else {
        Seq::empty()
    }
}

/// A word whose first character starts a scalar change.
pub open spec fn starts_scalar(c: char) -> bool {
    c == '0' || c == '1' || c == 'x' || c == 'X' || c == 'z' || c == 'Z'
}

/// A word whose first character starts a vector or real change.
pub open spec fn starts_vector(c: char) -> bool {
    c == 'b' || c == 'B' || c == 'r' || c == 'R'
}

/// What the words of a dump say, in order. Words that say nothing here are passed
/// over.
pub open spec fn events(toks: Seq<Seq<char>>) -> Seq<EventView>
    decreases toks.len(),
{
    if toks.len() == 0 {
        Seq::empty()
    } else {
        let tok = toks[0];
        let rest = toks.drop_first();
        if tok == "$timescale"@ {
            let unit = joined(rest.take(before_end(rest) as int), ""@);
            seq![EventView::Scale(timescale_of(lowered(trimmed(unit))))] + events(behind_end(rest))
        } else if tok == "$var"@ {
            if rest.len() < 4 {
                Seq::empty()
            } else {
                seq![EventView::Declare(rest[2], rest[3])] + events(behind_end(rest.skip(4)))
            }
        } else if tok.len() > 0 && tok[0] == '#' {
            match u64_value(tok.drop_first()) {
                Some(t) => seq![EventView::Time(t)] + events(rest),
                None => events(rest),
            }
        } else if tok.len() > 0 && starts_scalar(tok[0]) {
            seq![EventView::Scalar(tok.drop_first(), ascii_lower(tok[0]))] + events(rest)
        } else if tok.len() > 0 && starts_vector(tok[0]) && rest.len() > 0 {
            seq![EventView::Vector(rest[0])] + events(rest.drop_first())
        } else {
            events(rest)
        }
    }
}

/// What a dump says.
pub open spec fn dump_events(text: Seq<char>) -> Seq<EventView> {
    events(words(text))
}

/// An `EventView`, in executable form.
#[derive(Debug)]
pub enum Event {
    Scale(Timescale),
    Declare(String, String),
    Time(u64),
    Scalar(String, char),
    Vector(String),
}

impl View for Event {
    type V = EventView;

    open spec fn view(&self) -> EventView {
        match self {
            Event::Scale(s) => EventView::Scale(s@),
            Event::Declare(sym, name) => EventView::Declare(sym@, name@),
            Event::Time(t) => EventView::Time(*t),
            Event::Scalar(sym, v) => EventView::Scalar(sym@, *v),
            Event::Vector(sym) => EventView::Vector(sym@),
        }
    }
}

/// The views of the events, in order.
pub open spec fn event_views(evs: Seq<Event>) -> Seq<EventView> {
    evs.map_values(|e: Event| e@)
}

fn find_end(toks: &Vec<String>, from: usize) -> (r: usize)
    requires
        from <= toks@.len(),
    ensures
        from <= r <= toks@.len(),
        r - from == before_end(toks.deep_view().skip(from as int)),
{
    let ghost all = toks.deep_view();
    let n: usize = toks.len();
    let mut i: usize = from;
    while i < n && !str_eq(toks[i].as_str(), "$end")
        invariant
            n == toks@.len(),
            all == toks.deep_view(),
            from <= i <= n,
            i - from + before_end(all.skip(i as int)) == before_end(all.skip(from as int)),
        decreases n - i,
    {
        assert(all.skip(i as int)[0] == toks@[i as int]@);
        assert(all.skip(i as int).drop_first() =~= all.skip(i + 1));
        i += 1;
    }
    proof {
        if i < n {
            assert(all.skip(i as int)[0] == toks@[i as int]@);
        }
    }
    i
}

fn glue(toks: &Vec<String>, from: usize, to: usize) -> (r: String)
    requires
        from <= to <= toks@.len(),
    ensures
        r@ == joined(toks.deep_view().subrange(from as int, to as int), ""@),
{
    let ghost all = toks.deep_view();
    let mut parts: Vec<String> = Vec::new();
    let mut i: usize = from;
    while i < to
        invariant
            all == toks.deep_view(),
            from <= i <= to <= toks@.len(),
            parts.deep_view() == all.subrange(from as int, i as int),
        decreases to - i,
    {
        let ghost before = parts.deep_view();
        parts.push(toks[i].clone());
        assert(parts.deep_view() =~= before.push(toks@[i as int]@));
        assert(all.subrange(from as int, i + 1) =~= before.push(all[i as int]));
        i += 1;
    }
    join(&parts, "")
}

/// What one word says, and how many words it takes.
fn read_event(toks: &Vec<String>, i: usize) -> (r: (Option<Event>, usize))
    requires
        i < toks@.len(),
    ensures
        i < r.1 <= toks@.len(),
        events(toks.deep_view().skip(i as int)) == (match r.0 {
            Some(e) => seq![e@],
            None => Seq::empty(),
        }) + events(toks.deep_view().skip(r.1 as int)),
{
    let ghost all = toks.deep_view();
    let ghost here = all.skip(i as int);
    let ghost rest = all.skip(i + 1);
    let n: usize = toks.len();
    let tok = toks[i].as_str();
    proof {
        assert(here[0] == tok@);
        assert(here.drop_first() =~= rest);
        assert(Seq::<EventView>::empty() + events(rest) =~= events(rest));
        assert(all.skip(n as int) =~= Seq::<Seq<char>>::empty());
        assert(events(all.skip(n as int)) =~= Seq::<EventView>::empty());
    }
    if str_eq(tok, "$timescale") {
        let end: usize = find_end(toks, i + 1);
        let unit = glue(toks, i + 1, end);
        let scale = parse_timescale(trim(unit.as_str()));
        let next: usize = if end < n {
            end + 1
        } else {
            n
        };
        proof {
            assert(all.subrange(i + 1, end as int) =~= rest.take(end - i - 1));
            if end < n {
                assert(rest.skip(end - i - 1 + 1) =~= all.skip(next as int));
            } else {
                assert(all.skip(next as int) =~= behind_end(rest));
            }
        }
        return (Some(Event::Scale(scale)), next);
    }
    if str_eq(tok, "$var") {
        if n - i < 5 {
            assert(rest.len() < 4);
            assert(events(here) =~= Seq::<EventView>::empty() + events(all.skip(n as int)));
            return (None, n);
        }
        let sym = toks[i + 3].clone();
        let name = toks[i + 4].clone();
        let end: usize = find_end(toks, i + 5);
        let next: usize = if end < n {
            end + 1
        } else {
            n
        };
        proof {
            assert(rest.skip(4) =~= all.skip(i + 5));
            assert(rest[2] == sym@);
            assert(rest[3] == name@);
            if end < n {
                assert(all.skip(i + 5).skip(end - i - 5 + 1) =~= all.skip(next as int));
            } else {
                assert(all.skip(next as int) =~= behind_end(all.skip(i + 5)));
            }
        }
        return (Some(Event::Declare(sym, name)), next);
    }
    let cs = chars_of(tok);
    let m: usize = cs.len();
    if m == 0 {
        return (None, i + 1);
    }
    let first = cs[0];
    let tail = string_of(&cs, 1, m);
    assert(tail@ =~= tok@.drop_first());
    if first == '#' {
        match parse_u64(tail.as_str()) {
            Some(t) => (Some(Event::Time(t)), i + 1),
            None => (None, i + 1),
        }
    } else if first == '0' || first == '1' || first == 'x' || first == 'X' || first == 'z' || first
        == 'Z' {
        (Some(Event::Scalar(tail, lower_ascii_char(first))), i + 1)
    } else if first == 'b' || first == 'B' || first == 'r' || first == 'R' {
        if i + 1 < n {
            assert(rest[0] == toks@[i + 1]@);
            assert(rest.drop_first() =~= all.skip(i + 2));
            (Some(Event::Vector(toks[i + 1].clone())), i + 2)
        } else {
            (None, i + 1)
        }
    } else {
        (None, i + 1)
    }
}

/// Reads what a dump says.
pub fn scan(text: &str) -> (r: Vec<Event>)
    ensures
        event_views(r@) == dump_events(text@),
{
    let toks = split_whitespace(text);
    let ghost all = toks.deep_view();
    let n: usize = toks.len();
    let mut evs: Vec<Event> = Vec::new();
    let mut i: usize = 0;
    assert(all.skip(0) =~= all);
    assert(event_views(evs@) + events(all) =~= events(all));
    while i < n
        invariant
            n == toks@.len(),
            all == toks.deep_view(),
            i <= n,
            event_views(evs@) + events(all.skip(i as int)) == events(all),
        decreases n - i,
    {
        let ghost before = event_views(evs@);
        let (e, next) = read_event(&toks, i);
        match e {
            Some(ev) => {
                let ghost v = ev@;
                evs.push(ev);
                assert(event_views(evs@) =~= before.push(v));
                assert(before.push(v) + events(all.skip(next as int)) =~= before + (seq![v]
                    + events(all.skip(next as int))));
            },
            None => {
                assert(Seq::<EventView>::empty() + events(all.skip(next as int)) =~= events(
                    all.skip(next as int),
                ));
            },
        }
        i = next;
    }
    assert(all.skip(n as int) =~= Seq::<Seq<char>>::empty());
    assert(event_views(evs@) + Seq::<EventView>::empty() =~= event_views(evs@));
    evs
}

// ---- the signals and their transitions -----------------------------------------

/// The name that a symbol stands for before place `n`: the latest declaration
/// holds.
pub open spec fn name_of(evs: Seq<EventView>, n: int, sym: Seq<char>) -> Option<Seq<char>>
    decreases n,
{
    if n <= 0 {
        None
    } else {
        match evs[n - 1] {
            EventView::Declare(s, name) => if s == sym {
                Some(name)
            } else {
                name_of(evs, n - 1, sym)
            },
            _ => name_of(evs, n - 1, sym),
        }
    }
}

/// The signal that changes at place `i`, if one does.
pub open spec fn signal(evs: Seq<EventView>, i: int) -> Option<Seq<char>> {
    match evs[i] {
        EventView::Scalar(sym, _) => name_of(evs, i, sym),
        EventView::Vector(sym) => name_of(evs, i, sym),
        _ => None,
    }
}

/// The value of a signal before place `n`: that of its latest scalar change.
pub open spec fn value_before(evs: Seq<EventView>, n: int, name: Seq<char>) -> Option<char>
    decreases n,
{
    if n <= 0 {
        None
    } else {
        match evs[n - 1] {
            EventView::Scalar(_, v) => if signal(evs, n - 1) == Some(name) {
                Some(v)
            } else {
                value_before(evs, n - 1, name)
            },
            _ => value_before(evs, n - 1, name),
        }
    }
}

/// The signal makes a transition at place `i`: a scalar one from a value to
/// another, a vector or real one at each change.
pub open spec fn transition(evs: Seq<EventView>, i: int, name: Seq<char>) -> bool {
    signal(evs, i) == Some(name) && match evs[i] {
        EventView::Scalar(_, v) => match value_before(evs, i, name) {
            Some(p) => p != v,
            None => false,
        },
        _ => true,
    }
}

/// How many time marks stand before place `n`.
pub open spec fn marks_before(evs: Seq<EventView>, n: int) -> nat
    decreases n,
{
    if n <= 0 {
        0
    } else if evs[n - 1] is Time {
        marks_before(evs, n - 1) + 1
    } else {
        marks_before(evs, n - 1)
    }
}

/// How many transitions the signal makes before place `n` while `open` holds of
/// the number of time marks passed.
pub open spec fn tally(
    evs: Seq<EventView>,
    open: spec_fn(nat) -> bool,
    n: int,
    name: Seq<char>,
) -> nat
    decreases n,
{
    if n <= 0 {
        0
    } else if transition(evs, n - 1, name) && open(marks_before(evs, n - 1)) {
        tally(evs, open, n - 1, name) + 1
    } else {
        tally(evs, open, n - 1, name)
    }
}

proof fn lemma_tally_bound(evs: Seq<EventView>, open: spec_fn(nat) -> bool, n: int, name: Seq<char>)
    requires
        n >= 0,
    ensures
        tally(evs, open, n, name) <= n,
    decreases n,
{
    if n > 0 {
        lemma_tally_bound(evs, open, n - 1, name);
    }
}

// ---- times ---------------------------------------------------------------------

/// The scale in force at place `n`: the latest one given.
pub open spec fn scale_before(evs: Seq<EventView>, n: int) -> TimescaleView
    decreases n,
{
    if n <= 0 {
        default_timescale()
    } else {
        match evs[n - 1] {
            EventView::Scale(s) => s,
            _ => scale_before(evs, n - 1),
        }
    }
}

/// The tick that is reached at place `n`: the latest time mark.
pub open spec fn ticks_before(evs: Seq<EventView>, n: int) -> u64
    decreases n,
{
    if n <= 0 {
        0
    } else {
        match evs[n - 1] {
            EventView::Time(t) => t,
            _ => ticks_before(evs, n - 1),
        }
    }
}

/// A point in time: a number of ticks of a scale.
#[verifier::ext_equal]
pub struct MarkView {
    pub ticks: u64,
    pub scale: TimescaleView,
}

/// The time marks before place `n`, each with the scale in force.
pub open spec fn time_marks(evs: Seq<EventView>, n: int) -> Seq<MarkView>
    decreases n,
{
    if n <= 0 {
        Seq::empty()
    } else {
        match evs[n - 1] {
            EventView::Time(t) => time_marks(evs, n - 1).push(
                MarkView { ticks: t, scale: scale_before(evs, n - 1) },
            ),
            _ => time_marks(evs, n - 1),
        }
    }
}

/// The end of the dump: the last tick, in the last scale.
pub open spec fn dump_end(evs: Seq<EventView>) -> MarkView {
    MarkView {
        ticks: ticks_before(evs, evs.len() as int),
        scale: scale_before(evs, evs.len() as int),
    }
}

/// A point in time as a dump gives it.
#[derive(Debug)]
pub struct Mark {
    pub ticks: u64,
    pub scale: Timescale,
}

impl View for Mark {
    type V = MarkView;

    open spec fn view(&self) -> MarkView {
        MarkView { ticks: self.ticks, scale: self.scale@ }
    }
}

/// The views of the marks, in order.
pub open spec fn mark_views(marks: Seq<Mark>) -> Seq<MarkView> {
    marks.map_values(|m: Mark| m@)
}

/// The points in time of a dump: its time marks in order, and its end.
#[derive(Debug)]
pub struct Marks {
    pub at: Vec<Mark>,
    pub end: Mark,
}

/// The seconds at the points in time of a dump.
#[derive(Debug)]
pub struct Times {
    pub at: Vec<Double>,
    pub end: Double,
}

proof fn lemma_time_marks_len(evs: Seq<EventView>, n: int)
    ensures
        time_marks(evs, n).len() == marks_before(evs, n),
    decreases n,
{
    if n > 0 {
        lemma_time_marks_len(evs, n - 1);
    }
}

fn marks_of(evs: &Vec<Event>) -> (r: Marks)
    ensures
        mark_views(r.at@) == time_marks(event_views(evs@), evs@.len() as int),
        r.end@ == dump_end(event_views(evs@)),
{
    let ghost views = event_views(evs@);
    let n: usize = evs.len();
    let mut at: Vec<Mark> = Vec::new();
    let mut scale = Timescale::new();
    let mut ticks: u64 = 0;
    let mut i: usize = 0;
    assert(mark_views(at@) =~= Seq::empty());
    while i < n
        invariant
            n == evs@.len(),
            views == event_views(evs@),
            i <= n,
            mark_views(at@) == time_marks(views, i as int),
            scale@ == scale_before(views, i as int),
            ticks == ticks_before(views, i as int),
        decreases n - i,
    {
        assert(views[i as int] == evs@[i as int]@);
        match &evs[i] {
            Event::Scale(s) => {
                scale = s.copy();
            },
            Event::Time(t) => {
                let ghost before = mark_views(at@);
                let mark = Mark { ticks: *t, scale: scale.copy() };
                let ghost v = mark@;
                at.push(mark);
                assert(mark_views(at@) =~= before.push(v));
                ticks = *t;
            },
            _ => {},
        }
        i += 1;
    }
    Marks { at, end: Mark { ticks, scale } }
}

// ---- windows -------------------------------------------------------------------

/// The start of the window.
pub open spec fn window_from(window: Option<(Double, Option<Double>)>) -> Double {
    match window {
        Some((from, _)) => from,
        None => Double { bits: ZERO_BITS },
    }
}

/// `t` lies in the window: not before its start, and before its end if it has
/// one. Without a window everything from the time 0 on counts.
pub open spec fn in_window(window: Option<(Double, Option<Double>)>, t: Double) -> bool {
    window_from(window).at_most(t) && match window {
        Some((_, Some(to))) => t.below(to),
        _ => true,
    }
}

/// The time once `k` time marks are passed: that of the last of them, and 0
/// before the first.
pub open spec fn time_after(at: Seq<Double>, k: nat) -> Double {
    if k == 0 {
        Double { bits: ZERO_BITS }
    } else {
        at[k - 1]
    }
}

/// The dump is in the window once `k` time marks are passed.
pub open spec fn open_after(
    window: Option<(Double, Option<Double>)>,
    at: Seq<Double>,
) -> spec_fn(nat) -> bool {
    |k: nat| in_window(window, time_after(at, k))
}

/// The transitions of a signal in the window.
pub open spec fn toggles_of(
    evs: Seq<EventView>,
    at: Seq<Double>,
    window: Option<(Double, Option<Double>)>,
    name: Seq<char>,
) -> nat {
    tally(evs, open_after(window, at), evs.len() as int, name)
}

/// The number within the bounds that is nearest to `x`.
pub open spec fn clamped(x: Double, low: Double, high: Double) -> Double {
    if x.below(low) {
        low
    } else if high.below(x) {
        high
    } else {
        x
    }
}

/// The span of time that is measured: the whole dump, or the part of the window
/// that the dump covers.
pub open spec fn measured_span(window: Option<(Double, Option<Double>)>, end: Double) -> (
    Double,
    Double,
) {
    let zero = Double { bits: ZERO_BITS };
    match window {
        None => (zero, end),
        Some((f, t)) => {
            let from = clamped(f, zero, end);
            let to = match t {
                Some(x) => x,
                None => end,
            };
            (from, clamped(to, from, end))
        },
    }
}

/// Transition counts of the signals of a dump, and the span of time that they
/// were counted in. A signal without a transition has no entry.
pub struct Vcd {
    /// Signal name to transition count.
    pub toggles: NameMap<u64>,
    /// The start of the measured span, in seconds.
    pub from_s: Double,
    /// The end of the measured span, in seconds.
    pub to_s: Double,
}

impl Default for Vcd {
    /// No transition, over an empty span.
    fn default() -> (r: Vcd)
        ensures
            r.toggles@ == Map::<Seq<char>, u64>::empty(),
            r.from_s == (Double { bits: ZERO_BITS }),
            r.to_s == (Double { bits: ZERO_BITS }),
    {
        Vcd {
            toggles: NameMap::new(),
            from_s: Double { bits: ZERO_BITS },
            to_s: Double { bits: ZERO_BITS },
        }
    }
}

impl Clone for Vcd {
    fn clone(&self) -> (r: Vcd)
        ensures
            r.toggles@ == self.toggles@,
            r.from_s == self.from_s,
            r.to_s == self.to_s,
    {
        let toggles = self.toggles.clone();
        assert(toggles@ =~= self.toggles@);
        Vcd { toggles, from_s: self.from_s, to_s: self.to_s }
    }
}

fn window_open(window: Option<(Double, Option<Double>)>, t: Double) -> (r: bool)
    ensures
        r == in_window(window, t),
{
    match window {
        Some((from, Some(to))) => from.le(&t) && t.lt(&to),
        Some((from, None)) => from.le(&t),
        None => (Double { bits: ZERO_BITS }).le(&t),
    }
}

fn clamp(x: Double, low: Double, high: Double) -> (r: Double)
    ensures
        r == clamped(x, low, high),
{
    if x.lt(&low) {
        low
    } else if high.lt(&x) {
        high
    } else {
        x
    }
}

/// Adds one to the count of a name.
fn add_one(toggles: &mut NameMap<u64>, name: &String)
    requires
        old(toggles)@.contains_key(name@) ==> old(toggles)@[name@] < u64::MAX,
    ensures
        final(toggles)@ == old(toggles)@.insert(
            name@,
            if old(toggles)@.contains_key(name@) {
                (old(toggles)@[name@] + 1) as u64
            } else {
                1
            },
        ),
{
    let count: u64 = match toggles.get(name.as_str()) {
        Some(k) => *k + 1,
        None => 1,
    };
    toggles.insert(name.clone(), count);
}

/// The counts are those of the transitions before place `n`.
spec fn counts_are(
    m: Map<Seq<char>, u64>,
    evs: Seq<EventView>,
    open: spec_fn(nat) -> bool,
    n: int,
) -> bool {
    forall|name: Seq<char>|
        (#[trigger] m.contains_key(name) <==> tally(evs, open, n, name) > 0) && (m.contains_key(name)
            ==> m[name] == tally(evs, open, n, name))
}

/// The names are those that the symbols stand for before place `n`.
spec fn names_are(m: Map<Seq<char>, String>, evs: Seq<EventView>, n: int) -> bool {
    forall|sym: Seq<char>|
        (#[trigger] m.contains_key(sym) <==> name_of(evs, n, sym) is Some) && (m.contains_key(sym)
            ==> name_of(evs, n, sym) == Some(m[sym]@))
}

/// The values are those that the signals have before place `n`.
spec fn values_are(m: Map<Seq<char>, char>, evs: Seq<EventView>, n: int) -> bool {
    forall|name: Seq<char>|
        (#[trigger] m.contains_key(name) <==> value_before(evs, n, name) is Some) && (
        m.contains_key(name) ==> value_before(evs, n, name) == Some(m[name]))
}

fn count_transitions(
    evs: &Vec<Event>,
    at: &Vec<Double>,
    window: Option<(Double, Option<Double>)>,
) -> (r: NameMap<u64>)
    requires
        at@.len() == marks_before(event_views(evs@), evs@.len() as int),
    ensures
        counts_are(r@, event_views(evs@), open_after(window, at@), evs@.len() as int),
{
    let ghost views = event_views(evs@);
    let ghost open = open_after(window, at@);
    let n: usize = evs.len();
    let marks: usize = at.len();
    let mut toggles: NameMap<u64> = NameMap::new();
    let mut names: NameMap<String> = NameMap::new();
    let mut values: NameMap<char> = NameMap::new();
    let mut passed: usize = 0;
    let mut count_now: bool = window_open(window, Double { bits: ZERO_BITS });
    let mut i: usize = 0;
    while i < n
        invariant
            n == evs@.len(),
            views == event_views(evs@),
            open == open_after(window, at@),
            marks == at@.len(),
            marks == marks_before(views, n as int),
            i <= n,
            passed == marks_before(views, i as int),
            count_now == open(passed as nat),
            names_are(names@, views, i as int),
            values_are(values@, views, i as int),
            counts_are(toggles@, views, open, i as int),
        decreases n - i,
    {
        proof {
            assert(views[i as int] == evs@[i as int]@);
            lemma_marks_grow(views, i + 1, n as int);
        }
        match &evs[i] {
            Event::Scale(_) => {},
            Event::Declare(sym, name) => {
                names.insert(sym.clone(), name.clone());
            },
            Event::Time(_) => {
                count_now = window_open(window, at[passed]);
                passed += 1;
            },
            Event::Scalar(sym, v) => {
                if let Some(name) = names.get(sym.as_str()) {
                    assert(signal(views, i as int) == Some(name@));
                    let changed = match values.get(name.as_str()) {
                        Some(p) => *p != *v,
                        None => false,
                    };
                    assert(changed == transition(views, i as int, name@));
                    values.insert(name.clone(), *v);
                    if count_now && changed {
                        proof {
                            lemma_tally_bound(views, open, i as int, name@);
                        }
                        add_one(&mut toggles, name);
                    }
                } else {
                    assert(signal(views, i as int) is None);
                }
            },
            Event::Vector(sym) => {
                if let Some(name) = names.get(sym.as_str()) {
                    assert(signal(views, i as int) == Some(name@));
                    if count_now {
                        proof {
                            lemma_tally_bound(views, open, i as int, name@);
                        }
                        add_one(&mut toggles, name);
                    }
                } else {
                    assert(signal(views, i as int) is None);
                }
            },
        }
        i += 1;
    }
    toggles
}

proof fn lemma_marks_grow(evs: Seq<EventView>, a: int, b: int)
    requires
        a <= b,
    ensures
        marks_before(evs, a) <= marks_before(evs, b),
    decreases b - a,
{
    if a < b {
        lemma_marks_grow(evs, a, b - 1);
    }
}

impl Vcd {
    /// The points in time of a dump, whose seconds `parse` and `parse_windowed`
    /// need.
    pub fn marks(text: &str) -> (r: Marks)
        ensures
            mark_views(r.at@) == time_marks(dump_events(text@), dump_events(text@).len() as int),
            r.end@ == dump_end(dump_events(text@)),
    {
        let evs = scan(text);
        assert(event_views(evs@).len() == evs@.len());
        marks_of(&evs)
    }

    /// The counts are those of the dump in the window, and the span is the one
    /// measured.
    pub open spec fn measures(
        self,
        text: Seq<char>,
        times: Times,
        window: Option<(Double, Option<Double>)>,
    ) -> bool {
        &&& forall|name: Seq<char>| #[trigger]
            self.toggles@.contains_key(name) <==> toggles_of(
                dump_events(text),
                times.at@,
                window,
                name,
            ) > 0
        &&& forall|name: Seq<char>| #[trigger]
            self.toggles@.contains_key(name) ==> self.toggles@[name] == toggles_of(
                dump_events(text),
                times.at@,
                window,
                name,
            )
        &&& (self.from_s, self.to_s) == measured_span(window, times.end)
    }

    /// Counts the transitions of the whole dump.
    pub fn parse(text: &str, times: &Times) -> (r: Result<Vcd, VcdError>)
        requires
            times.at@.len() == time_marks(dump_events(text@), dump_events(text@).len() as int).len(),
        ensures
            r is Ok,
            r->Ok_0.measures(text@, *times, None),
    {
        Vcd::parse_windowed(text, times, None)
    }

    /// Counts the transitions of a dump. With a window only those at a time in it
    /// count, and the measured span is the window, cut to the dump. A change
    /// outside of the window still sets the value that the next one is held
    /// against.
    pub fn parse_windowed(
        text: &str,
        times: &Times,
        window: Option<(Double, Option<Double>)>,
    ) -> (r: Result<Vcd, VcdError>)
        requires
            times.at@.len() == time_marks(dump_events(text@), dump_events(text@).len() as int).len(),
            window matches Some((from, _)) ==> !from.nan() && (Double { bits: ZERO_BITS }).at_most(
                times.end,
            ),
        ensures
            r is Ok,
            r->Ok_0.measures(text@, *times, window),
    {
        let evs = scan(text);
        proof {
            assert(event_views(evs@).len() == evs@.len());
            lemma_time_marks_len(event_views(evs@), evs@.len() as int);
        }
        let toggles = count_transitions(&evs, &times.at, window);
        let zero = Double { bits: ZERO_BITS };
        let (from_s, to_s) = match window {
            None => (zero, times.end),
            Some((f, t)) => {
                let from = clamp(f, zero, times.end);
                let to = match t {
                    Some(x) => x,
                    None => times.end,
                };
                (from, clamp(to, from, times.end))
            },
        };
        Ok(Vcd { toggles, from_s, to_s })
    }

    /// The transitions of a net that a rate over `sim_time_s` divides: none where
    /// the net has no count or the span is empty.
    pub fn countable(&self, name: &str, sim_time_s: Double) -> (r: Option<u64>)
        ensures
            r == if self.toggles@.contains_key(name@) && sim_time_s.positive() {
                Some(self.toggles@[name@])
            } else {
                None
            },
    {
        match self.toggles.get(name) {
            Some(n) => if sim_time_s.is_positive() {
                Some(*n)
            } else {
                None
            },
            None => None,
        }
    }
}

// ---- laws ----------------------------------------------------------------------

proof fn lemma_tallies_add_up(
    evs: Seq<EventView>,
    a: spec_fn(nat) -> bool,
    b: spec_fn(nat) -> bool,
    whole: spec_fn(nat) -> bool,
    n: int,
    m: nat,
    name: Seq<char>,
)
    requires
        marks_before(evs, n) <= m,
        forall|k: nat| k <= m ==> #[trigger] whole(k) == (a(k) || b(k)) && !(a(k) && b(k)),
    ensures
        tally(evs, whole, n, name) == tally(evs, a, n, name) + tally(evs, b, n, name),
    decreases n,
{
    if n > 0 {
        lemma_marks_grow(evs, n - 1, n);
        lemma_tallies_add_up(evs, a, b, whole, n - 1, m, name);
        assert(whole(marks_before(evs, n - 1)) == (a(marks_before(evs, n - 1)) || b(
            marks_before(evs, n - 1),
        )));
    }
}

/// Cutting a window in two neither invents a transition nor loses one.
pub proof fn adjacent_windows_add_up(
    evs: Seq<EventView>,
    at: Seq<Double>,
    from: Double,
    cut: Double,
    to: Option<Double>,
    name: Seq<char>,
)
    requires
        at.len() == marks_before(evs, evs.len() as int),
        from.at_most(cut),
        to matches Some(t) ==> cut.at_most(t),
    ensures
        toggles_of(evs, at, Some((from, to)), name) == toggles_of(
            evs,
            at,
            Some((from, Some(cut))),
            name,
        ) + toggles_of(evs, at, Some((cut, to)), name),
{
    let a = open_after(Some((from, Some(cut))), at);
    let b = open_after(Some((cut, to)), at);
    let whole = open_after(Some((from, to)), at);
    assert forall|k: nat| k <= at.len() implies #[trigger] whole(k) == (a(k) || b(k)) && !(a(k)
        && b(k)) by {
        let t = time_after(at, k);
        if !t.nan() {
            crate::double::numbers_are_ordered(cut, t);
        }
    }
    lemma_tallies_add_up(evs, a, b, whole, evs.len() as int, at.len(), name);
}

/// The transitions in the first `n` windows that the cuts bound.
pub open spec fn swept(
    evs: Seq<EventView>,
    at: Seq<Double>,
    cuts: Seq<Double>,
    n: int,
    name: Seq<char>,
) -> nat
    decreases n,
{
    if n <= 0 {
        0
    } else {
        swept(evs, at, cuts, n - 1, name) + toggles_of(
            evs,
            at,
            Some((cuts[n - 1], Some(cuts[n]))),
            name,
        )
    }
}

/// A sweep neither invents transitions nor loses them: consecutive windows, with
/// what is behind the last of them, count what one window from the first on
/// counts.
pub proof fn a_sweep_keeps_every_transition(
    evs: Seq<EventView>,
    at: Seq<Double>,
    cuts: Seq<Double>,
    n: int,
    name: Seq<char>,
)
    requires
        at.len() == marks_before(evs, evs.len() as int),
        0 <= n < cuts.len(),
        forall|i: int, j: int|
            0 <= i <= j < cuts.len() ==> (#[trigger] cuts[i]).at_most(#[trigger] cuts[j]),
    ensures
        swept(evs, at, cuts, n, name) + toggles_of(evs, at, Some((cuts[n], None)), name)
            == toggles_of(evs, at, Some((cuts[0], None)), name),
    decreases n,
{
    if n > 0 {
        a_sweep_keeps_every_transition(evs, at, cuts, n - 1, name);
        assert(cuts[n - 1].at_most(cuts[n]));
        adjacent_windows_add_up(evs, at, cuts[n - 1], cuts[n], None, name);
    }
}

/// A window counts no more than the whole dump does.
pub proof fn a_window_counts_no_more_than_the_dump(
    evs: Seq<EventView>,
    at: Seq<Double>,
    window: Option<(Double, Option<Double>)>,
    n: int,
    name: Seq<char>,
)
    ensures
        tally(evs, open_after(window, at), n, name) <= tally(evs, |k: nat| true, n, name),
    decreases n,
{
    if n > 0 {
        a_window_counts_no_more_than_the_dump(evs, at, window, n - 1, name);
    }
}

proof fn lemma_same_tally(
    evs: Seq<EventView>,
    a: spec_fn(nat) -> bool,
    b: spec_fn(nat) -> bool,
    n: int,
    m: nat,
    name: Seq<char>,
)
    requires
        marks_before(evs, n) <= m,
        forall|k: nat| k <= m ==> #[trigger] a(k) == b(k),
    ensures
        tally(evs, a, n, name) == tally(evs, b, n, name),
    decreases n,
{
    if n > 0 {
        lemma_marks_grow(evs, n - 1, n);
        lemma_same_tally(evs, a, b, n - 1, m, name);
        assert(a(marks_before(evs, n - 1)) == b(marks_before(evs, n - 1)));
    }
}

/// Without a window, every transition of a dump counts that runs from the time 0
/// on.
pub proof fn no_window_is_the_whole_dump(evs: Seq<EventView>, at: Seq<Double>, name: Seq<char>)
    requires
        at.len() == marks_before(evs, evs.len() as int),
        forall|k: int| 0 <= k < at.len() ==> (Double { bits: ZERO_BITS }).at_most(#[trigger] at[k]),
    ensures
        toggles_of(evs, at, None, name) == tally(evs, |k: nat| true, evs.len() as int, name),
{
    let a = open_after(None, at);
    let all = |k: nat| true;
    assert forall|k: nat| k <= at.len() implies #[trigger] a(k) == all(k) by {
        if k > 0 {
            assert((Double { bits: ZERO_BITS }).at_most(at[k - 1]));
        }
    }
    lemma_same_tally(evs, a, all, evs.len() as int, at.len(), name);
}

/// A window that reaches the end of the dump from the time 0 on measures what no
/// window measures.
pub proof fn an_open_window_from_zero_is_no_window(
    evs: Seq<EventView>,
    at: Seq<Double>,
    name: Seq<char>,
)
    ensures
        toggles_of(evs, at, Some((Double { bits: ZERO_BITS }, None)), name) == toggles_of(
            evs,
            at,
            None,
            name,
        ),
{
    assert(open_after(Some((Double { bits: ZERO_BITS }, None)), at) =~= open_after(None, at));
}

proof fn lemma_no_tally(
    evs: Seq<EventView>,
    open: spec_fn(nat) -> bool,
    n: int,
    m: nat,
    name: Seq<char>,
)
    requires
        marks_before(evs, n) <= m,
        forall|k: nat| k <= m ==> !#[trigger] open(k),
    ensures
        tally(evs, open, n, name) == 0,
    decreases n,
{
    if n > 0 {
        lemma_marks_grow(evs, n - 1, n);
        lemma_no_tally(evs, open, n - 1, m, name);
    }
}

/// A window behind the dump measures nothing: no transition, over an empty span.
pub proof fn a_window_behind_the_dump_is_empty(
    evs: Seq<EventView>,
    times: Times,
    from: Double,
    to: Option<Double>,
    name: Seq<char>,
)
    requires
        times.at@.len() == marks_before(evs, evs.len() as int),
        (Double { bits: ZERO_BITS }).below(from),
        (Double { bits: ZERO_BITS }).at_most(times.end),
        times.end.below(from),
        forall|k: int| 0 <= k < times.at@.len() ==> (#[trigger] times.at@[k]).below(from),
        to matches Some(t) ==> !t.nan(),
    ensures
        toggles_of(evs, times.at@, Some((from, to)), name) == 0,
        measured_span(Some((from, to)), times.end).0 == times.end,
        to matches Some(t) ==> from.at_most(t) ==> measured_span(Some((from, to)), times.end).1
            == times.end,
        to is None ==> measured_span(Some((from, to)), times.end).1 == times.end,
{
    let open = open_after(Some((from, to)), times.at@);
    assert forall|k: nat| k <= times.at@.len() implies !#[trigger] open(k) by {
        if k > 0 {
            assert(times.at@[k - 1].below(from));
        }
    }
    lemma_no_tally(evs, open, evs.len() as int, times.at@.len(), name);
}

/// The measured span lies in the dump and does not run backwards.
pub proof fn the_measured_span_lies_in_the_dump(
    window: Option<(Double, Option<Double>)>,
    end: Double,
)
    requires
        (Double { bits: ZERO_BITS }).at_most(end),
        window matches Some((from, to)) ==> !from.nan() && (to matches Some(t) ==> !t.nan()),
    ensures
        (Double { bits: ZERO_BITS }).at_most(measured_span(window, end).0),
        measured_span(window, end).0.at_most(measured_span(window, end).1),
        measured_span(window, end).1.at_most(end),
{
}

} // verus!
