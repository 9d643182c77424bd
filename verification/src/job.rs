//! Power job: the declarative description of what to analyze.
//!
//! A `.pwr` job is a small `key: value` file:
//!
//! ```text
//! design:        block
//! netlist:       block.v            # gate-level structural Verilog
//! lib:           sky130_hd.lib      # one or more (comma-separated)
//! clock:         clk 10.0           # clock port + period (ns)
//! vdd:           1.8                # supply voltage (V); optional, else from the lib
//! vcd:           block.vcd          # optional: vectored activity (VCD toggle counts)
//! saif:          block.saif         # optional: vectored activity (SAIF); exclusive with vcd
//! fst:           block.fst          # optional: vectored activity (FST); exclusive with vcd/saif
//! scope:         tb.dut             # optional: instance path where the design's nets live
//! activity_window: 200ns 1200ns     # optional (VCD, FST): count toggles in [from,to) only
//! activity_sweep: 0ns end 50ns      # optional (VCD only): power per 50ns window, over time
//! activity:      0.2                # vectorless default toggle factor
//! default_wire_cap: 0.0             # pF added to every net's switched cap (optional)
//! power_budget_mw:  5.0             # optional budget
//! emit_activity: block.activity     # optional: write the per-instance map
//! emit_power_vcd: block-power.vcd   # optional (sweep only): the power curve
//! ```
//!
//! The numbers of a job are read outside: `PwrJob::numerals` lists the texts
//! that `PwrJob::parse` takes for numbers.

use crate::double::{Double, ZERO_BITS};
use crate::name_map::NameMap;
use crate::names::opt_text;
use crate::text::{
    debug_quoted, debug_text, eq_ignore_ascii_case, find_char, first_of, lemma_first_of,
    lemma_first_of_is, lemma_trim_start, lemma_trimmed_around, lowercase, lowered, same_but_case,
    split_at_char, split_char, split_whitespace, str_eq, trim, trim_end, trim_start, trimmed, words,
};
use crate::units::{split_unit, unit_split, Numeral, Numerals, TimeUnit};
use vstd::prelude::*;
use vstd::string::*;

verus! {

/// The bits of 0.2, the vectorless toggle factor of a job that gives none.
pub const DEFAULT_ACTIVITY_BITS: u64 = 0x3fc9_9999_9999_999a;

/// Why a job was refused.
#[derive(Debug)]
pub struct JobError(pub String);

impl JobError {
    /// A refusal that ends in the text that it is about, as it is to be shown.
    pub fn about(msg: &str, shown: &str) -> (r: JobError)
        ensures
            r.0@ == msg@ + shown@,
    {
        let mut s = msg.to_owned();
        s.append(shown);
        JobError(s)
    }

    /// The error as a sentence.
    pub fn message(&self) -> (r: String)
        ensures
            r@ == "job error: "@ + self.0@,
    {
        let mut s = "job error: ".to_owned();
        s.append(self.0.as_str());
        s
    }
}

/// A uniform sweep of measurement windows over the dump. `to_s` is `None` where
/// the sweep runs to the end of the dump.
#[derive(Clone, Copy, Debug)]
pub struct ActivitySweep {
    pub from_s: Double,
    pub to_s: Option<Double>,
    pub window_s: Double,
    pub step_s: Double,
}

/// A power job.
#[derive(Clone, Debug)]
pub struct PwrJob {
    pub design: String,
    pub netlist: String,
    pub libs: Vec<String>,
    pub clock_port: String,
    pub period_ns: Double,
    pub vdd: Option<Double>,
    pub vcd: Option<String>,
    pub saif: Option<String>,
    pub fst: Option<String>,
    pub activity_window: Option<(Double, Option<Double>)>,
    pub activity_sweep: Option<ActivitySweep>,
    pub scope: Option<String>,
    pub spef: Option<String>,
    pub activity_factor: Double,
    pub default_wire_cap_pf: Double,
    pub power_budget_mw: Option<Double>,
    pub emit_activity: Option<String>,
    pub emit_power_vcd: Option<String>,
    pub base_dir: String,
}

/// What a `PwrJob` holds.
#[verifier::ext_equal]
pub struct JobView {
    pub design: Seq<char>,
    pub netlist: Seq<char>,
    pub libs: Seq<Seq<char>>,
    pub clock_port: Seq<char>,
    pub period_ns: Double,
    pub vdd: Option<Double>,
    pub vcd: Option<Seq<char>>,
    pub saif: Option<Seq<char>>,
    pub fst: Option<Seq<char>>,
    pub activity_window: Option<(Double, Option<Double>)>,
    pub activity_sweep: Option<ActivitySweep>,
    pub scope: Option<Seq<char>>,
    pub spef: Option<Seq<char>>,
    pub activity_factor: Double,
    pub default_wire_cap_pf: Double,
    pub power_budget_mw: Option<Double>,
    pub emit_activity: Option<Seq<char>>,
    pub emit_power_vcd: Option<Seq<char>>,
    pub base_dir: Seq<char>,
}

impl View for PwrJob {
    type V = JobView;

    open spec fn view(&self) -> JobView {
        JobView {
            design: self.design@,
            netlist: self.netlist@,
            libs: self.libs.deep_view(),
            clock_port: self.clock_port@,
            period_ns: self.period_ns,
            vdd: self.vdd,
            vcd: opt_text(self.vcd),
            saif: opt_text(self.saif),
            fst: opt_text(self.fst),
            activity_window: self.activity_window,
            activity_sweep: self.activity_sweep,
            scope: opt_text(self.scope),
            spef: opt_text(self.spef),
            activity_factor: self.activity_factor,
            default_wire_cap_pf: self.default_wire_cap_pf,
            power_budget_mw: self.power_budget_mw,
            emit_activity: opt_text(self.emit_activity),
            emit_power_vcd: opt_text(self.emit_power_vcd),
            base_dir: self.base_dir@,
        }
    }
}

// ---- one line ------------------------------------------------------------------

/// A line up to its `#`.
pub open spec fn uncommented(line: Seq<char>) -> Seq<char> {
    line.take(first_of(line, '#') as int)
}

/// Drops the comment of a line.
pub fn strip_comment(line: &str) -> (r: &str)
    ensures
        r@ == uncommented(line@),
{
    match find_char(line, '#') {
        Some(i) => {
            assert(line@.subrange(0, i as int) =~= uncommented(line@));
            line.substring_char(0, i)
        },
        None => {
            assert(uncommented(line@) =~= line@);
            line
        },
    }
}

/// What a line of a job says.
pub enum LineView {
    /// Nothing: it is empty, or a comment.
    Blank,
    /// Something without a colon.
    Malformed(Seq<char>),
    /// A key, in lower case, and its value.
    Entry(Seq<char>, Seq<char>),
}

/// What a line says.
pub open spec fn line_view(raw: Seq<char>) -> LineView {
    let line = trimmed(uncommented(raw));
    let colon = first_of(line, ':') as int;
    if line.len() == 0 {
        LineView::Blank
    } else if colon == line.len() {
        LineView::Malformed(line)
    } else {
        LineView::Entry(lowered(trimmed(line.take(colon))), trimmed(line.skip(colon + 1)))
    }
}

enum Line {
    Blank,
    Malformed(String),
    Entry(String, String),
}

impl View for Line {
    type V = LineView;

    closed spec fn view(&self) -> LineView {
        match self {
            Line::Blank => LineView::Blank,
            Line::Malformed(s) => LineView::Malformed(s@),
            Line::Entry(k, v) => LineView::Entry(k@, v@),
        }
    }
}

fn parse_line(raw: &str) -> (r: Line)
    ensures
        r@ == line_view(raw@),
{
    let line = trim(strip_comment(raw));
    if line.is_empty() {
        return Line::Blank;
    }
    match find_char(line, ':') {
        None => Line::Malformed(line.to_owned()),
        Some(i) => {
            let n: usize = line.unicode_len();
            assert(line@.subrange(0, i as int) =~= line@.take(i as int));
            assert(line@.subrange(i + 1, n as int) =~= line@.skip(i + 1));
            let key = lowercase(trim(line.substring_char(0, i)));
            let val = trim(line.substring_char(i + 1, n)).to_owned();
            Line::Entry(key, val)
        },
    }
}

// ---- the lines together --------------------------------------------------------

/// The entries of a job: the last value of each key, and the clock.
#[verifier::ext_equal]
pub struct EntriesView {
    pub kv: Map<Seq<char>, Seq<char>>,
    pub clock: Option<(Seq<char>, Double)>,
}

/// The clock that the value of a `clock` line gives: a port and a period.
pub open spec fn clock_of(val: Seq<char>, nums: Numerals) -> Result<(Seq<char>, Double), Seq<char>> {
    let toks = words(val);
    if toks.len() != 2 {
        Err("clock needs 'port period_ns'"@)
    } else {
        match nums.value(toks[1], None) {
            Some(period) => Ok((toks[0], period)),
            None => Err("bad clock period: "@ + debug_text(toks[1])),
        }
    }
}

/// The entries once a line is read.
pub open spec fn with_line(e: EntriesView, raw: Seq<char>, nums: Numerals) -> Result<
    EntriesView,
    Seq<char>,
> {
    with_told(e, line_view(raw), nums)
}

/// The entries once a line that says `line` is read.
pub open spec fn with_told(e: EntriesView, line: LineView, nums: Numerals) -> Result<
    EntriesView,
    Seq<char>,
> {
    match line {
        LineView::Blank => Ok(e),
        LineView::Malformed(line) => Err("expected 'key: value', got "@ + debug_text(line)),
        LineView::Entry(key, val) => if key == "clock"@ {
            match clock_of(val, nums) {
                Ok(clock) => Ok(EntriesView { clock: Some(clock), ..e }),
                Err(m) => Err(m),
            }
        } else {
            Ok(EntriesView { kv: e.kv.insert(key, val), ..e })
        },
    }
}

/// The entries of lines read one after the other, up to the first that is
/// refused.
pub open spec fn entries_of(lines: Seq<Seq<char>>, nums: Numerals) -> Result<EntriesView, Seq<char>>
    decreases lines.len(),
{
    if lines.len() == 0 {
        Ok(EntriesView { kv: Map::empty(), clock: None })
    } else {
        match entries_of(lines.drop_last(), nums) {
            Ok(e) => with_line(e, lines.last(), nums),
            Err(m) => Err(m),
        }
    }
}

struct Entries {
    kv: NameMap<String>,
    clock: Option<(String, Double)>,
}

impl View for Entries {
    type V = EntriesView;

    closed spec fn view(&self) -> EntriesView {
        EntriesView {
            kv: Map::new(
                |k: Seq<char>| self.kv@.contains_key(k),
                |k: Seq<char>| self.kv@[k]@,
            ),
            clock: match self.clock {
                Some((port, period)) => Some((port@, period)),
                None => None,
            },
        }
    }
}

fn refuse(msg: &str) -> (r: JobError)
    ensures
        r.0@ == msg@,
{
    JobError(msg.to_owned())
}

fn refuse_with(msg: &str, detail: &str) -> (r: JobError)
    ensures
        r.0@ == msg@ + debug_text(detail@),
{
    JobError::about(msg, debug_quoted(detail).as_str())
}

fn parse_clock(val: &str, nums: &Numerals) -> (r: Result<(String, Double), JobError>)
    ensures
        match r {
            Ok((port, period)) => clock_of(val@, *nums) == Ok::<(Seq<char>, Double), Seq<char>>(
                (port@, period),
            ),
            Err(e) => clock_of(val@, *nums) == Err::<(Seq<char>, Double), Seq<char>>(e.0@),
        },
{
    let toks = split_whitespace(val);
    assert(toks.deep_view().len() == toks@.len());
    if toks.len() != 2 {
        return Err(refuse("clock needs 'port period_ns'"));
    }
    assert(toks.deep_view()[0] == toks@[0]@);
    assert(toks.deep_view()[1] == toks@[1]@);
    match nums.get(toks[1].as_str(), None) {
        Some(period) => Ok((toks[0].clone(), period)),
        None => Err(refuse_with("bad clock period: ", toks[1].as_str())),
    }
}

impl Entries {
    fn read(text: &str, nums: &Numerals) -> (r: Result<Entries, JobError>)
        ensures
            match r {
                Ok(e) => entries_of(split_at_char(text@, '\n'), *nums) == Ok::<
                    EntriesView,
                    Seq<char>,
                >(e@),
                Err(e) => entries_of(split_at_char(text@, '\n'), *nums) == Err::<
                    EntriesView,
                    Seq<char>,
                >(e.0@),
            },
    {
        let lines = split_char(text, '\n');
        let ghost all = lines.deep_view();
        let n: usize = lines.len();
        let mut e = Entries { kv: NameMap::new(), clock: None };
        let mut i: usize = 0;
        proof {
            assert(all.take(0) =~= Seq::empty());
            assert(e@ =~= EntriesView { kv: Map::empty(), clock: None });
        }
        while i < n
            invariant
                n == lines@.len(),
                all == lines.deep_view(),
                all == split_at_char(text@, '\n'),
                i <= n,
                entries_of(all.take(i as int), *nums) == Ok::<EntriesView, Seq<char>>(e@),
            decreases n - i,
        {
            let ghost before = e@;
            proof {
                assert(all.take(i + 1).drop_last() =~= all.take(i as int));
                assert(all.take(i + 1).last() == lines@[i as int]@);
            }
            match parse_line(lines[i].as_str()) {
                Line::Blank => {},
                Line::Malformed(line) => {
                    let err = refuse_with("expected 'key: value', got ", line.as_str());
                    proof {
                        lemma_first_refusal(all, i + 1, *nums, err.0@);
                    }
                    return Err(err);
                },
                Line::Entry(key, val) => {
                    if str_eq(key.as_str(), "clock") {
                        match parse_clock(val.as_str(), nums) {
                            Ok(clock) => {
                                e.clock = Some(clock);
                                assert(e@ =~= EntriesView { clock: e@.clock, ..before });
                            },
                            Err(err) => {
                                proof {
                                    lemma_first_refusal(all, i + 1, *nums, err.0@);
                                }
                                return Err(err);
                            },
                        }
                    } else {
                        let ghost k = key@;
                        let ghost v = val@;
                        e.kv.insert(key, val);
                        assert(e@ =~= EntriesView { kv: before.kv.insert(k, v), ..before });
                    }
                },
            }
            i += 1;
        }
        assert(all.take(n as int) =~= all);
        Ok(e)
    }
}

/// Once a line is refused, so is the whole.
proof fn lemma_first_refusal(lines: Seq<Seq<char>>, n: int, nums: Numerals, msg: Seq<char>)
    requires
        0 <= n <= lines.len(),
        entries_of(lines.take(n), nums) == Err::<EntriesView, Seq<char>>(msg),
    ensures
        entries_of(lines, nums) == Err::<EntriesView, Seq<char>>(msg),
    decreases lines.len() - n,
{
    if n == lines.len() {
        assert(lines.take(n) =~= lines);
    } else {
        assert(lines.take(n + 1).drop_last() =~= lines.take(n));
        lemma_first_refusal(lines, n + 1, nums, msg);
    }
}

// ---- from entries to a job -----------------------------------------------------

impl EntriesView {
    /// The value of a key, if there is one that is not empty.
    pub open spec fn given(self, key: Seq<char>) -> Option<Seq<char>> {
        if self.kv.contains_key(key) && self.kv[key].len() > 0 {
            Some(self.kv[key])
        } else {
            None
        }
    }

    /// The number of a key, if its value is one.
    pub open spec fn number(self, key: Seq<char>, nums: Numerals) -> Option<Double> {
        if self.kv.contains_key(key) {
            nums.value(self.kv[key], None)
        } else {
            None
        }
    }

    /// The number of a key, or a default where the key is missing. A value that is
    /// not a number is refused.
    pub open spec fn number_or(self, key: Seq<char>, dflt: Double, nums: Numerals) -> Result<
        Double,
        Seq<char>,
    > {
        if !self.kv.contains_key(key) {
            Ok(dflt)
        } else {
            match nums.value(self.kv[key], None) {
                Some(x) => Ok(x),
                None => Err("bad number for "@ + key + ": "@ + debug_text(self.kv[key])),
            }
        }
    }

    /// More than one vectored source is given.
    pub open spec fn sources_clash(self) -> bool {
        let (vcd, saif, fst) = (self.given("vcd"@), self.given("saif"@), self.given("fst"@));
        (vcd is Some && saif is Some) || (vcd is Some && fst is Some) || (saif is Some && fst is Some)
    }
}

/// The names in a comma-separated list; empty ones do not count.
pub open spec fn list_of(val: Seq<char>) -> Seq<Seq<char>> {
    split_at_char(val, ',').map_values(|t: Seq<char>| trimmed(t)).filter(|t: Seq<char>| t.len() > 0)
}

/// The seconds that a time token `<number><unit>` gives. The unit is mandatory,
/// so that the value is unambiguous against a dump's own time scale.
pub open spec fn seconds(tok: Seq<char>, nums: Numerals) -> Result<Double, Seq<char>> {
    match unit_split(lowered(trimmed(tok))) {
        Some((num, unit)) => match nums.value(trimmed(num), Some(unit)) {
            Some(t) => Ok(t),
            None => Err("bad time value: "@ + debug_text(tok)),
        },
        None => Err("time needs a unit (fs/ps/ns/us/ms/s): "@ + debug_text(tok)),
    }
}

/// The measurement window `from [to]`.
pub open spec fn window_of(val: Seq<char>, nums: Numerals) -> Result<
    (Double, Option<Double>),
    Seq<char>,
> {
    let toks = words(val);
    if toks.len() == 1 {
        match seconds(toks[0], nums) {
            Ok(from) => Ok((from, None)),
            Err(m) => Err(m),
        }
    } else if toks.len() == 2 {
        match seconds(toks[0], nums) {
            Ok(from) => match seconds(toks[1], nums) {
                Ok(to) => if to.at_most(from) {
                    Err("activity_window 'to' must be greater than 'from'"@)
                } else {
                    Ok((from, Some(to)))
                },
                Err(m) => Err(m),
            },
            Err(m) => Err(m),
        }
    } else {
        Err("activity_window needs 'from [to]' with units, e.g. '200ns 1200ns'"@)
    }
}

/// The end of a sweep: `end`, in any case, is the end of the dump.
pub open spec fn sweep_end(tok: Seq<char>, nums: Numerals) -> Result<Option<Double>, Seq<char>> {
    if same_but_case(tok, "end"@) {
        Ok(None)
    } else {
        match seconds(tok, nums) {
            Ok(t) => Ok(Some(t)),
            Err(m) => Err(m),
        }
    }
}

/// A sweep that can be measured: its window and step are positive durations, and
/// its end, where it has one, lies behind its start.
pub open spec fn measurable(s: ActivitySweep) -> Result<ActivitySweep, Seq<char>> {
    let zero = Double { bits: ZERO_BITS };
    if s.window_s.at_most(zero) || s.step_s.at_most(zero) {
        Err("activity_sweep window and step must be positive durations"@)
    } else {
        match s.to_s {
            Some(to) => if to.at_most(s.from_s) {
                Err("activity_sweep 'to' must be greater than 'from'"@)
            } else {
                Ok(s)
            },
            None => Ok(s),
        }
    }
}

/// The sweep `from to window [step]`. The step is the window where it is not
/// given.
pub open spec fn sweep_of(val: Seq<char>, nums: Numerals) -> Result<ActivitySweep, Seq<char>> {
    let toks = words(val);
    if toks.len() != 3 && toks.len() != 4 {
        Err("activity_sweep needs 'from to window [step]' with units, e.g. '0ns end 50ns'"@)
    } else {
        match seconds(toks[0], nums) {
            Ok(from_s) => match sweep_end(toks[1], nums) {
                Ok(to_s) => match seconds(toks[2], nums) {
                    Ok(window_s) => match (if toks.len() == 4 {
                        seconds(toks[3], nums)
                    } else {
                        Ok(window_s)
                    }) {
                        Ok(step_s) => measurable(ActivitySweep { from_s, to_s, window_s, step_s }),
                        Err(m) => Err(m),
                    },
                    Err(m) => Err(m),
                },
                Err(m) => Err(m),
            },
            Err(m) => Err(m),
        }
    }
}

/// The measurement window that the entries give, if any.
pub open spec fn window_given(e: EntriesView, nums: Numerals) -> Result<
    Option<(Double, Option<Double>)>,
    Seq<char>,
> {
    match e.given("activity_window"@) {
        Some(val) => match window_of(val, nums) {
            Ok(w) => Ok(Some(w)),
            Err(m) => Err(m),
        },
        None => Ok(None),
    }
}

/// The sweep that the entries give, if any.
pub open spec fn sweep_given(e: EntriesView, nums: Numerals) -> Result<
    Option<ActivitySweep>,
    Seq<char>,
> {
    match e.given("activity_sweep"@) {
        Some(val) => match sweep_of(val, nums) {
            Ok(s) => Ok(Some(s)),
            Err(m) => Err(m),
        },
        None => Ok(None),
    }
}

/// Why the window, the sweep and their outputs do not go together with the
/// sources that the entries give, if they do not.
pub open spec fn measurement_clash(
    e: EntriesView,
    window: Option<(Double, Option<Double>)>,
    sweep: Option<ActivitySweep>,
) -> Option<Seq<char>> {
    if sweep is Some && window is Some {
        Some("give either activity_window (one measurement) or activity_sweep (many), not both"@)
    } else if sweep is Some && e.given("vcd"@) is None {
        Some(
            "activity_sweep requires a 'vcd:' source (FST sweep is not implemented yet; SAIF is cumulative)"@,
        )
    } else if e.given("emit_power_vcd"@) is Some && sweep is None {
        Some(
            "emit_power_vcd requires an 'activity_sweep:' — a single measurement is one number, not a curve"@,
        )
    } else {
        None
    }
}

/// The job that the entries describe, or the first reason to refuse them.
pub open spec fn job_of(e: EntriesView, base_dir: Seq<char>, nums: Numerals) -> Result<
    JobView,
    Seq<char>,
> {
    if !e.kv.contains_key("lib"@) {
        Err("missing key: "@ + "lib"@)
    } else if list_of(e.kv["lib"@]).len() == 0 {
        Err("at least one lib is required"@)
    } else if e.clock is None {
        Err("missing key: clock"@)
    } else if e.sources_clash() {
        Err("specify only one vectored source: 'vcd', 'saif', or 'fst'"@)
    } else {
        match window_given(e, nums) {
            Err(m) => Err(m),
            Ok(window) => if window is Some && e.given("vcd"@) is None && e.given("fst"@) is None {
                Err(
                    "activity_window requires a 'vcd:' or 'fst:' source (SAIF is cumulative — re-dump a windowed sim instead)"@,
                )
            } else {
                match sweep_given(e, nums) {
                    Err(m) => Err(m),
                    Ok(sweep) => match measurement_clash(e, window, sweep) {
                        Some(m) => Err(m),
                        None => completed(e, base_dir, window, sweep, nums),
                    },
                }
            },
        }
    }
}

/// The job of entries whose measurement is settled.
pub open spec fn completed(
    e: EntriesView,
    base_dir: Seq<char>,
    window: Option<(Double, Option<Double>)>,
    sweep: Option<ActivitySweep>,
    nums: Numerals,
) -> Result<JobView, Seq<char>> {
    if !e.kv.contains_key("design"@) {
        Err("missing key: "@ + "design"@)
    } else if !e.kv.contains_key("netlist"@) {
        Err("missing key: "@ + "netlist"@)
    } else {
        match e.number_or("activity"@, Double { bits: DEFAULT_ACTIVITY_BITS }, nums) {
            Err(m) => Err(m),
            Ok(activity_factor) => match e.number_or(
                "default_wire_cap"@,
                Double { bits: ZERO_BITS },
                nums,
            ) {
                Err(m) => Err(m),
                Ok(default_wire_cap_pf) => Ok(
                    JobView {
                        design: e.kv["design"@],
                        netlist: e.kv["netlist"@],
                        libs: list_of(e.kv["lib"@]),
                        clock_port: e.clock.unwrap().0,
                        period_ns: e.clock.unwrap().1,
                        vdd: e.number("vdd"@, nums),
                        vcd: e.given("vcd"@),
                        saif: e.given("saif"@),
                        fst: e.given("fst"@),
                        activity_window: window,
                        activity_sweep: sweep,
                        scope: e.given("scope"@),
                        spef: e.given("spef"@),
                        activity_factor,
                        default_wire_cap_pf,
                        power_budget_mw: e.number("power_budget_mw"@, nums),
                        emit_activity: e.given("emit_activity"@),
                        emit_power_vcd: e.given("emit_power_vcd"@),
                        base_dir,
                    },
                ),
            },
        }
    }
}

/// The job that a text describes, or the first reason to refuse it.
pub open spec fn parsed(text: Seq<char>, base_dir: Seq<char>, nums: Numerals) -> Result<
    JobView,
    Seq<char>,
> {
    match entries_of(split_at_char(text, '\n'), nums) {
        Ok(e) => job_of(e, base_dir, nums),
        Err(m) => Err(m),
    }
}

impl Entries {
    fn given(&self, key: &str) -> (r: Option<String>)
        ensures
            opt_text(r) == self@.given(key@),
    {
        match self.kv.get(key) {
            Some(v) => if v.as_str().is_empty() {
                None
            } else {
                Some(v.clone())
            },
            None => None,
        }
    }

    fn required(&self, key: &str) -> (r: Result<String, JobError>)
        ensures
            match r {
                Ok(v) => self@.kv.contains_key(key@) && v@ == self@.kv[key@],
                Err(e) => !self@.kv.contains_key(key@) && e.0@ == "missing key: "@ + key@,
            },
    {
        match self.kv.get(key) {
            Some(v) => Ok(v.clone()),
            None => {
                let mut s = "missing key: ".to_owned();
                s.append(key);
                Err(JobError(s))
            },
        }
    }

    fn number(&self, key: &str, nums: &Numerals) -> (r: Option<Double>)
        ensures
            r == self@.number(key@, *nums),
    {
        match self.kv.get(key) {
            Some(v) => nums.get(v.as_str(), None),
            None => None,
        }
    }

    fn number_or(&self, key: &str, dflt: Double, nums: &Numerals) -> (r: Result<Double, JobError>)
        ensures
            match r {
                Ok(x) => self@.number_or(key@, dflt, *nums) == Ok::<Double, Seq<char>>(x),
                Err(e) => self@.number_or(key@, dflt, *nums) == Err::<Double, Seq<char>>(e.0@),
            },
    {
        match self.kv.get(key) {
            Some(v) => match nums.get(v.as_str(), None) {
                Some(x) => Ok(x),
                None => {
                    let mut s = "bad number for ".to_owned();
                    s.append(key);
                    s.append(": ");
                    Err(refuse_with(s.as_str(), v.as_str()))
                },
            },
            None => Ok(dflt),
        }
    }
}

fn parse_list(val: &str) -> (r: Vec<String>)
    ensures
        r.deep_view() == list_of(val@),
{
    let parts = split_char(val, ',');
    let ghost all = parts.deep_view().map_values(|t: Seq<char>| trimmed(t));
    let ghost pred = |t: Seq<char>| t.len() > 0;
    let n: usize = parts.len();
    let mut r: Vec<String> = Vec::new();
    let mut i: usize = 0;
    proof {
        reveal(Seq::filter);
        assert(all.take(0).filter(pred) =~= Seq::empty());
        assert(r.deep_view() =~= Seq::empty());
    }
    while i < n
        invariant
            n == parts@.len(),
            all == parts.deep_view().map_values(|t: Seq<char>| trimmed(t)),
            pred == (|t: Seq<char>| t.len() > 0),
            i <= n,
            r.deep_view() == all.take(i as int).filter(pred),
        decreases n - i,
    {
        let t = trim(parts[i].as_str());
        proof {
            reveal(Seq::filter);
            assert(all.take(i + 1).drop_last() =~= all.take(i as int));
            assert(all.take(i + 1).last() == t@);
        }
        if !t.is_empty() {
            let ghost before = r.deep_view();
            r.push(t.to_owned());
            assert(r.deep_view() =~= before.push(t@));
        }
        i += 1;
    }
    assert(all.take(n as int) =~= all);
    r
}

fn parse_time(tok: &str, nums: &Numerals) -> (r: Result<Double, JobError>)
    ensures
        match r {
            Ok(t) => seconds(tok@, *nums) == Ok::<Double, Seq<char>>(t),
            Err(e) => seconds(tok@, *nums) == Err::<Double, Seq<char>>(e.0@),
        },
{
    let s = lowercase(trim(tok));
    match split_unit(s.as_str()) {
        Some((num, unit)) => match nums.get(trim(num), Some(unit)) {
            Some(t) => Ok(t),
            None => Err(refuse_with("bad time value: ", tok)),
        },
        None => Err(refuse_with("time needs a unit (fs/ps/ns/us/ms/s): ", tok)),
    }
}

fn parse_window(val: &str, nums: &Numerals) -> (r: Result<(Double, Option<Double>), JobError>)
    ensures
        match r {
            Ok(w) => window_of(val@, *nums) == Ok::<(Double, Option<Double>), Seq<char>>(w),
            Err(e) => window_of(val@, *nums) == Err::<(Double, Option<Double>), Seq<char>>(e.0@),
        },
{
    let toks = split_whitespace(val);
    let ghost all = toks.deep_view();
    let n: usize = toks.len();
    assert(all.len() == n);
    if n != 1 && n != 2 {
        return Err(
            refuse("activity_window needs 'from [to]' with units, e.g. '200ns 1200ns'"),
        );
    }
    assert(all[0] == toks@[0]@);
    let from: Double = match parse_time(toks[0].as_str(), nums) {
        Ok(t) => t,
        Err(e) => {
            return Err(e);
        },
    };
    if n == 1 {
        return Ok((from, None));
    }
    assert(all[1] == toks@[1]@);
    let to: Double = match parse_time(toks[1].as_str(), nums) {
        Ok(t) => t,
        Err(e) => {
            return Err(e);
        },
    };
    if to.le(&from) {
        return Err(refuse("activity_window 'to' must be greater than 'from'"));
    }
    Ok((from, Some(to)))
}

fn parse_sweep_end(tok: &str, nums: &Numerals) -> (r: Result<Option<Double>, JobError>)
    ensures
        match r {
            Ok(t) => sweep_end(tok@, *nums) == Ok::<Option<Double>, Seq<char>>(t),
            Err(e) => sweep_end(tok@, *nums) == Err::<Option<Double>, Seq<char>>(e.0@),
        },
{
    if eq_ignore_ascii_case(tok, "end") {
        return Ok(None);
    }
    match parse_time(tok, nums) {
        Ok(t) => Ok(Some(t)),
        Err(e) => Err(e),
    }
}

fn check_sweep(s: ActivitySweep) -> (r: Result<ActivitySweep, JobError>)
    ensures
        match r {
            Ok(x) => measurable(s) == Ok::<ActivitySweep, Seq<char>>(x),
            Err(e) => measurable(s) == Err::<ActivitySweep, Seq<char>>(e.0@),
        },
{
    let zero = Double { bits: ZERO_BITS };
    if s.window_s.le(&zero) || s.step_s.le(&zero) {
        return Err(refuse("activity_sweep window and step must be positive durations"));
    }
    if let Some(to) = s.to_s {
        if to.le(&s.from_s) {
            return Err(refuse("activity_sweep 'to' must be greater than 'from'"));
        }
    }
    Ok(s)
}

fn parse_sweep(val: &str, nums: &Numerals) -> (r: Result<ActivitySweep, JobError>)
    ensures
        match r {
            Ok(s) => sweep_of(val@, *nums) == Ok::<ActivitySweep, Seq<char>>(s),
            Err(e) => sweep_of(val@, *nums) == Err::<ActivitySweep, Seq<char>>(e.0@),
        },
{
    let toks = split_whitespace(val);
    let ghost all = toks.deep_view();
    let n: usize = toks.len();
    assert(all.len() == n);
    if n != 3 && n != 4 {
        return Err(
            refuse(
                "activity_sweep needs 'from to window [step]' with units, e.g. '0ns end 50ns'",
            ),
        );
    }
    assert(all[0] == toks@[0]@);
    assert(all[1] == toks@[1]@);
    assert(all[2] == toks@[2]@);
    let from_s: Double = match parse_time(toks[0].as_str(), nums) {
        Ok(t) => t,
        Err(e) => {
            return Err(e);
        },
    };
    let to_s: Option<Double> = match parse_sweep_end(toks[1].as_str(), nums) {
        Ok(t) => t,
        Err(e) => {
            return Err(e);
        },
    };
    let window_s: Double = match parse_time(toks[2].as_str(), nums) {
        Ok(t) => t,
        Err(e) => {
            return Err(e);
        },
    };
    let step_s: Double = if n == 4 {
        assert(all[3] == toks@[3]@);
        match parse_time(toks[3].as_str(), nums) {
            Ok(t) => t,
            Err(e) => {
                return Err(e);
            },
        }
    } else {
        window_s
    };
    check_sweep(ActivitySweep { from_s, to_s, window_s, step_s })
}

impl Entries {
    fn window(&self, nums: &Numerals) -> (r: Result<Option<(Double, Option<Double>)>, JobError>)
        ensures
            match r {
                Ok(w) => window_given(self@, *nums) == Ok::<
                    Option<(Double, Option<Double>)>,
                    Seq<char>,
                >(w),
                Err(e) => window_given(self@, *nums) == Err::<
                    Option<(Double, Option<Double>)>,
                    Seq<char>,
                >(e.0@),
            },
    {
        match self.given("activity_window") {
            Some(val) => match parse_window(val.as_str(), nums) {
                Ok(w) => Ok(Some(w)),
                Err(e) => Err(e),
            },
            None => Ok(None),
        }
    }

    fn sweep(&self, nums: &Numerals) -> (r: Result<Option<ActivitySweep>, JobError>)
        ensures
            match r {
                Ok(s) => sweep_given(self@, *nums) == Ok::<Option<ActivitySweep>, Seq<char>>(s),
                Err(e) => sweep_given(self@, *nums) == Err::<Option<ActivitySweep>, Seq<char>>(
                    e.0@,
                ),
            },
    {
        match self.given("activity_sweep") {
            Some(val) => match parse_sweep(val.as_str(), nums) {
                Ok(s) => Ok(Some(s)),
                Err(e) => Err(e),
            },
            None => Ok(None),
        }
    }

    fn clash(
        &self,
        window: Option<(Double, Option<Double>)>,
        sweep: Option<ActivitySweep>,
    ) -> (r: Option<JobError>)
        ensures
            match r {
                Some(e) => measurement_clash(self@, window, sweep) == Some(e.0@),
                None => measurement_clash(self@, window, sweep) is None,
            },
    {
        if sweep.is_some() && window.is_some() {
            Some(
                refuse(
                    "give either activity_window (one measurement) or activity_sweep (many), not both",
                ),
            )
        } else if sweep.is_some() && self.given("vcd").is_none() {
            Some(
                refuse(
                    "activity_sweep requires a 'vcd:' source (FST sweep is not implemented yet; SAIF is cumulative)",
                ),
            )
        } else if self.given("emit_power_vcd").is_some() && sweep.is_none() {
            Some(
                refuse(
                    "emit_power_vcd requires an 'activity_sweep:' — a single measurement is one number, not a curve",
                ),
            )
        } else {
            None
        }
    }

    fn complete(
        &self,
        base_dir: &str,
        window: Option<(Double, Option<Double>)>,
        sweep: Option<ActivitySweep>,
        nums: &Numerals,
    ) -> (r: Result<PwrJob, JobError>)
        requires
            self@.kv.contains_key("lib"@),
            self@.clock is Some,
        ensures
            match r {
                Ok(j) => completed(self@, base_dir@, window, sweep, *nums) == Ok::<
                    JobView,
                    Seq<char>,
                >(j@),
                Err(e) => completed(self@, base_dir@, window, sweep, *nums) == Err::<
                    JobView,
                    Seq<char>,
                >(e.0@),
            },
    {
        let design = match self.required("design") {
            Ok(v) => v,
            Err(e) => {
                return Err(e);
            },
        };
        let netlist = match self.required("netlist") {
            Ok(v) => v,
            Err(e) => {
                return Err(e);
            },
        };
        let activity_factor: Double = match self.number_or(
            "activity",
            Double { bits: DEFAULT_ACTIVITY_BITS },
            nums,
        ) {
            Ok(x) => x,
            Err(e) => {
                return Err(e);
            },
        };
        let default_wire_cap_pf: Double = match self.number_or(
            "default_wire_cap",
            Double { bits: ZERO_BITS },
            nums,
        ) {
            Ok(x) => x,
            Err(e) => {
                return Err(e);
            },
        };
        let libs = match self.kv.get("lib") {
            Some(v) => parse_list(v.as_str()),
            None => Vec::new(),
        };
        let (clock_port, period_ns) = match &self.clock {
            Some((port, period)) => (port.clone(), *period),
            None => (String::new(), Double { bits: ZERO_BITS }),
        };
        Ok(
            PwrJob {
                design,
                netlist,
                libs,
                clock_port,
                period_ns,
                vdd: self.number("vdd", nums),
                vcd: self.given("vcd"),
                saif: self.given("saif"),
                fst: self.given("fst"),
                activity_window: window,
                activity_sweep: sweep,
                scope: self.given("scope"),
                spef: self.given("spef"),
                activity_factor,
                default_wire_cap_pf,
                power_budget_mw: self.number("power_budget_mw", nums),
                emit_activity: self.given("emit_activity"),
                emit_power_vcd: self.given("emit_power_vcd"),
                base_dir: base_dir.to_owned(),
            },
        )
    }

    fn into_job(&self, base_dir: &str, nums: &Numerals) -> (r: Result<PwrJob, JobError>)
        ensures
            match r {
                Ok(j) => job_of(self@, base_dir@, *nums) == Ok::<JobView, Seq<char>>(j@),
                Err(e) => job_of(self@, base_dir@, *nums) == Err::<JobView, Seq<char>>(e.0@),
            },
    {
        let lib = match self.required("lib") {
            Ok(v) => v,
            Err(e) => {
                return Err(e);
            },
        };
        let libs = parse_list(lib.as_str());
        assert(libs.deep_view().len() == libs@.len());
        if libs.len() == 0 {
            return Err(refuse("at least one lib is required"));
        }
        if self.clock.is_none() {
            return Err(refuse("missing key: clock"));
        }
        let vcd = self.given("vcd").is_some();
        let saif = self.given("saif").is_some();
        let fst = self.given("fst").is_some();
        if (vcd && saif) || (vcd && fst) || (saif && fst) {
            return Err(refuse("specify only one vectored source: 'vcd', 'saif', or 'fst'"));
        }
        let window: Option<(Double, Option<Double>)> = match self.window(nums) {
            Ok(w) => w,
            Err(e) => {
                return Err(e);
            },
        };
        if window.is_some() && !vcd && !fst {
            return Err(
                refuse(
                    "activity_window requires a 'vcd:' or 'fst:' source (SAIF is cumulative — re-dump a windowed sim instead)",
                ),
            );
        }
        let sweep: Option<ActivitySweep> = match self.sweep(nums) {
            Ok(s) => s,
            Err(e) => {
                return Err(e);
            },
        };
        match self.clash(window, sweep) {
            Some(e) => Err(e),
            None => self.complete(base_dir, window, sweep, nums),
        }
    }
}

impl PwrJob {
    /// Reads a job. Keys stand in any case and any order; the last of a key holds;
    /// unknown ones do not matter.
    pub fn parse(text: &str, base_dir: &str, nums: &Numerals) -> (r: Result<PwrJob, JobError>)
        ensures
            match r {
                Ok(j) => parsed(text@, base_dir@, *nums) == Ok::<JobView, Seq<char>>(j@),
                Err(e) => parsed(text@, base_dir@, *nums) == Err::<JobView, Seq<char>>(e.0@),
            },
    {
        match Entries::read(text, nums) {
            Ok(e) => e.into_job(base_dir, nums),
            Err(e) => Err(e),
        }
    }
}

// ---- the numerals of a job -----------------------------------------------------

/// Reading `val` may take the numeral `text` in `unit`: the value itself, one of
/// its words, or what stands before the unit of time at the end of a word.
pub open spec fn value_asks(val: Seq<char>, text: Seq<char>, unit: Option<TimeUnit>) -> bool {
    ||| unit is None && (text == val || words(val).contains(text))
    ||| exists|i: int| 0 <= i < words(val).len() && #[trigger] time_numeral(words(val)[i]) == Some((text, unit))
}

/// The numeral of a time token.
pub open spec fn time_numeral(tok: Seq<char>) -> Option<(Seq<char>, Option<TimeUnit>)> {
    match unit_split(lowered(trimmed(tok))) {
        Some((num, unit)) => Some((trimmed(num), Some(unit))),
        None => None,
    }
}

/// Reading the line may take the numeral.
pub open spec fn line_asks(raw: Seq<char>, text: Seq<char>, unit: Option<TimeUnit>) -> bool {
    match line_view(raw) {
        LineView::Entry(_, val) => value_asks(val, text, unit),
        _ => false,
    }
}

/// Reading one of the lines may take the numeral.
pub open spec fn lines_ask(lines: Seq<Seq<char>>, text: Seq<char>, unit: Option<TimeUnit>) -> bool {
    exists|i: int| 0 <= i < lines.len() && line_asks(#[trigger] lines[i], text, unit)
}

/// The numeral is in the list.
pub open spec fn lists(list: Seq<Numeral>, text: Seq<char>, unit: Option<TimeUnit>) -> bool {
    exists|i: int| 0 <= i < list.len() && (#[trigger] list[i]).is(text, unit)
}

/// Appends what `value_asks` speaks of.
fn push_numerals(list: &mut Vec<Numeral>, val: &str)
    ensures
        forall|t: Seq<char>, u: Option<TimeUnit>| #[trigger]
            lists(final(list)@, t, u) <==> lists(old(list)@, t, u) || value_asks(val@, t, u),
{
    let ghost before = list@;
    list.push(Numeral { text: val.to_owned(), unit: None });
    proof {
        assert forall|t: Seq<char>, u: Option<TimeUnit>| #[trigger]
            lists(list@, t, u) <==> lists(before, t, u) || (u is None && t == val@) by {
            lemma_lists_push(before, list@.last(), t, u);
        }
    }
    let toks = split_whitespace(val);
    let ghost all = toks.deep_view();
    let n: usize = toks.len();
    let mut i: usize = 0;
    while i < n
        invariant
            n == toks@.len(),
            all == toks.deep_view(),
            all == words(val@),
            i <= n,
            forall|t: Seq<char>, u: Option<TimeUnit>| #[trigger]
                lists(list@, t, u) <==> lists(before, t, u) || (u is None && t == val@) || tokens_ask(
                    all.take(i as int),
                    t,
                    u,
                ),
        decreases n - i,
    {
        let ghost entry = list@;
        let ghost w = toks@[i as int]@;
        assert(all[i as int] == w);
        list.push(Numeral { text: toks[i].clone(), unit: None });
        let ghost middle = list@;
        let low = lowercase(trim(toks[i].as_str()));
        if let Some((num, unit)) = split_unit(low.as_str()) {
            list.push(Numeral { text: trim(num).to_owned(), unit: Some(unit) });
        }
        proof {
            assert forall|t: Seq<char>, u: Option<TimeUnit>| #[trigger]
                lists(list@, t, u) <==> lists(before, t, u) || (u is None && t == val@)
                    || tokens_ask(all.take(i + 1), t, u) by {
                lemma_lists_push(entry, middle.last(), t, u);
                assert(middle =~= entry.push(middle.last()));
                if list@.len() > middle.len() {
                    lemma_lists_push(middle, list@.last(), t, u);
                    assert(list@ =~= middle.push(list@.last()));
                }
                lemma_tokens_ask_push(all, i as int, t, u);
                assert(lists(entry, t, u) <==> lists(before, t, u) || (u is None && t == val@)
                    || tokens_ask(all.take(i as int), t, u));
            }
        }
        i += 1;
    }
    proof {
        assert(all.take(n as int) =~= all);
        assert forall|t: Seq<char>, u: Option<TimeUnit>| #[trigger]
            lists(list@, t, u) <==> lists(before, t, u) || value_asks(val@, t, u) by {
            lemma_tokens_ask(val@, t, u);
        }
    }
}

/// One of the words gives the numeral.
spec fn tokens_ask(toks: Seq<Seq<char>>, text: Seq<char>, unit: Option<TimeUnit>) -> bool {
    ||| unit is None && toks.contains(text)
    ||| exists|i: int| 0 <= i < toks.len() && #[trigger] time_numeral(toks[i]) == Some((text, unit))
}

proof fn lemma_tokens_ask(val: Seq<char>, text: Seq<char>, unit: Option<TimeUnit>)
    ensures
        value_asks(val, text, unit) <==> (unit is None && text == val) || tokens_ask(
            words(val),
            text,
            unit,
        ),
{
}

proof fn lemma_tokens_ask_push(
    toks: Seq<Seq<char>>,
    n: int,
    text: Seq<char>,
    unit: Option<TimeUnit>,
)
    requires
        0 <= n < toks.len(),
    ensures
        tokens_ask(toks.take(n + 1), text, unit) <==> tokens_ask(toks.take(n), text, unit) || (unit
            is None && text == toks[n]) || time_numeral(toks[n]) == Some((text, unit)),
{
    let (a, b) = (toks.take(n), toks.take(n + 1));
    assert(b =~= a.push(toks[n]));
    assert(b[n] == toks[n]);
    if a.contains(text) {
        let i = a.index_of(text);
        assert(b[i] == text);
    }
    if b.contains(text) && !a.contains(text) {
        let i = b.index_of(text);
        if i < n {
            assert(a[i] == text);
        }
    }
    if exists|i: int| 0 <= i < a.len() && #[trigger] time_numeral(a[i]) == Some((text, unit)) {
        let i = choose|i: int|
            0 <= i < a.len() && #[trigger] time_numeral(a[i]) == Some((text, unit));
        assert(time_numeral(b[i]) == Some((text, unit)));
    }
    if exists|i: int| 0 <= i < b.len() && #[trigger] time_numeral(b[i]) == Some((text, unit)) {
        let i = choose|i: int|
            0 <= i < b.len() && #[trigger] time_numeral(b[i]) == Some((text, unit));
        if i < n {
            assert(time_numeral(a[i]) == Some((text, unit)));
        }
    }
    if time_numeral(toks[n]) == Some((text, unit)) {
        assert(time_numeral(b[n]) == Some((text, unit)));
    }
}

proof fn lemma_lists_push(list: Seq<Numeral>, x: Numeral, text: Seq<char>, unit: Option<TimeUnit>)
    ensures
        lists(list.push(x), text, unit) <==> lists(list, text, unit) || x.is(text, unit),
{
    let b = list.push(x);
    if lists(list, text, unit) {
        let i = choose|i: int| 0 <= i < list.len() && (#[trigger] list[i]).is(text, unit);
        assert(b[i].is(text, unit));
    }
    if x.is(text, unit) {
        assert(b[list.len() as int].is(text, unit));
    }
    if lists(b, text, unit) {
        let i = choose|i: int| 0 <= i < b.len() && (#[trigger] b[i]).is(text, unit);
        if i < list.len() {
            assert(list[i].is(text, unit));
        }
    }
}

impl PwrJob {
    /// Lists the numerals that `parse` may look up on this text.
    pub fn numerals(text: &str) -> (r: Vec<Numeral>)
        ensures
            forall|t: Seq<char>, u: Option<TimeUnit>| #[trigger]
                lists(r@, t, u) <==> lines_ask(split_at_char(text@, '\n'), t, u),
    {
        let lines = split_char(text, '\n');
        let ghost all = lines.deep_view();
        let n: usize = lines.len();
        let mut list: Vec<Numeral> = Vec::new();
        let mut i: usize = 0;
        while i < n
            invariant
                n == lines@.len(),
                all == lines.deep_view(),
                i <= n,
                forall|t: Seq<char>, u: Option<TimeUnit>| #[trigger]
                    lists(list@, t, u) <==> lines_ask(all.take(i as int), t, u),
            decreases n - i,
        {
            let ghost entry = list@;
            assert(all[i as int] == lines@[i as int]@);
            if let Line::Entry(_, val) = parse_line(lines[i].as_str()) {
                push_numerals(&mut list, val.as_str());
            }
            proof {
                assert forall|t: Seq<char>, u: Option<TimeUnit>| #[trigger]
                    lists(list@, t, u) <==> lines_ask(all.take(i + 1), t, u) by {
                    lemma_lines_ask_push(all, i as int, t, u);
                    assert(lists(entry, t, u) <==> lines_ask(all.take(i as int), t, u));
                }
            }
            i += 1;
        }
        assert(all.take(n as int) =~= all);
        list
    }
}

proof fn lemma_lines_ask_push(
    lines: Seq<Seq<char>>,
    n: int,
    text: Seq<char>,
    unit: Option<TimeUnit>,
)
    requires
        0 <= n < lines.len(),
    ensures
        lines_ask(lines.take(n + 1), text, unit) <==> lines_ask(lines.take(n), text, unit)
            || line_asks(lines[n], text, unit),
{
    let (a, b) = (lines.take(n), lines.take(n + 1));
    if lines_ask(a, text, unit) {
        let i = choose|i: int| 0 <= i < a.len() && line_asks(#[trigger] a[i], text, unit);
        assert(line_asks(b[i], text, unit));
    }
    if line_asks(lines[n], text, unit) {
        assert(line_asks(b[n], text, unit));
    }
    if lines_ask(b, text, unit) {
        let i = choose|i: int| 0 <= i < b.len() && line_asks(#[trigger] b[i], text, unit);
        if i < n {
            assert(line_asks(a[i], text, unit));
        }
    }
}

// ---- what a job says of itself -------------------------------------------------

/// The bits of the least number that, added to 1, makes a difference.
pub const EPSILON_BITS: u64 = 0x3cb0_0000_0000_0000;

/// The numbers of an activity description, as they are shown: the times of the
/// sweep, or else of the window, in nanoseconds with three decimals, and how far
/// the sweep's step lies from its window.
#[derive(Debug)]
pub struct ActivityFigures {
    pub from_ns: String,
    pub to_ns: String,
    pub window_ns: String,
    pub step_ns: String,
    pub step_less_window_s: Double,
}

/// The activity source that a job names.
pub open spec fn source_text(j: JobView) -> Seq<char> {
    match j.saif {
        Some(s) => "saif:"@ + s,
        None => match j.fst {
            Some(f) => "fst:"@ + f,
            None => match j.vcd {
                Some(v) => v,
                None => "vectorless"@,
            },
        },
    }
}

/// The end of a measurement, as it is shown.
pub open spec fn end_text(to: Option<Double>, to_ns: Seq<char>) -> Seq<char> {
    match to {
        Some(_) => to_ns + "ns"@,
        None => "end"@,
    }
}

/// The step of a sweep, as it is shown: not at all where it is the window.
pub open spec fn step_text(fig: ActivityFigures) -> Seq<char> {
    if fig.step_less_window_s.absolute().below(Double { bits: EPSILON_BITS }) {
        Seq::empty()
    } else {
        " step "@ + fig.step_ns@ + "ns"@
    }
}

/// The activity source and what of it is measured.
pub open spec fn activity_text(j: JobView, fig: ActivityFigures) -> Seq<char> {
    match j.activity_sweep {
        Some(s) => source_text(j) + " sweep ["@ + fig.from_ns@ + "ns,"@ + end_text(
            s.to_s,
            fig.to_ns@,
        ) + ") window "@ + fig.window_ns@ + "ns"@ + step_text(fig),
        None => match j.activity_window {
            Some((_, to)) => source_text(j) + " ["@ + fig.from_ns@ + "ns,"@ + end_text(
                to,
                fig.to_ns@,
            ) + ")"@,
            None => source_text(j),
        },
    }
}

fn end_string(to: Option<Double>, to_ns: &String) -> (r: String)
    ensures
        r@ == end_text(to, to_ns@),
{
    match to {
        Some(_) => {
            let mut s = to_ns.clone();
            s.append("ns");
            s
        },
        None => "end".to_owned(),
    }
}

/// The path is relative on every platform: it does not start at the root, and has
/// neither a drive nor a backslash, which not every platform reads alike.
pub open spec fn is_relative(path: Seq<char>) -> bool {
    !path.contains('\\') && !path.contains(':') && (path.len() == 0 || path[0] != '/')
}

/// The path starts at the root.
pub open spec fn is_rooted(path: Seq<char>) -> bool {
    path.len() > 0 && path[0] == '/'
}

/// The directory names no drive or share, in no spelling of any platform.
pub open spec fn is_driveless(dir: Seq<char>) -> bool {
    !dir.contains('\\') && !dir.contains(':') && !(dir.len() > 1 && dir[0] == '/' && dir[1] == '/')
}

/// `r` is the path `rel` below the directory: with a separator of the platform
/// between the two, or none where the directory ends in a separator or a drive.
pub open spec fn is_below(dir: Seq<char>, rel: Seq<char>, r: Seq<char>) -> bool {
    ||| (dir.last() == '/' || dir.last() == ':') && r == dir + rel
    ||| dir.last() != '/' && (r == dir.push('/') + rel || r == dir.push('\\') + rel)
}

/// Is the path absolute on this machine? By `Path::is_absolute`. Which paths are
/// absolute depends on the platform; one that starts with no root and names no
/// drive is so on none, and of no other path anything is said.
#[verifier::external_body]
fn path_is_absolute(path: &str) -> (r: bool)
    ensures
        is_relative(path@) ==> !r,
{
    std::path::Path::new(path).is_absolute()
}

/// The path below the directory, by `Path::join`. A relative path is adjoined to
/// the directory as components of their own, with the platform's separator, `/` or
/// a backslash, between the two where one is needed. A path with a root takes the
/// place of all but a drive or share of the directory. Where the directory holds a
/// backslash, or the path a backslash or a colon, platforms differ and nothing is
/// said.
#[verifier::external_body]
fn path_join(dir: &str, path: &str) -> (r: String)
    ensures
        dir@.len() > 0 && !dir@.contains('\\') && is_relative(path@) ==> is_below(dir@, path@, r@),
        is_rooted(path@) && is_driveless(dir@) ==> r@ == path@,
{
    std::path::Path::new(dir).join(path).to_string_lossy().into_owned()
}

impl PwrJob {
    /// The activity source by itself, for status lines.
    pub fn source_name(&self) -> (r: String)
        ensures
            r@ == source_text(self@),
    {
        let mut s = String::new();
        if let Some(saif) = &self.saif {
            s.append("saif:");
            s.append(saif.as_str());
            assert(s@ =~= source_text(self@));
        } else if let Some(fst) = &self.fst {
            s.append("fst:");
            s.append(fst.as_str());
            assert(s@ =~= source_text(self@));
        } else if let Some(vcd) = &self.vcd {
            s.append(vcd.as_str());
            assert(s@ =~= source_text(self@));
        } else {
            s.append("vectorless");
            assert(s@ =~= source_text(self@));
        }
        s
    }

    /// The activity source in words, with what of it is measured.
    pub fn activity_desc(&self, fig: &ActivityFigures) -> (r: String)
        ensures
            r@ == activity_text(self@, *fig),
    {
        let mut s = self.source_name();
        if let Some(sweep) = self.activity_sweep {
            s.append(" sweep [");
            s.append(fig.from_ns.as_str());
            s.append("ns,");
            s.append(end_string(sweep.to_s, &fig.to_ns).as_str());
            s.append(") window ");
            s.append(fig.window_ns.as_str());
            s.append("ns");
            let ghost before = s@;
            if !fig.step_less_window_s.abs().lt(&Double { bits: EPSILON_BITS }) {
                s.append(" step ");
                s.append(fig.step_ns.as_str());
                s.append("ns");
            }
            assert(s@ =~= before + step_text(*fig));
        } else if let Some((_, to)) = self.activity_window {
            s.append(" [");
            s.append(fig.from_ns.as_str());
            s.append("ns,");
            s.append(end_string(to, &fig.to_ns).as_str());
            s.append(")");
        }
        s
    }

    /// The path that a job-relative path stands for, where it is known whether
    /// that path is absolute and what it is below the job's directory.
    pub fn resolve_as(&self, rel: &str, absolute: bool, below: &str) -> (r: String)
        ensures
            r@ == if absolute || self.base_dir@.len() == 0 {
                rel@
            } else {
                below@
            },
    {
        if absolute || self.base_dir.as_str().is_empty() {
            rel.to_owned()
        } else {
            below.to_owned()
        }
    }

    /// Resolves a job-relative path against the job's directory. A job without a
    /// directory leaves every path as it is. One with a directory puts a relative
    /// path below it, and leaves a path as it is that starts at the root. Which
    /// other paths are absolute, and how they are joined, is up to the platform.
    pub fn resolve(&self, rel: &str) -> (r: String)
        ensures
            self.base_dir@.len() == 0 ==> r@ == rel@,
            self.base_dir@.len() > 0 && !self.base_dir@.contains('\\') && is_relative(rel@)
                ==> is_below(self.base_dir@, rel@, r@),
            is_rooted(rel@) && is_driveless(self.base_dir@) ==> r@ == rel@,
    {
        let absolute = path_is_absolute(rel);
        let below = path_join(self.base_dir.as_str(), rel);
        self.resolve_as(rel, absolute, below.as_str())
    }
}

// ---- laws ----------------------------------------------------------------------

/// The two tables agree on every numeral that reading `val` may take.
spec fn alike_on(a: Numerals, b: Numerals, val: Seq<char>) -> bool {
    forall|t: Seq<char>, u: Option<TimeUnit>| #[trigger] value_asks(val, t, u) ==> a.agrees(b, t, u)
}

/// The two tables agree on the value of every key.
spec fn alike_on_values(a: Numerals, b: Numerals, e: EntriesView) -> bool {
    forall|k: Seq<char>| #[trigger] e.kv.contains_key(k) ==> alike_on(a, b, e.kv[k])
}

proof fn lemma_clock_alike(a: Numerals, b: Numerals, val: Seq<char>)
    requires
        alike_on(a, b, val),
    ensures
        clock_of(val, a) == clock_of(val, b),
{
    if words(val).len() == 2 {
        assert(words(val).contains(words(val)[1]));
        assert(value_asks(val, words(val)[1], None));
    }
}

proof fn lemma_seconds_alike(a: Numerals, b: Numerals, val: Seq<char>, i: int)
    requires
        alike_on(a, b, val),
        0 <= i < words(val).len(),
    ensures
        seconds(words(val)[i], a) == seconds(words(val)[i], b),
{
    let tok = words(val)[i];
    if let Some((num, unit)) = unit_split(lowered(trimmed(tok))) {
        assert(time_numeral(words(val)[i]) == Some((trimmed(num), Some(unit))));
        assert(value_asks(val, trimmed(num), Some(unit)));
    }
}

proof fn lemma_window_alike(a: Numerals, b: Numerals, val: Seq<char>)
    requires
        alike_on(a, b, val),
    ensures
        window_of(val, a) == window_of(val, b),
{
    if words(val).len() > 0 {
        lemma_seconds_alike(a, b, val, 0);
    }
    if words(val).len() > 1 {
        lemma_seconds_alike(a, b, val, 1);
    }
}

proof fn lemma_sweep_alike(a: Numerals, b: Numerals, val: Seq<char>)
    requires
        alike_on(a, b, val),
    ensures
        sweep_of(val, a) == sweep_of(val, b),
{
    if words(val).len() == 3 || words(val).len() == 4 {
        lemma_seconds_alike(a, b, val, 0);
        lemma_seconds_alike(a, b, val, 1);
        lemma_seconds_alike(a, b, val, 2);
        if words(val).len() == 4 {
            lemma_seconds_alike(a, b, val, 3);
        }
    }
}

proof fn lemma_number_alike(a: Numerals, b: Numerals, e: EntriesView, key: Seq<char>, dflt: Double)
    requires
        alike_on_values(a, b, e),
    ensures
        e.number(key, a) == e.number(key, b),
        e.number_or(key, dflt, a) == e.number_or(key, dflt, b),
{
    if e.kv.contains_key(key) {
        assert(alike_on(a, b, e.kv[key]));
        assert(value_asks(e.kv[key], e.kv[key], None));
    }
}

proof fn lemma_job_alike(a: Numerals, b: Numerals, e: EntriesView, base_dir: Seq<char>)
    requires
        alike_on_values(a, b, e),
    ensures
        job_of(e, base_dir, a) == job_of(e, base_dir, b),
{
    if let Some(val) = e.given("activity_window"@) {
        assert(alike_on(a, b, e.kv["activity_window"@]));
        lemma_window_alike(a, b, val);
    }
    if let Some(val) = e.given("activity_sweep"@) {
        assert(alike_on(a, b, e.kv["activity_sweep"@]));
        lemma_sweep_alike(a, b, val);
    }
    lemma_number_alike(a, b, e, "vdd"@, Double { bits: ZERO_BITS });
    lemma_number_alike(a, b, e, "power_budget_mw"@, Double { bits: ZERO_BITS });
    lemma_number_alike(a, b, e, "activity"@, Double { bits: DEFAULT_ACTIVITY_BITS });
    lemma_number_alike(a, b, e, "default_wire_cap"@, Double { bits: ZERO_BITS });
}

proof fn lemma_entries_alike(a: Numerals, b: Numerals, lines: Seq<Seq<char>>)
    requires
        forall|t: Seq<char>, u: Option<TimeUnit>| #[trigger]
            lines_ask(lines, t, u) ==> a.agrees(b, t, u),
    ensures
        entries_of(lines, a) == entries_of(lines, b),
        entries_of(lines, a) matches Ok(e) ==> alike_on_values(a, b, e),
    decreases lines.len(),
{
    if lines.len() > 0 {
        let front = lines.drop_last();
        let raw = lines.last();
        assert forall|t: Seq<char>, u: Option<TimeUnit>| #[trigger]
            lines_ask(front, t, u) implies a.agrees(b, t, u) by {
            let i = choose|i: int| 0 <= i < front.len() && line_asks(#[trigger] front[i], t, u);
            assert(line_asks(lines[i], t, u));
            assert(lines_ask(lines, t, u));
        }
        lemma_entries_alike(a, b, front);
        if let LineView::Entry(key, val) = line_view(raw) {
            assert forall|t: Seq<char>, u: Option<TimeUnit>| #[trigger]
                value_asks(val, t, u) implies a.agrees(b, t, u) by {
                assert(line_asks(lines[lines.len() - 1], t, u));
                assert(lines_ask(lines, t, u));
            }
            assert(alike_on(a, b, val));
            lemma_clock_alike(a, b, val);
        }
    }
}

/// A job depends on how its numerals are read, and on nothing else outside of its
/// text: two tables that read the listed numerals alike give the same job, or the
/// same refusal.
pub proof fn the_listed_numerals_settle_the_job(
    text: Seq<char>,
    base_dir: Seq<char>,
    a: Numerals,
    b: Numerals,
)
    requires
        forall|t: Seq<char>, u: Option<TimeUnit>| #[trigger]
            lines_ask(split_at_char(text, '\n'), t, u) ==> a.agrees(b, t, u),
    ensures
        parsed(text, base_dir, a) == parsed(text, base_dir, b),
{
    lemma_entries_alike(a, b, split_at_char(text, '\n'));
    if let Ok(e) = entries_of(split_at_char(text, '\n'), a) {
        lemma_job_alike(a, b, e, base_dir);
    }
}

impl JobView {
    /// How many vectored sources the job names.
    pub open spec fn sources(self) -> int {
        (if self.vcd is Some { 1int } else { 0 }) + (if self.saif is Some { 1int } else { 0 }) + (
        if self.fst is Some { 1int } else { 0 })
    }

    /// The window, if there is one, does not end at or before its start.
    pub open spec fn window_runs_forward(self) -> bool {
        match self.activity_window {
            Some((from, Some(to))) => !to.at_most(from),
            _ => true,
        }
    }
}

/// What an accepted job keeps: at least one library; at most one vectored source;
/// a window only over a dump with a timeline; a sweep only over a VCD, measurable,
/// and never beside a window; a power curve only of a sweep.
pub proof fn an_accepted_job_is_consistent(text: Seq<char>, base_dir: Seq<char>, nums: Numerals)
    requires
        parsed(text, base_dir, nums) is Ok,
    ensures
        parsed(text, base_dir, nums)->Ok_0.libs.len() > 0,
        parsed(text, base_dir, nums)->Ok_0.sources() <= 1,
        parsed(text, base_dir, nums)->Ok_0.activity_window is Some ==> parsed(
            text,
            base_dir,
            nums,
        )->Ok_0.vcd is Some || parsed(text, base_dir, nums)->Ok_0.fst is Some,
        parsed(text, base_dir, nums)->Ok_0.window_runs_forward(),
        parsed(text, base_dir, nums)->Ok_0.activity_sweep is Some ==> parsed(
            text,
            base_dir,
            nums,
        )->Ok_0.vcd is Some && parsed(text, base_dir, nums)->Ok_0.activity_window is None,
        parsed(text, base_dir, nums)->Ok_0.activity_sweep matches Some(s) ==> measurable(s)
            == Ok::<ActivitySweep, Seq<char>>(s),
        parsed(text, base_dir, nums)->Ok_0.emit_power_vcd is Some ==> parsed(
            text,
            base_dir,
            nums,
        )->Ok_0.activity_sweep is Some,
        parsed(text, base_dir, nums)->Ok_0.base_dir == base_dir,
{
}

/// A comment at the end of a line changes nothing.
pub proof fn a_comment_changes_nothing(line: Seq<char>, comment: Seq<char>)
    ensures
        line_view(line + seq!['#'] + comment) == line_view(line),
{
    let long = line + seq!['#'] + comment;
    lemma_first_of(line, '#');
    let k = first_of(line, '#');
    assert forall|i: int| 0 <= i < k implies #[trigger] long[i] != '#' by {
        assert(long[i] == line[i]);
    }
    assert(long[k as int] == '#');
    lemma_first_of_is(long, '#', k);
    assert(uncommented(long) =~= uncommented(line));
}

/// A line says its key, whatever its case, and its value, whatever white space is
/// around them.
pub proof fn a_line_says_its_key_and_value(key: Seq<char>, val: Seq<char>)
    requires
        !key.contains(':'),
        !key.contains('#'),
        !val.contains('#'),
    ensures
        line_view(key + seq![':'] + val) == LineView::Entry(lowered(trimmed(key)), trimmed(val)),
{
    let raw = key + seq![':'] + val;
    assert forall|i: int| 0 <= i < raw.len() implies #[trigger] raw[i] != '#' by {
        if i < key.len() {
            assert(key.contains(key[i]));
        } else if i > key.len() {
            assert(val.contains(val[i - key.len() - 1]));
        }
    }
    lemma_first_of_is(raw, '#', raw.len());
    assert(uncommented(raw) =~= raw);
    assert(raw =~= key.push(':') + val);
    lemma_trimmed_around(key, ':', val);
    let front = trim_start(key);
    let back = trim_end(val);
    let line = front.push(':') + back;
    let w = lemma_trim_start(key);
    assert forall|i: int| 0 <= i < front.len() implies #[trigger] line[i] != ':' by {
        assert(line[i] == front[i]);
        assert(key[w.len() + i] == front[i]);
        assert(key.contains(key[w.len() + i]));
    }
    lemma_first_of_is(line, ':', front.len());
    assert(line.take(front.len() as int) =~= front);
    assert(line.skip(front.len() as int + 1) =~= back);
}

/// Entries whose keys are the same in lower case, and whose values are the same,
/// but for white space around them, say the same.
pub proof fn an_entry_is_spelled_in_many_ways(
    key: Seq<char>,
    val: Seq<char>,
    other_key: Seq<char>,
    other_val: Seq<char>,
)
    requires
        !key.contains(':') && !key.contains('#') && !val.contains('#'),
        !other_key.contains(':') && !other_key.contains('#') && !other_val.contains('#'),
        lowered(trimmed(key)) == lowered(trimmed(other_key)),
        trimmed(val) == trimmed(other_val),
    ensures
        line_view(key + seq![':'] + val) == line_view(other_key + seq![':'] + other_val),
{
    a_line_says_its_key_and_value(key, val);
    a_line_says_its_key_and_value(other_key, other_val);
}

/// What the lines say, in order. Blank ones say nothing.
pub open spec fn told(lines: Seq<Seq<char>>) -> Seq<LineView>
    decreases lines.len(),
{
    if lines.len() == 0 {
        Seq::empty()
    } else if line_view(lines.last()) is Blank {
        told(lines.drop_last())
    } else {
        told(lines.drop_last()).push(line_view(lines.last()))
    }
}

/// The entries of lines that say this, one after the other.
spec fn entries_told(say: Seq<LineView>, nums: Numerals) -> Result<EntriesView, Seq<char>>
    decreases say.len(),
{
    if say.len() == 0 {
        Ok(EntriesView { kv: Map::empty(), clock: None })
    } else {
        match entries_told(say.drop_last(), nums) {
            Ok(e) => with_told(e, say.last(), nums),
            Err(m) => Err(m),
        }
    }
}

proof fn lemma_entries_told(lines: Seq<Seq<char>>, nums: Numerals)
    ensures
        entries_of(lines, nums) == entries_told(told(lines), nums),
    decreases lines.len(),
{
    if lines.len() > 0 {
        lemma_entries_told(lines.drop_last(), nums);
        let before = told(lines.drop_last());
        let say = line_view(lines.last());
        if !(say is Blank) {
            assert(before.push(say).drop_last() =~= before);
        }
    }
}

/// A job is what its lines say: texts whose lines say the same, whatever blank lines
/// and comments they have and however their entries are spelled, are the same job,
/// or are refused for the same reason.
pub proof fn a_job_is_what_its_lines_say(
    text: Seq<char>,
    other: Seq<char>,
    base_dir: Seq<char>,
    nums: Numerals,
)
    requires
        told(split_at_char(text, '\n')) == told(split_at_char(other, '\n')),
    ensures
        parsed(text, base_dir, nums) == parsed(other, base_dir, nums),
{
    lemma_entries_told(split_at_char(text, '\n'), nums);
    lemma_entries_told(split_at_char(other, '\n'), nums);
}

proof fn lemma_told_add(front: Seq<Seq<char>>, back: Seq<Seq<char>>)
    ensures
        told(front + back) == told(front) + told(back),
    decreases back.len(),
{
    if back.len() == 0 {
        assert(front + back =~= front);
        assert(told(front) + told(back) =~= told(front));
    } else {
        assert((front + back).drop_last() =~= front + back.drop_last());
        assert((front + back).last() == back.last());
        lemma_told_add(front, back.drop_last());
        let (a, b) = (told(front), told(back.drop_last()));
        let say = line_view(back.last());
        assert((a + b).push(say) =~= a + b.push(say));
    }
}

/// A blank line, wherever it stands, changes no job.
pub proof fn a_blank_line_changes_no_job(
    text: Seq<char>,
    other: Seq<char>,
    front: Seq<Seq<char>>,
    blank: Seq<char>,
    back: Seq<Seq<char>>,
    base_dir: Seq<char>,
    nums: Numerals,
)
    requires
        split_at_char(text, '\n') == front + back,
        split_at_char(other, '\n') == front + seq![blank] + back,
        line_view(blank) is Blank,
    ensures
        parsed(other, base_dir, nums) == parsed(text, base_dir, nums),
{
    lemma_told_add(front, back);
    lemma_told_add(front + seq![blank], back);
    lemma_told_add(front, seq![blank]);
    assert(seq![blank].drop_last() =~= Seq::<Seq<char>>::empty());
    assert(told(seq![blank].drop_last()) =~= Seq::<LineView>::empty());
    assert(told(front) + told(seq![blank]) =~= told(front));
    a_job_is_what_its_lines_say(text, other, base_dir, nums);
}

/// A line in place of one that says the same changes no job.
pub proof fn a_respelled_line_changes_no_job(
    text: Seq<char>,
    other: Seq<char>,
    i: int,
    line: Seq<char>,
    base_dir: Seq<char>,
    nums: Numerals,
)
    requires
        0 <= i < split_at_char(text, '\n').len(),
        split_at_char(other, '\n') == split_at_char(text, '\n').update(i, line),
        line_view(line) == line_view(split_at_char(text, '\n')[i]),
    ensures
        parsed(other, base_dir, nums) == parsed(text, base_dir, nums),
{
    let lines = split_at_char(text, '\n');
    let (front, back) = (lines.take(i), lines.skip(i + 1));
    let (old_line, new_line) = (seq![lines[i]], seq![line]);
    assert(lines =~= front + old_line + back);
    assert(lines.update(i, line) =~= front + new_line + back);
    lemma_told_add(front + old_line, back);
    lemma_told_add(front, old_line);
    lemma_told_add(front + new_line, back);
    lemma_told_add(front, new_line);
    assert(old_line.drop_last() =~= new_line.drop_last());
    assert(told(old_line) == told(new_line));
    a_job_is_what_its_lines_say(text, other, base_dir, nums);
}

/// The line is one of this key.
pub open spec fn is_line_of(raw: Seq<char>, key: Seq<char>) -> bool {
    line_view(raw) matches LineView::Entry(k, _) && k == key
}

/// A line of this key is among the lines.
pub open spec fn has_line_of(lines: Seq<Seq<char>>, key: Seq<char>) -> bool {
    exists|i: int| 0 <= i < lines.len() && #[trigger] is_line_of(lines[i], key)
}

/// The entries differ at most in the value of `key`, and are the same where a line
/// of it came.
spec fn alike_but(
    a: Result<EntriesView, Seq<char>>,
    b: Result<EntriesView, Seq<char>>,
    key: Seq<char>,
    came: bool,
) -> bool {
    match (a, b) {
        (Ok(x), Ok(y)) => x.clock == y.clock && x.kv.remove(key) == y.kv.remove(key) && (came
            ==> x.kv == y.kv),
        (Err(m), Err(n)) => m == n,
        _ => false,
    }
}

proof fn lemma_earlier_line(
    front: Seq<Seq<char>>,
    early: Seq<char>,
    back: Seq<Seq<char>>,
    key: Seq<char>,
    val: Seq<char>,
    nums: Numerals,
)
    requires
        line_view(early) == LineView::Entry(key, val),
        key != "clock"@,
    ensures
        alike_but(
            entries_of(front + back, nums),
            entries_of(front + seq![early] + back, nums),
            key,
            has_line_of(back, key),
        ),
    decreases back.len(),
{
    let without = front + back;
    let with = front + seq![early] + back;
    if back.len() == 0 {
        assert(without =~= front);
        assert(with.drop_last() =~= front);
        assert(with.last() == early);
        if let Ok(e) = entries_of(front, nums) {
            assert(e.kv.insert(key, val).remove(key) =~= e.kv.remove(key));
        }
    } else {
        let inner = back.drop_last();
        let last = back.last();
        assert(without.drop_last() =~= front + inner);
        assert(without.last() == last);
        assert(with.drop_last() =~= front + seq![early] + inner);
        assert(with.last() == last);
        lemma_earlier_line(front, early, inner, key, val, nums);
        let came = has_line_of(inner, key);
        if has_line_of(back, key) && !came {
            let i = choose|i: int| 0 <= i < back.len() && #[trigger] is_line_of(back[i], key);
            if i < inner.len() {
                assert(is_line_of(inner[i], key));
            }
            assert(is_line_of(last, key));
        }
        if let (Ok(x), Ok(y)) = (
            entries_of(front + inner, nums),
            entries_of(front + seq![early] + inner, nums),
        ) {
            if let LineView::Entry(k, v) = line_view(last) {
                if k == key {
                    assert(x.kv.insert(k, v) =~= x.kv.remove(key).insert(k, v));
                    assert(y.kv.insert(k, v) =~= y.kv.remove(key).insert(k, v));
                } else {
                    assert(x.kv.insert(k, v).remove(key) =~= x.kv.remove(key).insert(k, v));
                    assert(y.kv.insert(k, v).remove(key) =~= y.kv.remove(key).insert(k, v));
                }
            }
        }
    }
}

/// The last of the lines of a key holds: another line of the key, put in anywhere
/// before it, changes no job. The clock is no such key, since each of its lines is
/// read.
pub proof fn an_earlier_line_changes_no_job(
    text: Seq<char>,
    other: Seq<char>,
    front: Seq<Seq<char>>,
    early: Seq<char>,
    back: Seq<Seq<char>>,
    key: Seq<char>,
    val: Seq<char>,
    base_dir: Seq<char>,
    nums: Numerals,
)
    requires
        split_at_char(text, '\n') == front + back,
        split_at_char(other, '\n') == front + seq![early] + back,
        line_view(early) == LineView::Entry(key, val),
        key != "clock"@,
        has_line_of(back, key),
    ensures
        parsed(other, base_dir, nums) == parsed(text, base_dir, nums),
{
    lemma_earlier_line(front, early, back, key, val, nums);
}

/// The last line of a key holds, whatever an earlier line says of it.
pub proof fn the_last_value_of_a_key_holds(
    lines: Seq<Seq<char>>,
    raw: Seq<char>,
    key: Seq<char>,
    val: Seq<char>,
    nums: Numerals,
)
    requires
        line_view(raw) == LineView::Entry(key, val),
        key != "clock"@,
        entries_of(lines, nums) is Ok,
    ensures
        entries_of(lines.push(raw), nums) is Ok,
        entries_of(lines.push(raw), nums)->Ok_0.kv.contains_key(key),
        entries_of(lines.push(raw), nums)->Ok_0.kv[key] == val,
        entries_of(lines.push(raw), nums)->Ok_0.clock == entries_of(lines, nums)->Ok_0.clock,
{
    assert(lines.push(raw).drop_last() =~= lines);
}

} // verus!
