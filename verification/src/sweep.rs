//! Power over the workload: one row for each measurement window of a sweep, and
//! the peak window.
//!
//! The peak is the point of a sweep. Voltage drop and electromigration follow the
//! busiest window, and the average over a dump hides it.

use crate::double::Double;
use crate::format::{fmt_w, json_text, jstr, watts_text, Quantity};
use crate::power::PowerReport;
use crate::render::{comma, comma_after, count_text};
use crate::text::{decimal, decimal_text, push_right_aligned, right_aligned};
use vstd::prelude::*;
use vstd::string::*;

verus! {

/// One window of a sweep: when it ran, how busy it was, and what it cost.
#[derive(Clone, Copy, Debug)]
pub struct WindowPower {
    pub index: usize,
    pub from_s: Double,
    pub to_s: Double,
    /// Value changes in the window.
    pub events: u64,
    pub leakage_w: Double,
    pub internal_w: Double,
    pub switch_w: Double,
    pub sequential_w: Double,
    pub combinational_w: Double,
    pub clock_w: Double,
    pub covered_nets: usize,
}

/// The windows of a sweep, and the report of its peak.
#[derive(Clone, Debug)]
pub struct SweepReport {
    pub design: String,
    pub vdd: Double,
    pub mode: String,
    pub dump_end_s: Double,
    pub windows: Vec<WindowPower>,
    /// The place of the peak among the windows.
    pub peak: usize,
    pub peak_report: PowerReport,
}

impl SweepReport {
    /// The peak is one of the windows.
    pub open spec fn well_formed(self) -> bool {
        self.peak < self.windows@.len()
    }

    /// The window that costs most.
    pub fn peak_window(&self) -> (r: &WindowPower)
        requires
            self.well_formed(),
        ensures
            *r == self.windows@[self.peak as int],
    {
        &self.windows[self.peak]
    }
}

// ---- the peak ------------------------------------------------------------------

/// The place of the peak among the first `n` windows: a window takes the place of
/// the peak when it costs strictly more.
pub open spec fn peak_among(totals: Seq<Double>, n: int) -> int
    decreases n,
{
    if n <= 1 {
        0
    } else if totals[peak_among(totals, n - 1)].below(totals[n - 1]) {
        n - 1
    } else {
        peak_among(totals, n - 1)
    }
}

/// The peak is the first of the busiest windows: no window costs more, and each
/// one before it costs less.
pub proof fn the_peak_is_the_first_of_the_busiest(totals: Seq<Double>, n: int, i: int)
    requires
        0 <= i < n <= totals.len(),
        forall|k: int| 0 <= k < n ==> !(#[trigger] totals[k]).nan(),
    ensures
        0 <= peak_among(totals, n) < n,
        totals[i].at_most(totals[peak_among(totals, n)]),
        i < peak_among(totals, n) ==> totals[i].below(totals[peak_among(totals, n)]),
    decreases n,
{
    assert(!totals[i].nan());
    if n > 1 {
        assert(!totals[n - 1].nan());
        let before = peak_among(totals, n - 1);
        if i < n - 1 {
            the_peak_is_the_first_of_the_busiest(totals, n - 1, i);
        } else {
            the_peak_is_the_first_of_the_busiest(totals, n - 1, 0);
        }
        assert(!totals[before].nan());
    }
}

/// The windows of a sweep that are analyzed so far: their rows, their total powers,
/// and the report of the peak.
#[derive(Debug)]
pub struct Sweeping {
    pub windows: Vec<WindowPower>,
    pub totals: Vec<Double>,
    pub peak: usize,
    pub peak_report: Option<PowerReport>,
}

impl Sweeping {
    /// The rows are numbered in order, and the peak is that of the totals.
    pub open spec fn well_formed(self) -> bool {
        &&& self.totals@.len() == self.windows@.len()
        &&& forall|k: int|
            0 <= k < self.windows@.len() ==> (#[trigger] self.windows@[k]).index == k
        &&& self.peak_report is Some <==> self.windows@.len() > 0
        &&& self.windows@.len() > 0 ==> self.peak < self.windows@.len() && self.peak == peak_among(
            self.totals@,
            self.totals@.len() as int,
        )
    }

    /// These reports came with the windows, one with each, and the one of the peak
    /// is kept.
    pub open spec fn keeps(self, reports: Seq<PowerReport>) -> bool {
        &&& reports.len() == self.windows@.len()
        &&& self.windows@.len() > 0 ==> self.peak_report == Some(reports[self.peak as int])
    }

    /// Starts a sweep.
    pub fn new() -> (r: Sweeping)
        ensures
            r.well_formed(),
            r.windows@.len() == 0,
            r.keeps(Seq::empty()),
    {
        Sweeping { windows: Vec::new(), totals: Vec::new(), peak: 0, peak_report: None }
    }

    /// Adds the next window. Its report takes the place of the peak's where it is the
    /// first, or costs strictly more.
    pub fn add(&mut self, row: WindowPower, total_w: Double, report: PowerReport)
        requires
            old(self).well_formed(),
            row.index == old(self).windows@.len(),
        ensures
            final(self).well_formed(),
            final(self).windows@ == old(self).windows@.push(row),
            final(self).totals@ == old(self).totals@.push(total_w),
            final(self).peak == if old(self).windows@.len() == 0
                || old(self).totals@[old(self).peak as int].below(total_w) {
                old(self).windows@.len()
            } else {
                old(self).peak as nat
            },
            final(self).peak_report == if old(self).windows@.len() == 0
                || old(self).totals@[old(self).peak as int].below(total_w) {
                Some(report)
            } else {
                old(self).peak_report
            },
            forall|reports: Seq<PowerReport>|
                old(self).keeps(reports) ==> final(self).keeps(#[trigger] reports.push(report)),
    {
        let n: usize = self.windows.len();
        let ghost before = self.totals@;
        if n == 0 || self.totals[self.peak].lt(&total_w) {
            self.peak = n;
            self.peak_report = Some(report);
        }
        self.windows.push(row);
        self.totals.push(total_w);
        proof {
            lemma_peak_of_prefix(before, total_w, n as int);
        }
    }

    /// Makes the report of a sweep over a dump that ends at `dump_end_s`.
    pub fn finish(self, design: String, vdd: Double, dump_end_s: Double) -> (r: SweepReport)
        requires
            self.well_formed(),
            self.windows@.len() > 0,
        ensures
            r.well_formed(),
            r.design == design,
            r.vdd == vdd,
            r.mode@ == "vectored (VCD sweep)"@,
            r.dump_end_s == dump_end_s,
            r.windows == self.windows,
            r.peak == peak_among(self.totals@, self.totals@.len() as int),
            Some(r.peak_report) == self.peak_report,
            forall|reports: Seq<PowerReport>| #[trigger]
                self.keeps(reports) ==> r.peak_report == reports[r.peak as int],
    {
        let Sweeping { windows, totals: _, peak, peak_report } = self;
        SweepReport {
            design,
            vdd,
            mode: "vectored (VCD sweep)".to_owned(),
            dump_end_s,
            windows,
            peak,
            peak_report: peak_report.unwrap(),
        }
    }
}

/// After any number of windows, what a sweep keeps of the reports that came with
/// them is the report of the peak among their totals.
pub proof fn the_kept_report_is_the_peaks(s: Sweeping, reports: Seq<PowerReport>)
    requires
        s.well_formed(),
        s.keeps(reports),
        s.windows@.len() > 0,
    ensures
        0 <= peak_among(s.totals@, s.totals@.len() as int) < reports.len(),
        s.peak_report == Some(reports[peak_among(s.totals@, s.totals@.len() as int)]),
{
}

/// A window behind the others leaves the peak among those as it is.
proof fn lemma_peak_of_prefix(totals: Seq<Double>, x: Double, n: int)
    requires
        n <= totals.len(),
    ensures
        peak_among(totals.push(x), n) == peak_among(totals, n),
        n >= 1 ==> 0 <= peak_among(totals, n) < n,
    decreases n,
{
    if n > 1 {
        lemma_peak_of_prefix(totals, x, n - 1);
    }
}

// ---- the sweep as text ---------------------------------------------------------

/// The numbers of a window, as they are shown: its times in nanoseconds with three
/// decimals, and its powers.
#[derive(Debug)]
pub struct WindowFigures {
    pub from_ns: String,
    pub to_ns: String,
    pub total: Quantity,
    pub sequential: Quantity,
    pub combinational: Quantity,
    pub clock: Quantity,
}

/// The numbers of a sweep, as they are shown: the supply in volts and the end of
/// the dump in nanoseconds with three decimals, the ratio of the peak to the mean
/// with two, and the windows in their order.
#[derive(Debug)]
pub struct SweepFigures {
    pub vdd: String,
    pub dump_end_ns: String,
    pub peak_leakage: Quantity,
    pub peak_dynamic: Quantity,
    pub mean: Quantity,
    pub peak_to_mean: String,
    pub rows: Vec<WindowFigures>,
}

/// The head of a sweep report, up to the windows.
pub open spec fn sweep_head(rep: SweepReport, fig: SweepFigures) -> Seq<char> {
    let p = rep.peak as int;
    "vyges-power — "@ + rep.design@ + " (sweep)\n"@ + "  supply (Vdd)     "@ + fig.vdd@ + " V\n"@
        + "  activity         "@ + rep.mode@ + "\n"@ + "  windows          "@ + decimal_text(
        rep.windows@.len(),
    ) + " over a "@ + fig.dump_end_ns@ + " ns dump\n\n"@ + "  PEAK window #"@ + decimal_text(
        rep.windows@[p].index as nat,
    ) + " ["@ + fig.rows@[p].from_ns@ + " ns, "@ + fig.rows@[p].to_ns@ + " ns)\n"@
        + "    total power    "@ + watts_text(fig.rows@[p].total) + "\n"@ + "    leakage        "@
        + watts_text(fig.peak_leakage) + "\n"@ + "    dynamic        "@ + watts_text(
        fig.peak_dynamic,
    ) + "\n"@ + "    seq/comb/clk   "@ + watts_text(fig.rows@[p].sequential) + " / "@ + watts_text(
        fig.rows@[p].combinational,
    ) + " / "@ + watts_text(fig.rows@[p].clock) + "\n"@ + "  mean power       "@ + watts_text(
        fig.mean,
    ) + "  (peak is "@ + fig.peak_to_mean@ + "x the mean)\n\n"@
        + "  window   start(ns)     end(ns)   events      total       seq      comb       clk\n"@
}

/// The mark behind the line of a window.
pub open spec fn window_mark(w: WindowPower, peak: usize) -> Seq<char> {
    if w.index == peak {
        "  <- peak"@
    } else {
        ""@
    }
}

/// The line of a window.
pub open spec fn window_line(w: WindowPower, f: WindowFigures, peak: usize) -> Seq<char> {
    "  "@ + right_aligned(decimal_text(w.index as nat), 6) + " "@ + right_aligned(f.from_ns@, 11)
        + " "@ + right_aligned(f.to_ns@, 11) + " "@ + right_aligned(
        decimal_text(w.events as nat),
        8,
    ) + " "@ + right_aligned(watts_text(f.total), 10) + " "@ + right_aligned(
        watts_text(f.sequential),
        9,
    ) + " "@ + right_aligned(watts_text(f.combinational), 9) + " "@ + right_aligned(
        watts_text(f.clock),
        9,
    ) + window_mark(w, peak) + "\n"@
}

/// The lines of the first `n` windows.
pub open spec fn window_lines(rep: SweepReport, rows: Seq<WindowFigures>, n: int) -> Seq<char>
    decreases n,
{
    if n <= 0 {
        Seq::empty()
    } else {
        window_lines(rep, rows, n - 1) + window_line(rep.windows@[n - 1], rows[n - 1], rep.peak)
    }
}

/// A sweep as text: the peak first, since it is the answer, and then the curve.
pub open spec fn sweep_text(rep: SweepReport, fig: SweepFigures) -> Seq<char> {
    sweep_head(rep, fig) + window_lines(rep, fig.rows@, rep.windows@.len() as int)
}

/// A sweep whose rows are numbered in order marks its peak, and no other window.
pub proof fn only_the_peak_is_marked(rep: SweepReport, k: int)
    requires
        rep.well_formed(),
        0 <= k < rep.windows@.len(),
        forall|i: int| 0 <= i < rep.windows@.len() ==> (#[trigger] rep.windows@[i]).index == i,
    ensures
        window_mark(rep.windows@[k], rep.peak) == if k == rep.peak {
            "  <- peak"@
        } else {
            ""@
        },
{
}

fn render_sweep_head(rep: &SweepReport, fig: &SweepFigures) -> (r: String)
    requires
        rep.well_formed(),
        fig.rows@.len() == rep.windows@.len(),
    ensures
        r@ == sweep_head(*rep, *fig),
{
    let peak = rep.peak_window();
    let row = &fig.rows[rep.peak];
    let mut s = "vyges-power — ".to_owned();
    s.append(rep.design.as_str());
    s.append(" (sweep)\n");
    s.append("  supply (Vdd)     ");
    s.append(fig.vdd.as_str());
    s.append(" V\n");
    s.append("  activity         ");
    s.append(rep.mode.as_str());
    s.append("\n");
    s.append("  windows          ");
    s.append(count_text(rep.windows.len()).as_str());
    s.append(" over a ");
    s.append(fig.dump_end_ns.as_str());
    s.append(" ns dump\n\n");
    s.append("  PEAK window #");
    s.append(count_text(peak.index).as_str());
    s.append(" [");
    s.append(row.from_ns.as_str());
    s.append(" ns, ");
    s.append(row.to_ns.as_str());
    s.append(" ns)\n");
    s.append("    total power    ");
    s.append(fmt_w(&row.total).as_str());
    s.append("\n");
    s.append("    leakage        ");
    s.append(fmt_w(&fig.peak_leakage).as_str());
    s.append("\n");
    s.append("    dynamic        ");
    s.append(fmt_w(&fig.peak_dynamic).as_str());
    s.append("\n");
    s.append("    seq/comb/clk   ");
    s.append(fmt_w(&row.sequential).as_str());
    s.append(" / ");
    s.append(fmt_w(&row.combinational).as_str());
    s.append(" / ");
    s.append(fmt_w(&row.clock).as_str());
    s.append("\n");
    s.append("  mean power       ");
    s.append(fmt_w(&fig.mean).as_str());
    s.append("  (peak is ");
    s.append(fig.peak_to_mean.as_str());
    s.append("x the mean)\n\n");
    s.append(
        "  window   start(ns)     end(ns)   events      total       seq      comb       clk\n",
    );
    s
}

fn render_window(w: &WindowPower, f: &WindowFigures, peak: usize) -> (r: String)
    ensures
        r@ == window_line(*w, *f, peak),
{
    let mut s = "  ".to_owned();
    push_right_aligned(&mut s, count_text(w.index).as_str(), 6);
    s.append(" ");
    push_right_aligned(&mut s, f.from_ns.as_str(), 11);
    s.append(" ");
    push_right_aligned(&mut s, f.to_ns.as_str(), 11);
    s.append(" ");
    push_right_aligned(&mut s, decimal(w.events).as_str(), 8);
    s.append(" ");
    push_right_aligned(&mut s, fmt_w(&f.total).as_str(), 10);
    s.append(" ");
    push_right_aligned(&mut s, fmt_w(&f.sequential).as_str(), 9);
    s.append(" ");
    push_right_aligned(&mut s, fmt_w(&f.combinational).as_str(), 9);
    s.append(" ");
    push_right_aligned(&mut s, fmt_w(&f.clock).as_str(), 9);
    s.append(
        if w.index == peak {
            "  <- peak"
        } else {
            ""
        },
    );
    s.append("\n");
    s
}

/// Writes a sweep for people to read.
pub fn render_sweep(rep: &SweepReport, fig: &SweepFigures) -> (r: String)
    requires
        rep.well_formed(),
        fig.rows@.len() == rep.windows@.len(),
    ensures
        r@ == sweep_text(*rep, *fig),
{
    let mut s = render_sweep_head(rep, fig);
    let n: usize = rep.windows.len();
    let mut list = String::new();
    let mut i: usize = 0;
    assert(list@ =~= Seq::<char>::empty());
    while i < n
        invariant
            n == rep.windows@.len(),
            n == fig.rows@.len(),
            i <= n,
            list@ == window_lines(*rep, fig.rows@, i as int),
        decreases n - i,
    {
        list.append(render_window(&rep.windows[i], &fig.rows[i], rep.peak).as_str());
        i += 1;
    }
    s.append(list.as_str());
    s
}

// ---- the sweep as JSON ---------------------------------------------------------

/// The numbers of a window, as JSON numbers with six decimals and an exponent.
#[derive(Debug)]
pub struct WindowJson {
    pub from_s: String,
    pub to_s: String,
    pub internal_w: String,
    pub switch_w: String,
    pub leakage_w: String,
    pub total_w: String,
    pub sequential_w: String,
    pub combinational_w: String,
    pub clock_w: String,
}

/// The numbers of a sweep, as JSON numbers: the supply and the ratio of the peak
/// to the mean with six decimals, the others with six and an exponent.
#[derive(Debug)]
pub struct SweepJson {
    pub vdd: String,
    pub dump_end_s: String,
    pub mean_total_w: String,
    pub peak_to_mean: String,
    pub rows: Vec<WindowJson>,
}

/// The head of a JSON sweep, up to the series.
pub open spec fn sweep_json_head(rep: SweepReport, fig: SweepJson) -> Seq<char> {
    "{\n"@ + "  \"design\": "@ + json_text(rep.design@) + ",\n"@ + "  \"vdd\": "@ + fig.vdd@ + ",\n"@
        + "  \"activity_mode\": "@ + json_text(rep.mode@) + ",\n"@ + "  \"dump_end_s\": "@
        + fig.dump_end_s@ + ",\n"@ + "  \"windows\": "@ + decimal_text(rep.windows@.len()) + ",\n"@
        + "  \"peak_index\": "@ + decimal_text(rep.peak as nat) + ",\n"@ + "  \"peak_total_w\": "@
        + fig.rows@[rep.peak as int].total_w@ + ",\n"@ + "  \"mean_total_w\": "@
        + fig.mean_total_w@ + ",\n"@ + "  \"peak_to_mean\": "@ + fig.peak_to_mean@ + ",\n"@
        + "  \"series\": [\n"@
}

/// The JSON line of a window.
pub open spec fn window_json(w: WindowPower, f: WindowJson, end: Seq<char>) -> Seq<char> {
    "    {\"index\": "@ + decimal_text(w.index as nat) + ", \"from_s\": "@ + f.from_s@
        + ", \"to_s\": "@ + f.to_s@ + ", \"events\": "@ + decimal_text(w.events as nat)
        + ", \"internal_w\": "@ + f.internal_w@ + ", \"switch_w\": "@ + f.switch_w@
        + ", \"leakage_w\": "@ + f.leakage_w@ + ", \"total_w\": "@ + f.total_w@
        + ", \"sequential_w\": "@ + f.sequential_w@ + ", \"combinational_w\": "@
        + f.combinational_w@ + ", \"clock_w\": "@ + f.clock_w@ + ", \"covered_nets\": "@
        + decimal_text(w.covered_nets as nat) + "}"@ + end + "\n"@
}

/// The JSON lines of the first `n` windows.
pub open spec fn windows_json(windows: Seq<WindowPower>, rows: Seq<WindowJson>, n: int) -> Seq<char>
    decreases n,
{
    if n <= 0 {
        Seq::empty()
    } else {
        windows_json(windows, rows, n - 1) + window_json(
            windows[n - 1],
            rows[n - 1],
            comma_after(n - 1, windows.len() as int),
        )
    }
}

/// A sweep as JSON: the series, with the peak named.
pub open spec fn sweep_json_text(rep: SweepReport, fig: SweepJson) -> Seq<char> {
    sweep_json_head(rep, fig) + windows_json(rep.windows@, fig.rows@, rep.windows@.len() as int)
        + "  ]\n}\n"@
}

fn render_sweep_json_head(rep: &SweepReport, fig: &SweepJson) -> (r: String)
    requires
        rep.well_formed(),
        fig.rows@.len() == rep.windows@.len(),
    ensures
        r@ == sweep_json_head(*rep, *fig),
{
    let mut s = "{\n".to_owned();
    s.append("  \"design\": ");
    s.append(jstr(rep.design.as_str()).as_str());
    s.append(",\n");
    s.append("  \"vdd\": ");
    s.append(fig.vdd.as_str());
    s.append(",\n");
    s.append("  \"activity_mode\": ");
    s.append(jstr(rep.mode.as_str()).as_str());
    s.append(",\n");
    s.append("  \"dump_end_s\": ");
    s.append(fig.dump_end_s.as_str());
    s.append(",\n");
    s.append("  \"windows\": ");
    s.append(count_text(rep.windows.len()).as_str());
    s.append(",\n");
    s.append("  \"peak_index\": ");
    s.append(count_text(rep.peak).as_str());
    s.append(",\n");
    s.append("  \"peak_total_w\": ");
    s.append(fig.rows[rep.peak].total_w.as_str());
    s.append(",\n");
    s.append("  \"mean_total_w\": ");
    s.append(fig.mean_total_w.as_str());
    s.append(",\n");
    s.append("  \"peak_to_mean\": ");
    s.append(fig.peak_to_mean.as_str());
    s.append(",\n");
    s.append("  \"series\": [\n");
    s
}

fn render_window_json(w: &WindowPower, f: &WindowJson, end: &str) -> (r: String)
    ensures
        r@ == window_json(*w, *f, end@),
{
    let mut s = "    {\"index\": ".to_owned();
    s.append(count_text(w.index).as_str());
    s.append(", \"from_s\": ");
    s.append(f.from_s.as_str());
    s.append(", \"to_s\": ");
    s.append(f.to_s.as_str());
    s.append(", \"events\": ");
    s.append(decimal(w.events).as_str());
    s.append(", \"internal_w\": ");
    s.append(f.internal_w.as_str());
    s.append(", \"switch_w\": ");
    s.append(f.switch_w.as_str());
    s.append(", \"leakage_w\": ");
    s.append(f.leakage_w.as_str());
    s.append(", \"total_w\": ");
    s.append(f.total_w.as_str());
    s.append(", \"sequential_w\": ");
    s.append(f.sequential_w.as_str());
    s.append(", \"combinational_w\": ");
    s.append(f.combinational_w.as_str());
    s.append(", \"clock_w\": ");
    s.append(f.clock_w.as_str());
    s.append(", \"covered_nets\": ");
    s.append(count_text(w.covered_nets).as_str());
    s.append("}");
    s.append(end);
    s.append("\n");
    s
}

/// Writes a sweep for machines to read.
pub fn sweep_json(rep: &SweepReport, fig: &SweepJson) -> (r: String)
    requires
        rep.well_formed(),
        fig.rows@.len() == rep.windows@.len(),
    ensures
        r@ == sweep_json_text(*rep, *fig),
{
    let mut s = render_sweep_json_head(rep, fig);
    let n: usize = rep.windows.len();
    let mut list = String::new();
    let mut i: usize = 0;
    assert(list@ =~= Seq::<char>::empty());
    while i < n
        invariant
            n == rep.windows@.len(),
            n == fig.rows@.len(),
            i <= n,
            list@ == windows_json(rep.windows@, fig.rows@, i as int),
        decreases n - i,
    {
        list.append(render_window_json(&rep.windows[i], &fig.rows[i], comma(i, n)).as_str());
        i += 1;
    }
    s.append(list.as_str());
    s.append("  ]\n}\n");
    s
}

} // verus!
