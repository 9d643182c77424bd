//! What the reports promise: of quantities, names and strings, of the instances that
//! they name, and of their lines.

use crate::double::Double;
use crate::format::{
    all_escaped, amps_text, char_bytes, chars_within, column_text, fits_column, json_text,
    json_texts, prefix_of, text_bytes, watts_text, Prefix, Quantity,
};
use crate::power::{Group, InstPower, PowerReport};
use crate::render::{
    all_numbers, bool_text, comma_after, group_line, group_lines, group_size, grouping_warning, head_text,
    inst_line, is_top, json_group, json_groups, json_head, json_inst, json_insts, names_fit, report_json_text, report_text, top_lines,
    unmatched_warning, wire_text, GroupFigures, JsonFigures, JsonGroup, JsonRow, ReportFigures, RowFigures,
};
use crate::sweep::{
    peak_among, sweep_head, sweep_json_head, sweep_json_text, sweep_text, window_line, window_lines, windows_json,
    SweepFigures, SweepJson, SweepReport, WindowFigures, WindowJson, WindowPower,
};
use crate::text::{decimal_text, joined, left_aligned, right_aligned};
use vstd::prelude::*;
use vstd::utf8::{char_is_scalar, encode_scalar, encode_utf8};

verus! {

// ---- quantities ----------------------------------------------------------------

/// A quantity takes the largest of the prefixes that it reaches, by its distance from
/// zero; zero takes none, and what is not a number the smallest.
pub proof fn a_quantity_takes_the_prefix_that_it_reaches(x: Double)
    ensures
        ({
            let a = x.absolute();
            &&& prefix_of(x) == Prefix::Milli <==> (Double { bits: 0x3f50_624d_d2f1_a9fc }).at_most(a)
            &&& prefix_of(x) == Prefix::Micro <==> (Double { bits: 0x3eb0_c6f7_a0b5_ed8d }).at_most(a)
                && a.below(Double { bits: 0x3f50_624d_d2f1_a9fc })
            &&& prefix_of(x) == Prefix::Nano <==> (Double { bits: 0x3e11_2e0b_e826_d695 }).at_most(a)
                && a.below(Double { bits: 0x3eb0_c6f7_a0b5_ed8d })
            &&& prefix_of(x) == Prefix::Zero <==> a.bits == 0
            &&& prefix_of(x) == Prefix::Pico <==> a.bits != 0 && (x.nan() || a.below(
                Double { bits: 0x3e11_2e0b_e826_d695 },
            ))
        }),
{
}

/// A quantity is shown by its digits, its prefix and its unit, and zero by itself.
pub proof fn a_quantity_is_shown_with_its_unit(q: Quantity)
    ensures
        prefix_of(q.value) == Prefix::Zero ==> watts_text(q) == seq!['0'] && amps_text(q) == seq!['0'],
        prefix_of(q.value) == Prefix::Milli ==> watts_text(q) == q.digits@ + seq![' ', 'm', 'W']
            && amps_text(q) == q.digits@ + seq![' ', 'm', 'A'],
        prefix_of(q.value) == Prefix::Micro ==> watts_text(q) == q.digits@ + seq![' ', 'u', 'W']
            && amps_text(q) == q.digits@ + seq![' ', 'u', 'A'],
        prefix_of(q.value) == Prefix::Nano ==> watts_text(q) == q.digits@ + seq![' ', 'n', 'W']
            && amps_text(q) == q.digits@ + seq![' ', 'n', 'A'],
        prefix_of(q.value) == Prefix::Pico ==> watts_text(q) == q.digits@ + seq![' ', 'p', 'W']
            && amps_text(q) == q.digits@ + seq![' ', 'p', 'A'],
{
    reveal_strlit("0");
    reveal_strlit(" mW");
    reveal_strlit(" uW");
    reveal_strlit(" nW");
    reveal_strlit(" pW");
    reveal_strlit(" mA");
    reveal_strlit(" uA");
    reveal_strlit(" nA");
    reveal_strlit(" pA");
    assert("0"@ =~= seq!['0']);
    assert(" mW"@ =~= seq![' ', 'm', 'W']);
    assert(" uW"@ =~= seq![' ', 'u', 'W']);
    assert(" nW"@ =~= seq![' ', 'n', 'W']);
    assert(" pW"@ =~= seq![' ', 'p', 'W']);
    assert(" mA"@ =~= seq![' ', 'm', 'A']);
    assert(" uA"@ =~= seq![' ', 'u', 'A']);
    assert(" nA"@ =~= seq![' ', 'n', 'A']);
    assert(" pA"@ =~= seq![' ', 'p', 'A']);
}

// ---- names in columns ----------------------------------------------------------

/// The bytes of a text are those of its UTF-8 form.
pub proof fn bytes_are_those_of_utf8(s: Seq<char>)
    ensures
        text_bytes(s) == encode_utf8(s).len(),
    decreases s.len(),
{
    if s.len() > 0 {
        bytes_are_those_of_utf8(s.drop_first());
        char_is_scalar(s[0]);
        assert(char_bytes(s[0]) == encode_scalar(s[0] as u32).len());
    }
}

/// A name that fits its column is shown as it is.
pub proof fn a_short_name_is_kept(s: Seq<char>, n: nat)
    requires
        encode_utf8(s).len() <= n,
    ensures
        fits_column(s, n),
        column_text(s, n) == s,
{
    bytes_are_those_of_utf8(s);
}

/// A name that does not fit its column is cut one byte before the end of the column,
/// and an ellipsis shows it.
pub proof fn a_long_name_is_cut(s: Seq<char>, n: nat, k: int)
    requires
        encode_utf8(s).len() > n,
        0 <= k <= s.len(),
        encode_utf8(s.take(k)).len() == n - 1,
    ensures
        fits_column(s, n),
        column_text(s, n) == s.take(k) + "…"@,
{
    bytes_are_those_of_utf8(s);
    bytes_are_those_of_utf8(s.take(k));
    lemma_chars_within_is(s, (n - 1) as nat, k);
}

proof fn lemma_chars_within_is(s: Seq<char>, n: nat, k: int)
    requires
        0 <= k <= s.len(),
        text_bytes(s.take(k)) == n,
    ensures
        chars_within(s, n) == k,
    decreases s.len(),
{
    if k > 0 {
        let t = s.take(k);
        assert(t[0] == s[0]);
        assert(t.drop_first() =~= s.drop_first().take(k - 1));
        lemma_chars_within_is(s.drop_first(), (n - char_bytes(s[0])) as nat, k - 1);
    }
}

// ---- strings -------------------------------------------------------------------

/// A character of a string that JSON cannot hold as it is stands behind a backslash;
/// every other one stands for itself.
pub proof fn a_string_is_escaped(s: Seq<char>, c: char)
    ensures
        all_escaped(Seq::empty()).len() == 0,
        all_escaped(s.push(c)) == all_escaped(s) + if c == '"' {
            seq!['\\', '"']
        } else if c == '\\' {
            seq!['\\', '\\']
        } else if c == '\n' {
            seq!['\\', 'n']
        } else {
            seq![c]
        },
        json_text(s) == seq!['"'] + all_escaped(s) + seq!['"'],
{
    assert(s.push(c).drop_last() =~= s);
    reveal_strlit("\\\"");
    reveal_strlit("\\\\");
    reveal_strlit("\\n");
    reveal_strlit("\"");
    assert("\\\""@ =~= seq!['\\', '"']);
    assert("\\\\"@ =~= seq!['\\', '\\']);
    assert("\\n"@ =~= seq!['\\', 'n']);
    assert("\""@ =~= seq!['"']);
}

/// A list of strings has each of them, in order.
pub proof fn each_string_of_a_list_is_written(items: Seq<Seq<char>>, i: int)
    requires
        0 <= i < items.len(),
    ensures
        json_texts(items).len() == items.len(),
        json_texts(items)[i] == json_text(items[i]),
{
}

// ---- the busiest instances -----------------------------------------------------

/// A report names ten instances, or all where there are fewer, and each of them once.
pub proof fn a_report_names_ten_instances(totals: Seq<Double>, top: Seq<usize>)
    requires
        is_top(totals, top),
        all_numbers(totals),
    ensures
        top.len() == if totals.len() < 10 {
            totals.len()
        } else {
            10
        },
        forall|a: int| 0 <= a < top.len() ==> #[trigger] top[a] < totals.len(),
        forall|a: int, b: int| 0 <= a < b < top.len() ==> #[trigger] top[a] != #[trigger] top[b],
{
}

/// The busiest instance is named first, and of two equally busy ones the earlier.
pub proof fn a_report_names_the_busiest_first(totals: Seq<Double>, top: Seq<usize>, a: int, b: int)
    requires
        is_top(totals, top),
        all_numbers(totals),
        0 <= a < b < top.len(),
    ensures
        totals[top[b] as int].at_most(totals[top[a] as int]),
        totals[top[a] as int].at_most(totals[top[b] as int]) ==> top[a] < top[b],
{
    let (x, y) = (top[a] as int, top[b] as int);
    assert(!totals[x].nan() && !totals[y].nan());
    if top.take(a + 1).contains(top[b]) {
        let k = top.take(a + 1).index_of(top[b]);
        assert(top[k] == top[b]);
    }
    assert(crate::render::ahead(totals, x, y));
}

/// No instance that a report leaves out is busier than one that it names, and one that
/// is as busy is a later one.
pub proof fn a_report_leaves_out_no_busier_instance(
    totals: Seq<Double>,
    top: Seq<usize>,
    a: int,
    i: usize,
)
    requires
        is_top(totals, top),
        all_numbers(totals),
        0 <= a < top.len(),
        i < totals.len(),
        forall|k: int| 0 <= k < top.len() ==> #[trigger] top[k] != i,
    ensures
        totals[i as int].at_most(totals[top[a] as int]),
        totals[top[a] as int].at_most(totals[i as int]) ==> top[a] < i,
{
    let x = top[a] as int;
    assert(!totals[x].nan() && !totals[i as int].nan());
    if top.take(a + 1).contains(i) {
        let k = top.take(a + 1).index_of(i);
        assert(top[k] == i);
    }
    assert(crate::render::ahead(totals, x, i as int));
}

// ---- the lines of a report -----------------------------------------------------

/// A report says where its wire capacitances come from, warns just where its groups
/// are a guess, and names the cells that no library has just where there are some.
pub proof fn a_report_warns_where_it_must(rep: PowerReport, unmatched: Seq<Seq<char>>)
    ensures
        rep.spef ==> wire_text(rep) == "SPEF ("@ + decimal_text(rep.spef_nets as nat)
            + " net(s) extracted)"@,
        !rep.spef ==> wire_text(rep) == "flat stand-in"@,
        !rep.clock_grouping_approximate ==> grouping_warning(rep).len() == 0,
        rep.clock_grouping_approximate ==> grouping_warning(rep)
            == "  [warn] the library declares no sequential cell and no clock pin — the group\n         split is inferred from cell shape, and only repeater-shaped cells are\n         counted as clock network\n"@,
        unmatched.len() == 0 ==> unmatched_warning(unmatched).len() == 0,
        unmatched.len() > 0 ==> unmatched_warning(unmatched) == "\n  [warn] "@ + decimal_text(
            unmatched.len(),
        ) + " cell(s) not in any lib — no power counted: "@ + joined(unmatched, ", "@) + "\n"@,
{
}

/// A report has a line for each of the three groups, in the order sequential,
/// combinational, clock, with the number of its instances.
pub proof fn a_report_has_a_line_for_each_group(rep: PowerReport, figs: Seq<GroupFigures>)
    ensures
        group_lines(rep, figs, 3) == group_line(
            Group::Sequential,
            rep.insts@.filter(|p: InstPower| p.group == Group::Sequential).len(),
            figs[0],
        ) + group_line(
            Group::Combinational,
            rep.insts@.filter(|p: InstPower| p.group == Group::Combinational).len(),
            figs[1],
        ) + group_line(
            Group::Clock,
            rep.insts@.filter(|p: InstPower| p.group == Group::Clock).len(),
            figs[2],
        ),
{
    reveal_with_fuel(group_lines, 4);
    let n = rep.insts@.len() as int;
    crate::laws::power::a_group_has_its_members(rep.insts@, Group::Sequential, n);
    crate::laws::power::a_group_has_its_members(rep.insts@, Group::Combinational, n);
    crate::laws::power::a_group_has_its_members(rep.insts@, Group::Clock, n);
    assert(rep.insts@.take(n) =~= rep.insts@);
    assert(Group::ALL@[0] == Group::Sequential);
    assert(Group::ALL@[1] == Group::Combinational);
    assert(Group::ALL@[2] == Group::Clock);
    let one = group_line(Group::Sequential, group_size(rep, Group::Sequential), figs[0]);
    assert(group_lines(rep, figs, 1) =~= one);
}

/// The columns of the line of a group, and of an instance.
pub proof fn a_line_has_its_columns(
    g: Group,
    size: nat,
    f: GroupFigures,
    p: InstPower,
    r: RowFigures,
)
    ensures
        group_line(g, size, f) == "    "@ + left_aligned(g.label_text(), 14) + " "@ + right_aligned(
            decimal_text(size),
            9,
        ) + " "@ + right_aligned(watts_text(f.total), 9) + " "@ + right_aligned(
            watts_text(f.leakage),
            9,
        ) + " "@ + right_aligned(watts_text(f.dynamic), 9) + "\n"@,
        inst_line(p, r) == "    "@ + left_aligned(column_text(p.inst@, 20), 20) + " "@ + left_aligned(
            column_text(p.cell@, 15),
            15,
        ) + " "@ + right_aligned(watts_text(r.total), 9) + " "@ + right_aligned(
            watts_text(r.leakage),
            9,
        ) + " "@ + right_aligned(watts_text(r.dynamic), 9) + " "@ + right_aligned(
            amps_text(r.current),
            9,
        ) + "\n"@,
        Group::Sequential.label_text() == "sequential"@,
        Group::Combinational.label_text() == "combinational"@,
        Group::Clock.label_text() == "clock"@,
{
}

/// A report has a line for each instance that it names, in their order.
pub proof fn a_report_has_a_line_for_each_named_instance(
    insts: Seq<InstPower>,
    rows: Seq<RowFigures>,
    top: Seq<usize>,
    n: int,
)
    requires
        0 < n <= top.len(),
    ensures
        top_lines(insts, rows, top, 0).len() == 0,
        top_lines(insts, rows, top, n) == top_lines(insts, rows, top, n - 1) + inst_line(
            insts[top[n - 1] as int],
            rows[top[n - 1] as int],
        ),
{
}

/// A report has its head, the groups, the share of the clock network, the warning about
/// the groups, the instances, and the cells that no library has, in this order.
pub proof fn a_report_has_its_parts(rep: PowerReport, fig: ReportFigures, top: Seq<usize>)
    ensures
        report_text(rep, fig, top) == head_text(rep, fig) + group_lines(rep, fig.groups@, 3)
            + "  clock network is "@ + fig.clock_share@ + "% of total power\n"@ + grouping_warning(rep)
            + "\n"@ + "  top instances by power:\n"@
            + "    instance              cell             total      leak      dyn       I_avg\n"@
            + top_lines(rep.insts@, fig.rows@, top, top.len() as int) + unmatched_warning(
            rep.unmatched.deep_view(),
        ),
        head_text(rep, fig) == "vyges-power — "@ + rep.design@ + "\n"@ + "  supply (Vdd)     "@
            + fig.vdd@ + " V\n"@ + "  activity         "@ + rep.mode@ + "\n"@
            + "  wire caps        "@ + wire_text(rep) + "\n"@ + "  instances        "@ + decimal_text(
            rep.insts@.len(),
        ) + " ("@ + decimal_text(rep.unmatched@.len()) + " unmatched)\n\n"@ + "  total power      "@
            + watts_text(fig.total) + "\n"@ + "    leakage        "@ + watts_text(fig.leakage) + "\n"@
            + "    internal       "@ + watts_text(fig.internal) + "\n"@ + "    net switching  "@
            + watts_text(fig.switching) + "\n"@ + "  avg current      "@ + amps_text(fig.current)
            + "\n\n"@ + "  by group:        instances     total      leak       dyn\n"@,
{
}

// ---- the lines of a JSON report ------------------------------------------------

/// In a JSON list all but the last have a comma behind them.
pub proof fn all_but_the_last_have_a_comma(k: int, n: int)
    ensures
        k < n - 1 ==> comma_after(k, n) == seq![','],
        k >= n - 1 ==> comma_after(k, n).len() == 0,
        bool_text(true) == "true"@,
        bool_text(false) == "false"@,
{
    reveal_strlit(",");
    reveal_strlit("");
    assert(","@ =~= seq![',']);
}

/// A JSON report has a line for each group, with the number of its instances.
pub proof fn a_json_report_has_a_line_for_each_group(rep: PowerReport, figs: Seq<JsonGroup>)
    ensures
        json_groups(rep, figs, 3) == json_group(
            Group::Sequential,
            rep.insts@.filter(|p: InstPower| p.group == Group::Sequential).len(),
            figs[0],
            ","@,
        ) + json_group(
            Group::Combinational,
            rep.insts@.filter(|p: InstPower| p.group == Group::Combinational).len(),
            figs[1],
            ","@,
        ) + json_group(
            Group::Clock,
            rep.insts@.filter(|p: InstPower| p.group == Group::Clock).len(),
            figs[2],
            ""@,
        ),
{
    reveal_with_fuel(json_groups, 4);
    let n = rep.insts@.len() as int;
    crate::laws::power::a_group_has_its_members(rep.insts@, Group::Sequential, n);
    crate::laws::power::a_group_has_its_members(rep.insts@, Group::Combinational, n);
    crate::laws::power::a_group_has_its_members(rep.insts@, Group::Clock, n);
    assert(rep.insts@.take(n) =~= rep.insts@);
    assert(Group::ALL@[0] == Group::Sequential);
    assert(Group::ALL@[1] == Group::Combinational);
    assert(Group::ALL@[2] == Group::Clock);
    let one = json_group(Group::Sequential, group_size(rep, Group::Sequential), figs[0], ","@);
    assert(json_groups(rep, figs, 1) =~= one);
}

/// A JSON report has a line for each instance, in order.
pub proof fn a_json_report_has_a_line_for_each_instance(
    insts: Seq<InstPower>,
    rows: Seq<JsonRow>,
    n: int,
)
    requires
        0 < n <= insts.len(),
    ensures
        json_insts(insts, rows, 0).len() == 0,
        json_insts(insts, rows, n) == json_insts(insts, rows, n - 1) + json_inst(
            insts[n - 1],
            rows[n - 1],
            if n < insts.len() {
                ","@
            } else {
                ""@
            },
        ),
{
}

/// What the lines of a JSON report hold.
pub proof fn a_json_line_has_its_fields(
    g: Group,
    size: nat,
    f: JsonGroup,
    p: InstPower,
    r: JsonRow,
    end: Seq<char>,
)
    ensures
        json_group(g, size, f, end) == "    "@ + json_text(g.label_text()) + ": {\"instances\": "@
            + decimal_text(size) + ", \"leakage_w\": "@ + f.leakage_w@ + ", \"internal_w\": "@
            + f.internal_w@ + ", \"switch_w\": "@ + f.switch_w@ + ", \"total_w\": "@ + f.total_w@
            + "}"@ + end + "\n"@,
        json_inst(p, r, end) == "    {\"instance\": "@ + json_text(p.inst@) + ", \"cell\": "@
            + json_text(p.cell@) + ", \"group\": "@ + json_text(p.group.label_text())
            + ", \"total_w\": "@ + r.total_w@ + ", \"avg_current_a\": "@ + r.avg_current_a@
            + ", \"toggle_rate_hz\": "@ + r.toggle_rate_hz@ + "}"@ + end + "\n"@,
{
}

/// What a JSON report holds, in order.
pub proof fn a_json_report_has_its_parts(rep: PowerReport, fig: JsonFigures)
    ensures
        report_json_text(rep, fig) == json_head(rep, fig) + json_groups(rep, fig.groups@, 3)
            + "  },\n"@ + "  \"by_instance\": [\n"@ + json_insts(
            rep.insts@,
            fig.rows@,
            rep.insts@.len() as int,
        ) + "  ]\n}\n"@,
        json_head(rep, fig) == "{\n"@ + "  \"design\": "@ + json_text(rep.design@) + ",\n"@
            + "  \"vdd\": "@ + fig.vdd@ + ",\n"@ + "  \"activity_mode\": "@ + json_text(rep.mode@)
            + ",\n"@ + "  \"spef\": "@ + (if rep.spef {
            "true"@
        } else {
            "false"@
        }) + ",\n"@ + "  \"spef_nets\": "@ + decimal_text(rep.spef_nets as nat) + ",\n"@
            + "  \"instances\": "@ + decimal_text(rep.insts@.len()) + ",\n"@ + "  \"leakage_w\": "@
            + fig.leakage_w@ + ",\n"@ + "  \"internal_w\": "@ + fig.internal_w@ + ",\n"@
            + "  \"switch_w\": "@ + fig.switch_w@ + ",\n"@ + "  \"dynamic_w\": "@ + fig.dynamic_w@
            + ",\n"@ + "  \"total_w\": "@ + fig.total_w@ + ",\n"@ + "  \"total_current_a\": "@
            + fig.total_current_a@ + ",\n"@ + "  \"unmatched_cells\": ["@ + joined(
            json_texts(rep.unmatched.deep_view()),
            ", "@,
        ) + "],\n"@ + "  \"clock_share_pct\": "@ + fig.clock_share_pct@ + ",\n"@
            + "  \"by_group\": {\n"@,
{
}

// ---- the lines of a sweep ------------------------------------------------------

/// A sweep has a line for each window, in order, with a mark behind that of the peak.
pub proof fn a_sweep_has_a_line_for_each_window(
    rep: SweepReport,
    rows: Seq<WindowFigures>,
    n: int,
)
    requires
        0 < n <= rep.windows@.len(),
    ensures
        window_lines(rep, rows, 0).len() == 0,
        window_lines(rep, rows, n) == window_lines(rep, rows, n - 1) + window_line(
            rep.windows@[n - 1],
            rows[n - 1],
            rep.peak,
        ),
        ({
            let (w, f) = (rep.windows@[n - 1], rows[n - 1]);
            window_line(w, f, rep.peak) == "  "@ + right_aligned(decimal_text(w.index as nat), 6)
                + " "@ + right_aligned(f.from_ns@, 11) + " "@ + right_aligned(f.to_ns@, 11) + " "@
                + right_aligned(decimal_text(w.events as nat), 8) + " "@ + right_aligned(
                watts_text(f.total),
                10,
            ) + " "@ + right_aligned(watts_text(f.sequential), 9) + " "@ + right_aligned(
                watts_text(f.combinational),
                9,
            ) + " "@ + right_aligned(watts_text(f.clock), 9) + (if w.index == rep.peak {
                "  <- peak"@
            } else {
                ""@
            }) + "\n"@
        }),
{
}

/// A sweep has its head, with the peak, and then the windows.
pub proof fn a_sweep_has_its_parts(rep: SweepReport, fig: SweepFigures)
    ensures
        sweep_text(rep, fig) == sweep_head(rep, fig) + window_lines(
            rep,
            fig.rows@,
            rep.windows@.len() as int,
        ),
        ({
            let (w, f) = (rep.windows@[rep.peak as int], fig.rows@[rep.peak as int]);
            sweep_head(rep, fig) == "vyges-power — "@ + rep.design@ + " (sweep)\n"@
                + "  supply (Vdd)     "@ + fig.vdd@ + " V\n"@ + "  activity         "@ + rep.mode@
                + "\n"@ + "  windows          "@ + decimal_text(rep.windows@.len()) + " over a "@
                + fig.dump_end_ns@ + " ns dump\n\n"@ + "  PEAK window #"@ + decimal_text(
                w.index as nat,
            ) + " ["@ + f.from_ns@ + " ns, "@ + f.to_ns@ + " ns)\n"@ + "    total power    "@
                + watts_text(f.total) + "\n"@ + "    leakage        "@ + watts_text(fig.peak_leakage)
                + "\n"@ + "    dynamic        "@ + watts_text(fig.peak_dynamic) + "\n"@
                + "    seq/comb/clk   "@ + watts_text(f.sequential) + " / "@ + watts_text(
                f.combinational,
            ) + " / "@ + watts_text(f.clock) + "\n"@ + "  mean power       "@ + watts_text(fig.mean)
                + "  (peak is "@ + fig.peak_to_mean@ + "x the mean)\n\n"@
                + "  window   start(ns)     end(ns)   events      total       seq      comb       clk\n"@
        }),
{
}

/// A JSON sweep has a line for each window, in order.
pub proof fn a_json_sweep_has_a_line_for_each_window(
    windows: Seq<WindowPower>,
    rows: Seq<WindowJson>,
    n: int,
)
    requires
        0 < n <= windows.len(),
    ensures
        windows_json(windows, rows, 0).len() == 0,
        ({
            let (w, f) = (windows[n - 1], rows[n - 1]);
            windows_json(windows, rows, n) == windows_json(windows, rows, n - 1) + (
            "    {\"index\": "@ + decimal_text(w.index as nat) + ", \"from_s\": "@ + f.from_s@
                + ", \"to_s\": "@ + f.to_s@ + ", \"events\": "@ + decimal_text(w.events as nat)
                + ", \"internal_w\": "@ + f.internal_w@ + ", \"switch_w\": "@ + f.switch_w@
                + ", \"leakage_w\": "@ + f.leakage_w@ + ", \"total_w\": "@ + f.total_w@
                + ", \"sequential_w\": "@ + f.sequential_w@ + ", \"combinational_w\": "@
                + f.combinational_w@ + ", \"clock_w\": "@ + f.clock_w@ + ", \"covered_nets\": "@
                + decimal_text(w.covered_nets as nat) + "}"@ + (if n < windows.len() {
                ","@
            } else {
                ""@
            }) + "\n"@)
        }),
{
}

/// What a JSON sweep holds, in order.
pub proof fn a_json_sweep_has_its_parts(rep: SweepReport, fig: SweepJson)
    ensures
        sweep_json_text(rep, fig) == sweep_json_head(rep, fig) + windows_json(
            rep.windows@,
            fig.rows@,
            rep.windows@.len() as int,
        ) + "  ]\n}\n"@,
        sweep_json_head(rep, fig) == "{\n"@ + "  \"design\": "@ + json_text(rep.design@) + ",\n"@
            + "  \"vdd\": "@ + fig.vdd@ + ",\n"@ + "  \"activity_mode\": "@ + json_text(rep.mode@)
            + ",\n"@ + "  \"dump_end_s\": "@ + fig.dump_end_s@ + ",\n"@ + "  \"windows\": "@
            + decimal_text(rep.windows@.len()) + ",\n"@ + "  \"peak_index\": "@ + decimal_text(
            rep.peak as nat,
        ) + ",\n"@ + "  \"peak_total_w\": "@ + fig.rows@[rep.peak as int].total_w@ + ",\n"@
            + "  \"mean_total_w\": "@ + fig.mean_total_w@ + ",\n"@ + "  \"peak_to_mean\": "@
            + fig.peak_to_mean@ + ",\n"@ + "  \"series\": [\n"@,
{
}

// ---- the peak of a sweep -------------------------------------------------------

/// The first window is the peak until one costs strictly more.
pub proof fn a_costlier_window_is_the_peak(totals: Seq<Double>, n: int)
    requires
        0 < n < totals.len(),
    ensures
        peak_among(totals, 1) == 0,
        totals[peak_among(totals, n)].below(totals[n]) ==> peak_among(totals, n + 1) == n,
        !totals[peak_among(totals, n)].below(totals[n]) ==> peak_among(totals, n + 1) == peak_among(
            totals,
            n,
        ),
{
}

/// The names of a report fit when those of each instance that it names do: the name of
/// the instance its column, and the name of the cell its own.
pub proof fn the_named_instances_fit(rep: PowerReport, totals: Seq<Double>, top: Seq<usize>, k: int)
    requires
        names_fit(rep, totals),
        is_top(totals, top),
        0 <= k < top.len(),
    ensures
        fits_column(rep.insts@[top[k] as int].inst@, 20),
        fits_column(rep.insts@[top[k] as int].cell@, 15),
{
}

} // verus!
