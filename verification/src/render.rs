//! Reports as text and as JSON. The numbers come as texts; what is shown, in
//! which order and where is decided here.

use crate::double::Double;
use crate::format::{
    amps_text, column_fits, column_text, fits_column, fmt_a, fmt_w, jlist, json_text, json_texts, jstr, trunc, watts_text,
    Quantity,
};
use crate::power::{members, Group, InstPower, PowerReport};
use crate::text::{
    decimal, decimal_text, join, joined, left_aligned, push_left_aligned, push_right_aligned, right_aligned,
};
use vstd::prelude::*;
use vstd::string::*;

verus! {

// ---- the busiest instances -----------------------------------------------------

/// How many instances a report names.
pub const SHOWN: usize = 10;

/// Instance `a` comes before instance `b`: it has more power, or as much and an
/// earlier place.
pub open spec fn ahead(totals: Seq<Double>, a: int, b: int) -> bool {
    totals[b].below(totals[a]) || (totals[b].rank() == totals[a].rank() && a < b)
}

/// Every power is a number.
pub open spec fn all_numbers(totals: Seq<Double>) -> bool {
    forall|i: int| 0 <= i < totals.len() ==> !(#[trigger] totals[i]).nan()
}

/// `top` is what a report names: as many places as it shows, each once. Where
/// every power is a number it is the busiest first, and those before all others.
pub open spec fn is_top(totals: Seq<Double>, top: Seq<usize>) -> bool {
    &&& top.len() == if totals.len() < SHOWN {
        totals.len()
    } else {
        SHOWN as nat
    }
    &&& top.no_duplicates()
    &&& forall|k: int| 0 <= k < top.len() ==> (#[trigger] top[k]) < totals.len()
    &&& all_numbers(totals) ==> forall|k: int, i: int|
        #![trigger top[k], totals[i]]
        0 <= k < top.len() && 0 <= i < totals.len() && !top.take(k + 1).contains(i as usize)
            ==> ahead(totals, top[k] as int, i)
}

proof fn lemma_ahead_is_one_way(totals: Seq<Double>, a: int, b: int)
    ensures
        !(ahead(totals, a, b) && ahead(totals, b, a)),
{
}

/// What a report names is settled by the powers.
pub proof fn the_top_is_settled(totals: Seq<Double>, a: Seq<usize>, b: Seq<usize>)
    requires
        totals.len() <= usize::MAX,
        all_numbers(totals),
        is_top(totals, a),
        is_top(totals, b),
    ensures
        a == b,
{
    lemma_same_top(totals, a, b, a.len() as int);
    assert(a.take(a.len() as int) =~= a);
    assert(b.take(a.len() as int) =~= b);
}

proof fn lemma_same_top(totals: Seq<Double>, a: Seq<usize>, b: Seq<usize>, n: int)
    requires
        totals.len() <= usize::MAX,
        all_numbers(totals),
        is_top(totals, a),
        is_top(totals, b),
        0 <= n <= a.len(),
    ensures
        a.take(n) == b.take(n),
    decreases n,
{
    if n > 0 {
        lemma_same_top(totals, a, b, n - 1);
        let (x, y) = (a[n - 1], b[n - 1]);
        if x != y {
            lemma_not_before(a, b, n, y);
            lemma_not_before(b, a, n, x);
            assert(totals[y as int] == totals[y as int]);
            assert(ahead(totals, a[n - 1] as int, y as int));
            assert(totals[x as int] == totals[x as int]);
            assert(ahead(totals, b[n - 1] as int, x as int));
            lemma_ahead_is_one_way(totals, x as int, y as int);
        }
        assert(a.take(n) =~= a.take(n - 1).push(x));
        assert(b.take(n) =~= b.take(n - 1).push(y));
    }
}

proof fn lemma_not_before(a: Seq<usize>, b: Seq<usize>, n: int, y: usize)
    requires
        0 < n <= a.len(),
        n <= b.len(),
        a.take(n - 1) == b.take(n - 1),
        b.no_duplicates(),
        b[n - 1] == y,
        a[n - 1] != y,
    ensures
        !a.take(n).contains(y),
{
    if a.take(n).contains(y) {
        let k = a.take(n).index_of(y);
        assert(a.take(n - 1)[k] == b.take(n - 1)[k]);
        assert(b[k] == y);
    }
}

/// Is the place among those named?
fn is_named(top: &Vec<usize>, i: usize) -> (r: bool)
    ensures
        r == top@.contains(i),
{
    let n: usize = top.len();
    let mut k: usize = 0;
    while k < n
        invariant
            n == top@.len(),
            k <= n,
            forall|j: int| 0 <= j < k ==> top@[j] != i,
        decreases n - k,
    {
        if top[k] == i {
            return true;
        }
        k += 1;
    }
    false
}

/// The place of the most power that is not named yet.
fn next_busiest(totals: &Vec<Double>, top: &Vec<usize>) -> (r: usize)
    requires
        exists|i: usize| i < totals@.len() && !top@.contains(i),
    ensures
        r < totals@.len(),
        !top@.contains(r),
        all_numbers(totals@) ==> forall|i: int|
            0 <= i < totals@.len() && !top@.contains(i as usize) && i != r ==> ahead(
                totals@,
                r as int,
                i,
            ),
{
    let n: usize = totals.len();
    let mut found: bool = false;
    let mut best: usize = 0;
    let mut i: usize = 0;
    while i < n
        invariant
            n == totals@.len(),
            i <= n,
            found ==> best < i && !top@.contains(best),
            !found ==> forall|k: usize| k < i ==> #[trigger] top@.contains(k),
            found && all_numbers(totals@) ==> forall|k: int|
                0 <= k < i && !top@.contains(k as usize) && k != best ==> ahead(
                    totals@,
                    best as int,
                    k,
                ),
        decreases n - i,
    {
        let ghost was = best;
        let ghost had = found;
        if !is_named(top, i) {
            if !found || totals[best].lt(&totals[i]) {
                best = i;
                found = true;
            }
        }
        proof {
            if found && all_numbers(totals@) {
                assert forall|k: int|
                    0 <= k < i + 1 && !top@.contains(k as usize) && k != best implies ahead(
                    totals@,
                    best as int,
                    k,
                ) by {
                    assert(!totals@[k].nan());
                    assert(!totals@[best as int].nan());
                    if had {
                        assert(!totals@[was as int].nan());
                        assert(k != was && k < i ==> ahead(totals@, was as int, k));
                    } else {
                        assert(k < i ==> top@.contains(k as usize));
                    }
                }
            }
        }
        i += 1;
    }
    proof {
        if !found {
            let w = choose|i: usize| i < totals@.len() && !top@.contains(i);
            assert(top@.contains(w));
        }
    }
    best
}

/// Picks the instances that a report names.
pub fn top_instances(totals: &Vec<Double>) -> (r: Vec<usize>)
    ensures
        is_top(totals@, r@),
{
    let n: usize = totals.len();
    let count: usize = if n < SHOWN {
        n
    } else {
        SHOWN
    };
    let mut top: Vec<usize> = Vec::new();
    let mut k: usize = 0;
    while k < count
        invariant
            n == totals@.len(),
            k <= count <= n,
            top@.len() == k,
            top@.no_duplicates(),
            forall|j: int| 0 <= j < k ==> (#[trigger] top@[j]) < n,
            all_numbers(totals@) ==> forall|j: int, i: int|
                #![trigger top@[j], totals@[i]]
                0 <= j < k && 0 <= i < n && !top@.take(j + 1).contains(i as usize) ==> ahead(
                    totals@,
                    top@[j] as int,
                    i,
                ),
        decreases count - k,
    {
        let ghost before = top@;
        proof {
            lemma_one_is_left(before, n);
        }
        let next: usize = next_busiest(totals, &top);
        top.push(next);
        proof {
            if all_numbers(totals@) {
                assert forall|j: int, i: int|
                    #![trigger top@[j], totals@[i]]
                    0 <= j < k + 1 && 0 <= i < n && !top@.take(j + 1).contains(
                        i as usize,
                    ) implies ahead(totals@, top@[j] as int, i) by {
                    if j < k {
                        assert(top@.take(j + 1) =~= before.take(j + 1));
                        assert(before[j] == top@[j]);
                    } else {
                        assert(top@.take(j + 1) =~= before.push(next));
                        assert(before.push(next)[k as int] == next);
                        if before.contains(i as usize) {
                            let m = before.index_of(i as usize);
                            assert(before.push(next)[m] == i as usize);
                        }
                    }
                }
            }
        }
        k += 1;
    }
    top
}

/// Fewer places than there are leave one out.
proof fn lemma_one_is_left(top: Seq<usize>, n: usize)
    requires
        top.no_duplicates(),
        top.len() < n,
    ensures
        exists|i: usize| i < n && !top.contains(i),
{
    if forall|i: usize| i < n ==> top.contains(i) {
        let all = Set::new(|i: usize| i < n);
        let named = top.to_set();
        top.unique_seq_to_set();
        lemma_below(n);
        assert(all.subset_of(named));
        vstd::seq_lib::seq_to_set_is_finite(top);
        vstd::set_lib::lemma_len_subset(all, named);
    }
}

proof fn lemma_below(n: usize)
    ensures
        Set::new(|i: usize| i < n).finite(),
        Set::new(|i: usize| i < n).len() == n,
    decreases n,
{
    let s = Set::new(|i: usize| i < n);
    if n == 0 {
        assert(s =~= Set::<usize>::empty());
    } else {
        let m = (n - 1) as usize;
        lemma_below(m);
        assert(s =~= Set::new(|i: usize| i < m).insert(m));
    }
}

// ---- the report as text --------------------------------------------------------

/// The powers of a group, as they are shown.
#[derive(Debug)]
pub struct GroupFigures {
    pub total: Quantity,
    pub leakage: Quantity,
    pub dynamic: Quantity,
}

/// The powers and the current of an instance, as they are shown.
#[derive(Debug)]
pub struct RowFigures {
    pub total: Quantity,
    pub leakage: Quantity,
    pub dynamic: Quantity,
    pub current: Quantity,
}

/// The numbers of a report, as they are shown: the supply in volts with three
/// decimals, the clock share in percent with one, the groups in their order, and
/// the instances in theirs.
#[derive(Debug)]
pub struct ReportFigures {
    pub vdd: String,
    pub total: Quantity,
    pub leakage: Quantity,
    pub internal: Quantity,
    pub switching: Quantity,
    pub current: Quantity,
    pub groups: Vec<GroupFigures>,
    pub clock_share: String,
    pub rows: Vec<RowFigures>,
}

/// The total powers of the instances.
pub open spec fn row_totals(rows: Seq<RowFigures>) -> Seq<Double> {
    rows.map_values(|r: RowFigures| r.total.value)
}

/// How many instances are in a group.
pub open spec fn group_size(rep: PowerReport, g: Group) -> nat {
    members(rep.insts@, g, rep.insts@.len() as int).len()
}

/// Where the wire capacitances come from.
pub open spec fn wire_text(rep: PowerReport) -> Seq<char> {
    if rep.spef {
        "SPEF ("@ + decimal_text(rep.spef_nets as nat) + " net(s) extracted)"@
    } else {
        "flat stand-in"@
    }
}

/// The head of a report, up to the groups.
pub open spec fn head_text(rep: PowerReport, fig: ReportFigures) -> Seq<char> {
    "vyges-power — "@ + rep.design@ + "\n"@ + "  supply (Vdd)     "@ + fig.vdd@ + " V\n"@
        + "  activity         "@ + rep.mode@ + "\n"@ + "  wire caps        "@ + wire_text(rep)
        + "\n"@ + "  instances        "@ + decimal_text(rep.insts@.len()) + " ("@ + decimal_text(
        rep.unmatched@.len(),
    ) + " unmatched)\n\n"@ + "  total power      "@ + watts_text(fig.total) + "\n"@
        + "    leakage        "@ + watts_text(fig.leakage) + "\n"@ + "    internal       "@
        + watts_text(fig.internal) + "\n"@ + "    net switching  "@ + watts_text(fig.switching)
        + "\n"@ + "  avg current      "@ + amps_text(fig.current) + "\n\n"@
        + "  by group:        instances     total      leak       dyn\n"@
}

/// The line of a group.
pub open spec fn group_line(g: Group, size: nat, f: GroupFigures) -> Seq<char> {
    "    "@ + left_aligned(g.label_text(), 14) + " "@ + right_aligned(decimal_text(size), 9) + " "@
        + right_aligned(watts_text(f.total), 9) + " "@ + right_aligned(watts_text(f.leakage), 9)
        + " "@ + right_aligned(watts_text(f.dynamic), 9) + "\n"@
}

/// The lines of the first `n` groups.
pub open spec fn group_lines(rep: PowerReport, figs: Seq<GroupFigures>, n: int) -> Seq<char>
    decreases n,
{
    if n <= 0 {
        Seq::empty()
    } else {
        let g = Group::ALL@[n - 1];
        group_lines(rep, figs, n - 1) + group_line(g, group_size(rep, g), figs[n - 1])
    }
}

/// The warning of a report whose groups follow the shape of the cells.
pub open spec fn grouping_warning(rep: PowerReport) -> Seq<char> {
    if rep.clock_grouping_approximate {
        "  [warn] the library declares no sequential cell and no clock pin — the group\n         split is inferred from cell shape, and only repeater-shaped cells are\n         counted as clock network\n"@
    } else {
        Seq::empty()
    }
}

/// The line of an instance.
pub open spec fn inst_line(p: InstPower, f: RowFigures) -> Seq<char> {
    "    "@ + left_aligned(column_text(p.inst@, 20), 20) + " "@ + left_aligned(
        column_text(p.cell@, 15),
        15,
    ) + " "@ + right_aligned(watts_text(f.total), 9) + " "@ + right_aligned(
        watts_text(f.leakage),
        9,
    ) + " "@ + right_aligned(watts_text(f.dynamic), 9) + " "@ + right_aligned(
        amps_text(f.current),
        9,
    ) + "\n"@
}

/// The lines of the first `n` named instances.
pub open spec fn top_lines(
    insts: Seq<InstPower>,
    rows: Seq<RowFigures>,
    top: Seq<usize>,
    n: int,
) -> Seq<char>
    decreases n,
{
    if n <= 0 {
        Seq::empty()
    } else {
        top_lines(insts, rows, top, n - 1) + inst_line(
            insts[top[n - 1] as int],
            rows[top[n - 1] as int],
        )
    }
}

/// The warning of a report with cells that no library has.
pub open spec fn unmatched_warning(unmatched: Seq<Seq<char>>) -> Seq<char> {
    if unmatched.len() > 0 {
        "\n  [warn] "@ + decimal_text(unmatched.len())
            + " cell(s) not in any lib — no power counted: "@ + joined(unmatched, ", "@) + "\n"@
    } else {
        Seq::empty()
    }
}

/// A report as text, with the instances `top` named.
pub open spec fn report_text(rep: PowerReport, fig: ReportFigures, top: Seq<usize>) -> Seq<char> {
    head_text(rep, fig) + group_lines(rep, fig.groups@, 3) + "  clock network is "@
        + fig.clock_share@ + "% of total power\n"@ + grouping_warning(rep) + "\n"@
        + "  top instances by power:\n"@
        + "    instance              cell             total      leak      dyn       I_avg\n"@
        + top_lines(rep.insts@, fig.rows@, top, top.len() as int) + unmatched_warning(
        rep.unmatched.deep_view(),
    )
}

/// The names of the instances that a report names fit their columns.
pub open spec fn names_fit(rep: PowerReport, totals: Seq<Double>) -> bool {
    forall|top: Seq<usize>, k: int|
        #![trigger is_top(totals, top), top[k]]
        is_top(totals, top) && 0 <= k < top.len() ==> fits_column(
            rep.insts@[top[k] as int].inst@,
            20,
        ) && fits_column(rep.insts@[top[k] as int].cell@, 15)
}

pub(crate) fn count_text(n: usize) -> (r: String)
    ensures
        r@ == decimal_text(n as nat),
{
    decimal(n as u64)
}

fn render_head(rep: &PowerReport, fig: &ReportFigures) -> (r: String)
    ensures
        r@ == head_text(*rep, *fig),
{
    let mut s = "vyges-power — ".to_owned();
    s.append(rep.design.as_str());
    s.append("\n");
    s.append("  supply (Vdd)     ");
    s.append(fig.vdd.as_str());
    s.append(" V\n");
    s.append("  activity         ");
    s.append(rep.mode.as_str());
    s.append("\n");
    s.append("  wire caps        ");
    let wires = if rep.spef {
        let mut w = "SPEF (".to_owned();
        w.append(count_text(rep.spef_nets).as_str());
        w.append(" net(s) extracted)");
        w
    } else {
        "flat stand-in".to_owned()
    };
    s.append(wires.as_str());
    s.append("\n");
    s.append("  instances        ");
    s.append(count_text(rep.insts.len()).as_str());
    s.append(" (");
    s.append(count_text(rep.unmatched.len()).as_str());
    s.append(" unmatched)\n\n");
    s.append("  total power      ");
    s.append(fmt_w(&fig.total).as_str());
    s.append("\n");
    s.append("    leakage        ");
    s.append(fmt_w(&fig.leakage).as_str());
    s.append("\n");
    s.append("    internal       ");
    s.append(fmt_w(&fig.internal).as_str());
    s.append("\n");
    s.append("    net switching  ");
    s.append(fmt_w(&fig.switching).as_str());
    s.append("\n");
    s.append("  avg current      ");
    s.append(fmt_a(&fig.current).as_str());
    s.append("\n\n");
    s.append("  by group:        instances     total      leak       dyn\n");
    s
}

fn render_group(g: Group, size: usize, f: &GroupFigures) -> (r: String)
    ensures
        r@ == group_line(g, size as nat, *f),
{
    let mut s = "    ".to_owned();
    push_left_aligned(&mut s, g.label(), 14);
    s.append(" ");
    push_right_aligned(&mut s, count_text(size).as_str(), 9);
    s.append(" ");
    push_right_aligned(&mut s, fmt_w(&f.total).as_str(), 9);
    s.append(" ");
    push_right_aligned(&mut s, fmt_w(&f.leakage).as_str(), 9);
    s.append(" ");
    push_right_aligned(&mut s, fmt_w(&f.dynamic).as_str(), 9);
    s.append("\n");
    s
}

fn render_inst(p: &InstPower, f: &RowFigures) -> (r: String)
    requires
        fits_column(p.inst@, 20),
        fits_column(p.cell@, 15),
    ensures
        r@ == inst_line(*p, *f),
{
    let mut s = "    ".to_owned();
    push_left_aligned(&mut s, trunc(p.inst.as_str(), 20).as_str(), 20);
    s.append(" ");
    push_left_aligned(&mut s, trunc(p.cell.as_str(), 15).as_str(), 15);
    s.append(" ");
    push_right_aligned(&mut s, fmt_w(&f.total).as_str(), 9);
    s.append(" ");
    push_right_aligned(&mut s, fmt_w(&f.leakage).as_str(), 9);
    s.append(" ");
    push_right_aligned(&mut s, fmt_w(&f.dynamic).as_str(), 9);
    s.append(" ");
    push_right_aligned(&mut s, fmt_a(&f.current).as_str(), 9);
    s.append("\n");
    s
}

fn render_groups(rep: &PowerReport, figs: &Vec<GroupFigures>) -> (r: String)
    requires
        figs@.len() == 3,
    ensures
        r@ == group_lines(*rep, figs@, 3),
{
    let mut s = String::new();
    let mut i: usize = 0;
    assert(s@ =~= Seq::<char>::empty());
    while i < 3
        invariant
            figs@.len() == 3,
            i <= 3,
            s@ == group_lines(*rep, figs@, i as int),
        decreases 3 - i,
    {
        let g: Group = Group::ALL[i];
        let size: usize = rep.group(g).instances;
        s.append(render_group(g, size, &figs[i]).as_str());
        i += 1;
    }
    s
}

fn totals_of(rows: &Vec<RowFigures>) -> (r: Vec<Double>)
    ensures
        r@ == row_totals(rows@),
{
    let n: usize = rows.len();
    let mut r: Vec<Double> = Vec::new();
    let mut i: usize = 0;
    while i < n
        invariant
            n == rows@.len(),
            i <= n,
            r@ == row_totals(rows@.take(i as int)),
        decreases n - i,
    {
        r.push(rows[i].total.value);
        assert(row_totals(rows@.take(i + 1)) =~= row_totals(rows@.take(i as int)).push(
            rows@[i as int].total.value,
        ));
        i += 1;
    }
    assert(rows@.take(n as int) =~= rows@);
    r
}

fn render_top(rep: &PowerReport, rows: &Vec<RowFigures>, top: &Vec<usize>) -> (r: String)
    requires
        rows@.len() == rep.insts@.len(),
        is_top(row_totals(rows@), top@),
        names_fit(*rep, row_totals(rows@)),
    ensures
        r@ == top_lines(rep.insts@, rows@, top@, top@.len() as int),
{
    let n: usize = top.len();
    let mut s = String::new();
    let mut k: usize = 0;
    assert(s@ =~= Seq::<char>::empty());
    while k < n
        invariant
            n == top@.len(),
            rows@.len() == rep.insts@.len(),
            is_top(row_totals(rows@), top@),
            names_fit(*rep, row_totals(rows@)),
            k <= n,
            s@ == top_lines(rep.insts@, rows@, top@, k as int),
        decreases n - k,
    {
        let i: usize = top[k];
        assert(row_totals(rows@).len() == rows@.len());
        assert(top@[k as int] == i);
        s.append(render_inst(&rep.insts[i], &rows[i]).as_str());
        k += 1;
    }
    s
}

fn render_unmatched(unmatched: &Vec<String>) -> (r: String)
    ensures
        r@ == unmatched_warning(unmatched.deep_view()),
{
    assert(unmatched.deep_view().len() == unmatched@.len());
    if unmatched.len() == 0 {
        let s = String::new();
        assert(s@ =~= Seq::<char>::empty());
        return s;
    }
    let mut s = "\n  [warn] ".to_owned();
    s.append(count_text(unmatched.len()).as_str());
    s.append(" cell(s) not in any lib — no power counted: ");
    s.append(join(unmatched, ", ").as_str());
    s.append("\n");
    s
}

/// Do the names of the instances that a report names fit their columns? Where a
/// power is not a number every instance may be named.
pub fn columns_fit(rep: &PowerReport, rows: &Vec<RowFigures>) -> (r: bool)
    requires
        rows@.len() == rep.insts@.len(),
    ensures
        r ==> names_fit(*rep, row_totals(rows@)),
        all_numbers(row_totals(rows@)) ==> (r <==> names_fit(*rep, row_totals(rows@))),
        !all_numbers(row_totals(rows@)) ==> (r <==> forall|k: int|
            0 <= k < rep.insts@.len() ==> fits_column((#[trigger] rep.insts@[k]).inst@, 20)
                && fits_column(rep.insts@[k].cell@, 15)),
{
    let totals = totals_of(rows);
    let n: usize = totals.len();
    let mut numbers: bool = true;
    let mut i: usize = 0;
    while i < n && numbers
        invariant
            n == totals@.len(),
            i <= n,
            numbers ==> forall|k: int| 0 <= k < i ==> !(#[trigger] totals@[k]).nan(),
            !numbers ==> !all_numbers(totals@),
        decreases n - i,
    {
        if totals[i].is_nan() {
            numbers = false;
        }
        i += 1;
    }
    let mut named: Vec<usize> = Vec::new();
    if numbers {
        named = top_instances(&totals);
        proof {
            assert(all_numbers(totals@));
            assert forall|top: Seq<usize>| #[trigger] is_top(totals@, top) implies top == named@ by {
                the_top_is_settled(totals@, top, named@);
            }
        }
    } else {
        i = 0;
        while i < n
            invariant
                n == totals@.len(),
                i <= n,
                named@.len() == i,
                forall|k: int| 0 <= k < i ==> #[trigger] named@[k] == k,
            decreases n - i,
        {
            named.push(i);
            i += 1;
        }
    }
    let m: usize = named.len();
    let mut k: usize = 0;
    while k < m
        invariant
            m == named@.len(),
            n == totals@.len(),
            n == rep.insts@.len(),
            totals@ == row_totals(rows@),
            forall|j: int| 0 <= j < m ==> (#[trigger] named@[j]) < n,
            numbers ==> all_numbers(totals@) && is_top(totals@, named@),
            !numbers ==> !all_numbers(totals@) && m == n,
            !numbers ==> forall|j: int| 0 <= j < m ==> #[trigger] named@[j] == j,
            k <= m,
            forall|j: int|
                0 <= j < k ==> fits_column(
                    rep.insts@[(#[trigger] named@[j]) as int].inst@,
                    20,
                ) && fits_column(rep.insts@[named@[j] as int].cell@, 15),
        decreases m - k,
    {
        let p = &rep.insts[named[k]];
        if !column_fits(p.inst.as_str(), 20) || !column_fits(p.cell.as_str(), 15) {
            proof {
                if numbers {
                    assert(named@[k as int] == named@[k as int]);
                    assert(!names_fit(*rep, totals@));
                } else {
                    assert(rep.insts@[k as int] == p);
                }
            }
            return false;
        }
        k += 1;
    }
    proof {
        if !numbers {
            assert forall|j: int| 0 <= j < n implies fits_column(
                (#[trigger] rep.insts@[j]).inst@,
                20,
            ) && fits_column(rep.insts@[j].cell@, 15) by {
                assert(named@[j] == j);
            }
        }
        assert forall|top: Seq<usize>, j: int|
            #![trigger is_top(totals@, top), top[j]]
            is_top(totals@, top) && 0 <= j < top.len() implies fits_column(
            rep.insts@[top[j] as int].inst@,
            20,
        ) && fits_column(rep.insts@[top[j] as int].cell@, 15) by {
            if !numbers {
                assert(named@[top[j] as int] == top[j]);
            }
        }
    }
    true
}

/// Writes a report for people to read.
pub fn render_report(rep: &PowerReport, fig: &ReportFigures) -> (r: String)
    requires
        fig.groups@.len() == 3,
        fig.rows@.len() == rep.insts@.len(),
        names_fit(*rep, row_totals(fig.rows@)),
    ensures
        exists|top: Seq<usize>|
            is_top(row_totals(fig.rows@), top) && r@ == #[trigger] report_text(*rep, *fig, top),
{
    let totals = totals_of(&fig.rows);
    let top = top_instances(&totals);
    let mut s = render_head(rep, fig);
    s.append(render_groups(rep, &fig.groups).as_str());
    s.append("  clock network is ");
    s.append(fig.clock_share.as_str());
    s.append("% of total power\n");
    let warning = if rep.clock_grouping_approximate {
        "  [warn] the library declares no sequential cell and no clock pin — the group\n         split is inferred from cell shape, and only repeater-shaped cells are\n         counted as clock network\n".to_owned()
    } else {
        String::new()
    };
    assert(warning@ =~= grouping_warning(*rep));
    s.append(warning.as_str());
    s.append("\n");
    s.append("  top instances by power:\n");
    s.append("    instance              cell             total      leak      dyn       I_avg\n");
    s.append(render_top(rep, &fig.rows, &top).as_str());
    s.append(render_unmatched(&rep.unmatched).as_str());
    assert(s@ == report_text(*rep, *fig, top@));
    s
}

// ---- the report as JSON --------------------------------------------------------

/// The powers of a group in watts, as JSON numbers.
#[derive(Debug)]
pub struct JsonGroup {
    pub leakage_w: String,
    pub internal_w: String,
    pub switch_w: String,
    pub total_w: String,
}

/// The numbers of an instance, as JSON numbers.
#[derive(Debug)]
pub struct JsonRow {
    pub total_w: String,
    pub avg_current_a: String,
    pub toggle_rate_hz: String,
}

/// The numbers of a report, as JSON numbers: the supply with six decimals, the
/// clock share with three, and the others with six and an exponent.
#[derive(Debug)]
pub struct JsonFigures {
    pub vdd: String,
    pub leakage_w: String,
    pub internal_w: String,
    pub switch_w: String,
    pub dynamic_w: String,
    pub total_w: String,
    pub total_current_a: String,
    pub clock_share_pct: String,
    pub groups: Vec<JsonGroup>,
    pub rows: Vec<JsonRow>,
}

/// A comma behind all but the last of `n`.
pub open spec fn comma_after(k: int, n: int) -> Seq<char> {
    if k + 1 < n {
        ","@
    } else {
        ""@
    }
}

pub(crate) fn comma(k: usize, n: usize) -> (r: &'static str)
    requires
        k < n,
    ensures
        r@ == comma_after(k as int, n as int),
{
    if k + 1 < n {
        ","
    } else {
        ""
    }
}

/// `true` or `false`.
pub open spec fn bool_text(b: bool) -> Seq<char> {
    if b {
        "true"@
    } else {
        "false"@
    }
}

/// The head of a JSON report, up to the groups.
pub open spec fn json_head(rep: PowerReport, fig: JsonFigures) -> Seq<char> {
    "{\n"@ + "  \"design\": "@ + json_text(rep.design@) + ",\n"@ + "  \"vdd\": "@ + fig.vdd@ + ",\n"@
        + "  \"activity_mode\": "@ + json_text(rep.mode@) + ",\n"@ + "  \"spef\": "@ + bool_text(
        rep.spef,
    ) + ",\n"@ + "  \"spef_nets\": "@ + decimal_text(rep.spef_nets as nat) + ",\n"@
        + "  \"instances\": "@ + decimal_text(rep.insts@.len()) + ",\n"@ + "  \"leakage_w\": "@
        + fig.leakage_w@ + ",\n"@ + "  \"internal_w\": "@ + fig.internal_w@ + ",\n"@
        + "  \"switch_w\": "@ + fig.switch_w@ + ",\n"@ + "  \"dynamic_w\": "@ + fig.dynamic_w@
        + ",\n"@ + "  \"total_w\": "@ + fig.total_w@ + ",\n"@ + "  \"total_current_a\": "@
        + fig.total_current_a@ + ",\n"@ + "  \"unmatched_cells\": ["@ + joined(
        json_texts(rep.unmatched.deep_view()),
        ", "@,
    ) + "],\n"@ + "  \"clock_share_pct\": "@ + fig.clock_share_pct@ + ",\n"@
        + "  \"by_group\": {\n"@
}

/// The JSON line of a group.
pub open spec fn json_group(g: Group, size: nat, f: JsonGroup, end: Seq<char>) -> Seq<char> {
    "    "@ + json_text(g.label_text()) + ": {\"instances\": "@ + decimal_text(size)
        + ", \"leakage_w\": "@ + f.leakage_w@ + ", \"internal_w\": "@ + f.internal_w@
        + ", \"switch_w\": "@ + f.switch_w@ + ", \"total_w\": "@ + f.total_w@ + "}"@ + end + "\n"@
}

/// The JSON lines of the first `n` groups.
pub open spec fn json_groups(rep: PowerReport, figs: Seq<JsonGroup>, n: int) -> Seq<char>
    decreases n,
{
    if n <= 0 {
        Seq::empty()
    } else {
        let g = Group::ALL@[n - 1];
        json_groups(rep, figs, n - 1) + json_group(
            g,
            group_size(rep, g),
            figs[n - 1],
            comma_after(n - 1, 3),
        )
    }
}

/// The JSON line of an instance.
pub open spec fn json_inst(p: InstPower, f: JsonRow, end: Seq<char>) -> Seq<char> {
    "    {\"instance\": "@ + json_text(p.inst@) + ", \"cell\": "@ + json_text(p.cell@)
        + ", \"group\": "@ + json_text(p.group.label_text()) + ", \"total_w\": "@ + f.total_w@
        + ", \"avg_current_a\": "@ + f.avg_current_a@ + ", \"toggle_rate_hz\": "@
        + f.toggle_rate_hz@ + "}"@ + end + "\n"@
}

/// The JSON lines of the first `n` instances.
pub open spec fn json_insts(insts: Seq<InstPower>, rows: Seq<JsonRow>, n: int) -> Seq<char>
    decreases n,
{
    if n <= 0 {
        Seq::empty()
    } else {
        json_insts(insts, rows, n - 1) + json_inst(
            insts[n - 1],
            rows[n - 1],
            comma_after(n - 1, insts.len() as int),
        )
    }
}

/// A report as JSON.
pub open spec fn report_json_text(rep: PowerReport, fig: JsonFigures) -> Seq<char> {
    json_head(rep, fig) + json_groups(rep, fig.groups@, 3) + "  },\n"@ + "  \"by_instance\": [\n"@
        + json_insts(rep.insts@, fig.rows@, rep.insts@.len() as int) + "  ]\n}\n"@
}

fn render_json_head(rep: &PowerReport, fig: &JsonFigures) -> (r: String)
    ensures
        r@ == json_head(*rep, *fig),
{
    let mut s = "{\n".to_owned();
    s.append("  \"design\": ");
    s.append(jstr(rep.design.as_str()).as_str());
    s.append(",\n");
    s.append("  \"vdd\": ");
    s.append(fig.vdd.as_str());
    s.append(",\n");
    s.append("  \"activity_mode\": ");
    s.append(jstr(rep.mode.as_str()).as_str());
    s.append(",\n");
    s.append("  \"spef\": ");
    s.append(
        if rep.spef {
            "true"
        } else {
            "false"
        },
    );
    s.append(",\n");
    s.append("  \"spef_nets\": ");
    s.append(count_text(rep.spef_nets).as_str());
    s.append(",\n");
    s.append("  \"instances\": ");
    s.append(count_text(rep.insts.len()).as_str());
    s.append(",\n");
    s.append("  \"leakage_w\": ");
    s.append(fig.leakage_w.as_str());
    s.append(",\n");
    s.append("  \"internal_w\": ");
    s.append(fig.internal_w.as_str());
    s.append(",\n");
    s.append("  \"switch_w\": ");
    s.append(fig.switch_w.as_str());
    s.append(",\n");
    s.append("  \"dynamic_w\": ");
    s.append(fig.dynamic_w.as_str());
    s.append(",\n");
    s.append("  \"total_w\": ");
    s.append(fig.total_w.as_str());
    s.append(",\n");
    s.append("  \"total_current_a\": ");
    s.append(fig.total_current_a.as_str());
    s.append(",\n");
    s.append("  \"unmatched_cells\": [");
    s.append(jlist(&rep.unmatched).as_str());
    s.append("],\n");
    s.append("  \"clock_share_pct\": ");
    s.append(fig.clock_share_pct.as_str());
    s.append(",\n");
    s.append("  \"by_group\": {\n");
    s
}

fn render_json_group(g: Group, size: usize, f: &JsonGroup, end: &str) -> (r: String)
    ensures
        r@ == json_group(g, size as nat, *f, end@),
{
    let mut s = "    ".to_owned();
    s.append(jstr(g.label()).as_str());
    s.append(": {\"instances\": ");
    s.append(count_text(size).as_str());
    s.append(", \"leakage_w\": ");
    s.append(f.leakage_w.as_str());
    s.append(", \"internal_w\": ");
    s.append(f.internal_w.as_str());
    s.append(", \"switch_w\": ");
    s.append(f.switch_w.as_str());
    s.append(", \"total_w\": ");
    s.append(f.total_w.as_str());
    s.append("}");
    s.append(end);
    s.append("\n");
    s
}

fn render_json_inst(p: &InstPower, f: &JsonRow, end: &str) -> (r: String)
    ensures
        r@ == json_inst(*p, *f, end@),
{
    let mut s = "    {\"instance\": ".to_owned();
    s.append(jstr(p.inst.as_str()).as_str());
    s.append(", \"cell\": ");
    s.append(jstr(p.cell.as_str()).as_str());
    s.append(", \"group\": ");
    s.append(jstr(p.group.label()).as_str());
    s.append(", \"total_w\": ");
    s.append(f.total_w.as_str());
    s.append(", \"avg_current_a\": ");
    s.append(f.avg_current_a.as_str());
    s.append(", \"toggle_rate_hz\": ");
    s.append(f.toggle_rate_hz.as_str());
    s.append("}");
    s.append(end);
    s.append("\n");
    s
}

fn render_json_groups(rep: &PowerReport, figs: &Vec<JsonGroup>) -> (r: String)
    requires
        figs@.len() == 3,
    ensures
        r@ == json_groups(*rep, figs@, 3),
{
    let mut s = String::new();
    let mut i: usize = 0;
    assert(s@ =~= Seq::<char>::empty());
    while i < 3
        invariant
            figs@.len() == 3,
            i <= 3,
            s@ == json_groups(*rep, figs@, i as int),
        decreases 3 - i,
    {
        let g: Group = Group::ALL[i];
        let size: usize = rep.group(g).instances;
        s.append(render_json_group(g, size, &figs[i], comma(i, 3)).as_str());
        i += 1;
    }
    s
}

/// Writes a report for machines to read.
pub fn report_json(rep: &PowerReport, fig: &JsonFigures) -> (r: String)
    requires
        fig.groups@.len() == 3,
        fig.rows@.len() == rep.insts@.len(),
    ensures
        r@ == report_json_text(*rep, *fig),
{
    let mut s = render_json_head(rep, fig);
    s.append(render_json_groups(rep, &fig.groups).as_str());
    s.append("  },\n");
    s.append("  \"by_instance\": [\n");
    let n: usize = rep.insts.len();
    let mut list = String::new();
    let mut i: usize = 0;
    assert(list@ =~= Seq::<char>::empty());
    while i < n
        invariant
            n == rep.insts@.len(),
            n == fig.rows@.len(),
            i <= n,
            list@ == json_insts(rep.insts@, fig.rows@, i as int),
        decreases n - i,
    {
        list.append(render_json_inst(&rep.insts[i], &fig.rows[i], comma(i, n)).as_str());
        i += 1;
    }
    s.append(list.as_str());
    s.append("  ]\n}\n");
    s
}

} // verus!
