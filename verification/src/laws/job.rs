//! What reading a job promises, over the lines of its text.

use crate::double::{Double, ZERO_BITS};
use crate::job::{
    activity_text, clock_of, end_text, entries_of, is_line_of, job_of, line_view, line_asks, lines_ask, list_of, lists, parsed,
    seconds, source_text, step_text, sweep_of, time_numeral, uncommented, window_of, ActivityFigures, ActivitySweep, EntriesView,
    JobView, LineView, DEFAULT_ACTIVITY_BITS,
};
use crate::text::{
    is_blank, lemma_first_of_is, lemma_split_behind, lowered, same_but_case, split_at_char, trimmed,
    words,
};
use crate::units::{unit_split, Numeral, Numerals, TimeUnit};
use vstd::prelude::*;

verus! {

// ---- lines ---------------------------------------------------------------------

/// What stands before the first `#` of a line is left of it.
pub proof fn a_comment_starts_at_its_sign(line: Seq<char>, comment: Seq<char>)
    requires
        !line.contains('#'),
    ensures
        uncommented(line + seq!['#'] + comment) == line,
        uncommented(line) == line,
{
    let long = line + seq!['#'] + comment;
    assert forall|i: int| 0 <= i < line.len() implies #[trigger] line[i] != '#' by {
        assert(line.contains(line[i]));
    }
    assert forall|i: int| 0 <= i < line.len() implies #[trigger] long[i] != '#' by {
        assert(long[i] == line[i]);
    }
    assert(long[line.len() as int] == '#');
    lemma_first_of_is(long, '#', line.len());
    lemma_first_of_is(line, '#', line.len());
    assert(long.take(line.len() as int) =~= line);
    assert(line.take(line.len() as int) =~= line);
}

/// A line of white space says nothing; one without a colon is malformed.
pub proof fn a_line_without_a_colon_is_no_entry(line: Seq<char>)
    requires
        !line.contains('#'),
        !line.contains(':'),
    ensures
        is_blank(line) ==> line_view(line) is Blank,
        !is_blank(line) ==> line_view(line) == LineView::Malformed(trimmed(line)),
{
    a_comment_starts_at_its_sign(line, Seq::empty());
    crate::laws::text::a_trimmed_text_has_no_white_ends(line);
    let w = crate::text::lemma_trim_start(line);
    let t = crate::text::trim_start(line);
    let v = crate::text::lemma_trim_end(t);
    let inner = trimmed(line);
    assert(line =~= w + inner + v);
    if inner.len() == 0 {
        assert forall|i: int| 0 <= i < line.len() implies crate::text::is_white(
            #[trigger] line[i],
        ) by {
            if i < w.len() {
                assert(line[i] == w[i]);
            } else {
                assert(line[i] == v[i - w.len()]);
            }
        }
    }
    assert forall|i: int| 0 <= i < inner.len() implies #[trigger] inner[i] != ':' by {
        assert(line[w.len() + i] == inner[i]);
        assert(line.contains(line[w.len() + i]));
    }
    lemma_first_of_is(inner, ':', inner.len());
}

// ---- what the lines say of a key -----------------------------------------------

/// Line `i` says `key: val`, and no later line is one of this key.
pub open spec fn last_says(lines: Seq<Seq<char>>, key: Seq<char>, i: int, val: Seq<char>) -> bool {
    &&& 0 <= i < lines.len()
    &&& line_view(lines[i]) == LineView::Entry(key, val)
    &&& forall|k: int| i < k < lines.len() ==> !is_line_of(#[trigger] lines[k], key)
}

/// No line is one of this key.
pub open spec fn never_says(lines: Seq<Seq<char>>, key: Seq<char>) -> bool {
    forall|k: int| 0 <= k < lines.len() ==> !is_line_of(#[trigger] lines[k], key)
}

proof fn lemma_last_value(
    lines: Seq<Seq<char>>,
    nums: Numerals,
    key: Seq<char>,
    i: int,
    val: Seq<char>,
)
    requires
        entries_of(lines, nums) is Ok,
        last_says(lines, key, i, val),
    ensures
        key != "clock"@ ==> entries_of(lines, nums)->Ok_0.kv.contains_key(key) && entries_of(
            lines,
            nums,
        )->Ok_0.kv[key] == val,
        key == "clock"@ ==> clock_of(val, nums) is Ok && entries_of(lines, nums)->Ok_0.clock == Some(
            clock_of(val, nums)->Ok_0,
        ),
    decreases lines.len(),
{
    let front = lines.drop_last();
    if i < lines.len() - 1 {
        assert(last_says(front, key, i, val)) by {
            assert(front[i] == lines[i]);
            assert forall|k: int| i < k < front.len() implies !is_line_of(#[trigger] front[k], key) by {
                assert(front[k] == lines[k]);
            }
        }
        lemma_last_value(front, nums, key, i, val);
        assert(!is_line_of(lines[lines.len() - 1], key));
    }
}

proof fn lemma_no_value(lines: Seq<Seq<char>>, nums: Numerals, key: Seq<char>)
    requires
        entries_of(lines, nums) is Ok,
        never_says(lines, key),
    ensures
        key != "clock"@ ==> !entries_of(lines, nums)->Ok_0.kv.contains_key(key),
        key == "clock"@ ==> entries_of(lines, nums)->Ok_0.clock is None,
    decreases lines.len(),
{
    if lines.len() > 0 {
        let front = lines.drop_last();
        assert(never_says(front, key)) by {
            assert forall|k: int| 0 <= k < front.len() implies !is_line_of(#[trigger] front[k], key) by {
                assert(front[k] == lines[k]);
            }
        }
        lemma_no_value(front, nums, key);
        assert(!is_line_of(lines[lines.len() - 1], key));
    }
}

/// The keys whose value is a text that can be left out.
pub open spec fn text_keys() -> Seq<Seq<char>> {
    seq![
        "vcd"@,
        "saif"@,
        "fst"@,
        "scope"@,
        "spef"@,
        "emit_activity"@,
        "emit_power_vcd"@,
    ]
}

/// What a job holds for each of these.
pub open spec fn text_fields(j: JobView) -> Seq<Option<Seq<char>>> {
    seq![j.vcd, j.saif, j.fst, j.scope, j.spef, j.emit_activity, j.emit_power_vcd]
}

proof fn lemma_keys_are_not_clock()
    ensures
        forall|k: int| 0 <= k < 7 ==> #[trigger] text_keys()[k] != "clock"@,
        "design"@ != "clock"@,
        "netlist"@ != "clock"@,
        "lib"@ != "clock"@,
        "vdd"@ != "clock"@,
        "power_budget_mw"@ != "clock"@,
        "activity"@ != "clock"@,
        "default_wire_cap"@ != "clock"@,
        "activity_window"@ != "clock"@,
        "activity_sweep"@ != "clock"@,
{
    reveal_strlit("clock");
    reveal_strlit("vcd");
    reveal_strlit("saif");
    reveal_strlit("fst");
    reveal_strlit("scope");
    reveal_strlit("spef");
    reveal_strlit("emit_activity");
    reveal_strlit("emit_power_vcd");
    reveal_strlit("design");
    reveal_strlit("netlist");
    reveal_strlit("lib");
    reveal_strlit("vdd");
    reveal_strlit("power_budget_mw");
    reveal_strlit("activity");
    reveal_strlit("default_wire_cap");
    reveal_strlit("activity_window");
    reveal_strlit("activity_sweep");
    assert("scope"@[0] == 's' && "clock"@[0] == 'c');
    assert forall|k: int| 0 <= k < 7 implies #[trigger] text_keys()[k] != "clock"@ by {
        assert(text_keys()[k].len() != 5 || text_keys()[k][0] == 's');
    }
}

/// An accepted job holds the text that the last line of a key says, and nothing where
/// that is empty or there is no such line: of its dumps, its scope, its parasitics and
/// the files that it writes.
pub proof fn a_text_of_a_job_is_what_its_last_line_says(
    text: Seq<char>,
    base_dir: Seq<char>,
    nums: Numerals,
    k: int,
    i: int,
    val: Seq<char>,
)
    requires
        parsed(text, base_dir, nums) is Ok,
        0 <= k < 7,
    ensures
        last_says(split_at_char(text, '\n'), text_keys()[k], i, val) ==> text_fields(
            parsed(text, base_dir, nums)->Ok_0,
        )[k] == if val.len() > 0 {
            Some(val)
        } else {
            None
        },
        never_says(split_at_char(text, '\n'), text_keys()[k]) ==> text_fields(
            parsed(text, base_dir, nums)->Ok_0,
        )[k] is None,
{
    let lines = split_at_char(text, '\n');
    let key = text_keys()[k];
    lemma_keys_are_not_clock();
    if last_says(lines, key, i, val) {
        lemma_last_value(lines, nums, key, i, val);
    }
    if never_says(lines, key) {
        lemma_no_value(lines, nums, key);
    }
}

/// An accepted job holds the design, the netlist and the libraries that the last lines
/// of these keys say.
pub proof fn the_design_of_a_job_is_what_its_last_lines_say(
    text: Seq<char>,
    base_dir: Seq<char>,
    nums: Numerals,
    i: int,
    val: Seq<char>,
)
    requires
        parsed(text, base_dir, nums) is Ok,
    ensures
        last_says(split_at_char(text, '\n'), "design"@, i, val) ==> parsed(
            text,
            base_dir,
            nums,
        )->Ok_0.design == val,
        last_says(split_at_char(text, '\n'), "netlist"@, i, val) ==> parsed(
            text,
            base_dir,
            nums,
        )->Ok_0.netlist == val,
        last_says(split_at_char(text, '\n'), "lib"@, i, val) ==> parsed(
            text,
            base_dir,
            nums,
        )->Ok_0.libs == list_of(val),
        parsed(text, base_dir, nums)->Ok_0.base_dir == base_dir,
        !never_says(split_at_char(text, '\n'), "design"@),
        !never_says(split_at_char(text, '\n'), "netlist"@),
        !never_says(split_at_char(text, '\n'), "lib"@),
        !never_says(split_at_char(text, '\n'), "clock"@),
{
    let lines = split_at_char(text, '\n');
    lemma_keys_are_not_clock();
    if last_says(lines, "design"@, i, val) {
        lemma_last_value(lines, nums, "design"@, i, val);
    }
    if last_says(lines, "netlist"@, i, val) {
        lemma_last_value(lines, nums, "netlist"@, i, val);
    }
    if last_says(lines, "lib"@, i, val) {
        lemma_last_value(lines, nums, "lib"@, i, val);
    }
    if never_says(lines, "design"@) {
        lemma_no_value(lines, nums, "design"@);
    }
    if never_says(lines, "netlist"@) {
        lemma_no_value(lines, nums, "netlist"@);
    }
    if never_says(lines, "lib"@) {
        lemma_no_value(lines, nums, "lib"@);
    }
    if never_says(lines, "clock"@) {
        lemma_no_value(lines, nums, "clock"@);
    }
}

/// An accepted job holds the numbers that the last lines of these keys say. The supply
/// and the budget are left out where there is no number; the toggle factor is a fifth,
/// and the wire capacitance nothing, where there is no line.
pub proof fn the_numbers_of_a_job_are_what_its_last_lines_say(
    text: Seq<char>,
    base_dir: Seq<char>,
    nums: Numerals,
    i: int,
    val: Seq<char>,
)
    requires
        parsed(text, base_dir, nums) is Ok,
    ensures
        ({
            let lines = split_at_char(text, '\n');
            let j = parsed(text, base_dir, nums)->Ok_0;
            let x = nums.value(val, None);
            &&& last_says(lines, "vdd"@, i, val) ==> j.vdd == x
            &&& never_says(lines, "vdd"@) ==> j.vdd is None
            &&& last_says(lines, "power_budget_mw"@, i, val) ==> j.power_budget_mw == x
            &&& never_says(lines, "power_budget_mw"@) ==> j.power_budget_mw is None
            &&& last_says(lines, "activity"@, i, val) ==> x == Some(j.activity_factor)
            &&& never_says(lines, "activity"@) ==> j.activity_factor == (Double {
                bits: DEFAULT_ACTIVITY_BITS,
            })
            &&& last_says(lines, "default_wire_cap"@, i, val) ==> x == Some(j.default_wire_cap_pf)
            &&& never_says(lines, "default_wire_cap"@) ==> j.default_wire_cap_pf == (Double {
                bits: ZERO_BITS,
            })
            &&& DEFAULT_ACTIVITY_BITS == 0x3fc9_9999_9999_999a
        }),
{
    let lines = split_at_char(text, '\n');
    lemma_keys_are_not_clock();
    if last_says(lines, "vdd"@, i, val) {
        lemma_last_value(lines, nums, "vdd"@, i, val);
    }
    if never_says(lines, "vdd"@) {
        lemma_no_value(lines, nums, "vdd"@);
    }
    if last_says(lines, "power_budget_mw"@, i, val) {
        lemma_last_value(lines, nums, "power_budget_mw"@, i, val);
    }
    if never_says(lines, "power_budget_mw"@) {
        lemma_no_value(lines, nums, "power_budget_mw"@);
    }
    if last_says(lines, "activity"@, i, val) {
        lemma_last_value(lines, nums, "activity"@, i, val);
    }
    if never_says(lines, "activity"@) {
        lemma_no_value(lines, nums, "activity"@);
    }
    if last_says(lines, "default_wire_cap"@, i, val) {
        lemma_last_value(lines, nums, "default_wire_cap"@, i, val);
    }
    if never_says(lines, "default_wire_cap"@) {
        lemma_no_value(lines, nums, "default_wire_cap"@);
    }
}

/// An accepted job holds the clock that its last clock line says: two words, a port
/// and a period.
pub proof fn the_clock_of_a_job_is_what_its_last_line_says(
    text: Seq<char>,
    base_dir: Seq<char>,
    nums: Numerals,
    i: int,
    val: Seq<char>,
)
    requires
        parsed(text, base_dir, nums) is Ok,
        last_says(split_at_char(text, '\n'), "clock"@, i, val),
    ensures
        words(val).len() == 2,
        parsed(text, base_dir, nums)->Ok_0.clock_port == words(val)[0],
        nums.value(words(val)[1], None) == Some(parsed(text, base_dir, nums)->Ok_0.period_ns),
{
    lemma_last_value(split_at_char(text, '\n'), nums, "clock"@, i, val);
}

/// An accepted job holds the window and the sweep that its last lines of these keys
/// say, and none where that is empty or there is no such line.
pub proof fn the_measurement_of_a_job_is_what_its_last_lines_say(
    text: Seq<char>,
    base_dir: Seq<char>,
    nums: Numerals,
    i: int,
    val: Seq<char>,
)
    requires
        parsed(text, base_dir, nums) is Ok,
    ensures
        ({
            let lines = split_at_char(text, '\n');
            let j = parsed(text, base_dir, nums)->Ok_0;
            &&& last_says(lines, "activity_window"@, i, val) && val.len() > 0 ==> window_of(val, nums)
                is Ok && j.activity_window == Some(window_of(val, nums)->Ok_0)
            &&& last_says(lines, "activity_window"@, i, val) && val.len() == 0
                ==> j.activity_window is None
            &&& never_says(lines, "activity_window"@) ==> j.activity_window is None
            &&& last_says(lines, "activity_sweep"@, i, val) && val.len() > 0 ==> sweep_of(val, nums)
                is Ok && j.activity_sweep == Some(sweep_of(val, nums)->Ok_0)
            &&& last_says(lines, "activity_sweep"@, i, val) && val.len() == 0 ==> j.activity_sweep
                is None
            &&& never_says(lines, "activity_sweep"@) ==> j.activity_sweep is None
        }),
{
    let lines = split_at_char(text, '\n');
    lemma_keys_are_not_clock();
    if last_says(lines, "activity_window"@, i, val) {
        lemma_last_value(lines, nums, "activity_window"@, i, val);
    }
    if never_says(lines, "activity_window"@) {
        lemma_no_value(lines, nums, "activity_window"@);
    }
    if last_says(lines, "activity_sweep"@, i, val) {
        lemma_last_value(lines, nums, "activity_sweep"@, i, val);
    }
    if never_says(lines, "activity_sweep"@) {
        lemma_no_value(lines, nums, "activity_sweep"@);
    }
}

// ---- values --------------------------------------------------------------------

/// A list has the names between its commas, without the white space around them;
/// empty ones do not count.
pub proof fn a_list_has_the_names_between_commas(front: Seq<char>, name: Seq<char>)
    requires
        !name.contains(','),
    ensures
        list_of(name) == if trimmed(name).len() > 0 {
            seq![trimmed(name)]
        } else {
            Seq::empty()
        },
        list_of(front.push(',') + name) == list_of(front) + list_of(name),
{
    reveal(Seq::filter);
    let trim = |t: Seq<char>| trimmed(t);
    let keep = |t: Seq<char>| t.len() > 0;
    assert forall|i: int| 0 <= i < name.len() implies #[trigger] name[i] != ',' by {
        assert(name.contains(name[i]));
    }
    lemma_first_of_is(name, ',', name.len());
    assert(split_at_char(name, ',') == seq![name]);
    let one = seq![name].map_values(trim);
    assert(one =~= seq![trimmed(name)]);
    assert(one.drop_last() =~= Seq::<Seq<char>>::empty());
    assert(one.drop_last().filter(keep) =~= Seq::<Seq<char>>::empty());
    assert(one.last() == trimmed(name));
    assert(list_of(name) =~= if trimmed(name).len() > 0 {
        seq![trimmed(name)]
    } else {
        Seq::empty()
    });
    lemma_split_behind(front, ',', name);
    let before = split_at_char(front, ',').map_values(trim);
    let all = split_at_char(front, ',').push(name).map_values(trim);
    assert(all.drop_last() =~= before);
    assert(all.last() == trimmed(name));
    assert(list_of(front.push(',') + name) == all.filter(keep));
    assert(all.filter(keep) =~= list_of(front) + list_of(name));
}

/// A time is a number and a unit: without a unit, or without a number before it, it is
/// refused.
pub proof fn a_time_is_a_number_and_a_unit(tok: Seq<char>, nums: Numerals)
    ensures
        unit_split(lowered(trimmed(tok))) is None ==> seconds(tok, nums) is Err,
        unit_split(lowered(trimmed(tok))) matches Some((num, unit)) ==> (nums.value(
            trimmed(num),
            Some(unit),
        ) matches Some(t) ==> seconds(tok, nums) == Ok::<Double, Seq<char>>(t)),
        unit_split(lowered(trimmed(tok))) matches Some((num, unit)) ==> (nums.value(
            trimmed(num),
            Some(unit),
        ) is None ==> seconds(tok, nums) is Err),
{
}

/// A window is one time, from which it is open, or two, of which the second is not at
/// or before the first.
pub proof fn a_window_is_one_time_or_two(val: Seq<char>, nums: Numerals, f: Double, t: Double)
    ensures
        words(val).len() == 1 && seconds(words(val)[0], nums) == Ok::<Double, Seq<char>>(f)
            ==> window_of(val, nums) == Ok::<(Double, Option<Double>), Seq<char>>((f, None)),
        words(val).len() == 2 && seconds(words(val)[0], nums) == Ok::<Double, Seq<char>>(f) && seconds(
            words(val)[1],
            nums,
        ) == Ok::<Double, Seq<char>>(t) ==> (if t.at_most(f) {
            window_of(val, nums) is Err
        } else {
            window_of(val, nums) == Ok::<(Double, Option<Double>), Seq<char>>((f, Some(t)))
        }),
        words(val).len() != 1 && words(val).len() != 2 ==> window_of(val, nums) is Err,
        window_of(val, nums) is Ok ==> seconds(words(val)[0], nums) is Ok,
        window_of(val, nums) is Ok && words(val).len() == 2 ==> seconds(words(val)[1], nums) is Ok,
{
}

/// A sweep is three times, or four: its start, its end, its window, and its step, which
/// is the window where it is not given. The word `end` in place of the end is that of
/// the dump. Its window and its step are positive, and its end is behind its start.
pub proof fn a_sweep_is_three_times_or_four(val: Seq<char>, nums: Numerals, s: ActivitySweep)
    requires
        sweep_of(val, nums) == Ok::<ActivitySweep, Seq<char>>(s),
    ensures
        ({
            let toks = words(val);
            let zero = Double { bits: ZERO_BITS };
            &&& toks.len() == 3 || toks.len() == 4
            &&& seconds(toks[0], nums) == Ok::<Double, Seq<char>>(s.from_s)
            &&& if same_but_case(toks[1], "end"@) {
                s.to_s is None
            } else {
                s.to_s is Some && seconds(toks[1], nums) == Ok::<Double, Seq<char>>(s.to_s.unwrap())
            }
            &&& seconds(toks[2], nums) == Ok::<Double, Seq<char>>(s.window_s)
            &&& if toks.len() == 4 {
                seconds(toks[3], nums) == Ok::<Double, Seq<char>>(s.step_s)
            } else {
                s.step_s == s.window_s
            }
            &&& !s.window_s.at_most(zero) && !s.step_s.at_most(zero)
            &&& s.to_s is Some ==> !s.to_s.unwrap().at_most(s.from_s)
        }),
{
}

/// A sweep whose times can be read, are positive and run forwards is taken.
pub proof fn a_sweep_that_can_be_measured_is_taken(val: Seq<char>, nums: Numerals)
    requires
        words(val).len() == 3 || words(val).len() == 4,
        seconds(words(val)[0], nums) is Ok,
        same_but_case(words(val)[1], "end"@) || (seconds(words(val)[1], nums) is Ok && !seconds(
            words(val)[1],
            nums,
        )->Ok_0.at_most(seconds(words(val)[0], nums)->Ok_0)),
        seconds(words(val)[2], nums) is Ok,
        !seconds(words(val)[2], nums)->Ok_0.at_most(Double { bits: ZERO_BITS }),
        words(val).len() == 4 ==> seconds(words(val)[3], nums) is Ok && !seconds(
            words(val)[3],
            nums,
        )->Ok_0.at_most(Double { bits: ZERO_BITS }),
    ensures
        sweep_of(val, nums) is Ok,
{
}

// ---- what is accepted ----------------------------------------------------------

/// A job is refused for a line without a colon, and for a clock line that is not two
/// words of which the second is a number, wherever they stand.
pub proof fn a_bad_line_is_refused(text: Seq<char>, base_dir: Seq<char>, nums: Numerals, i: int)
    requires
        0 <= i < split_at_char(text, '\n').len(),
        ({
            let say = line_view(split_at_char(text, '\n')[i]);
            ||| say is Malformed
            ||| say is Entry && say->Entry_0 == "clock"@ && (words(say->Entry_1).len() != 2
                || nums.value(words(say->Entry_1)[1], None) is None)
        }),
    ensures
        parsed(text, base_dir, nums) is Err,
{
    lemma_bad_line(split_at_char(text, '\n'), nums, i);
}

proof fn lemma_bad_line(lines: Seq<Seq<char>>, nums: Numerals, i: int)
    requires
        0 <= i < lines.len(),
        ({
            let say = line_view(lines[i]);
            ||| say is Malformed
            ||| say is Entry && say->Entry_0 == "clock"@ && (words(say->Entry_1).len() != 2
                || nums.value(words(say->Entry_1)[1], None) is None)
        }),
    ensures
        entries_of(lines, nums) is Err,
    decreases lines.len(),
{
    if i < lines.len() - 1 {
        assert(lines.drop_last()[i] == lines[i]);
        lemma_bad_line(lines.drop_last(), nums, i);
    }
}

proof fn lemma_good_lines(lines: Seq<Seq<char>>, nums: Numerals)
    requires
        forall|i: int| 0 <= i < lines.len() ==> is_good_line(#[trigger] lines[i], nums),
    ensures
        entries_of(lines, nums) is Ok,
    decreases lines.len(),
{
    if lines.len() > 0 {
        let front = lines.drop_last();
        assert forall|i: int| 0 <= i < front.len() implies is_good_line(#[trigger] front[i], nums) by {
            assert(front[i] == lines[i]);
        }
        lemma_good_lines(front, nums);
        assert(is_good_line(lines[lines.len() - 1], nums));
    }
}

/// The line is blank, or an entry; if it is one of the clock, it is a port and a
/// number.
pub open spec fn is_good_line(raw: Seq<char>, nums: Numerals) -> bool {
    match line_view(raw) {
        LineView::Blank => true,
        LineView::Malformed(_) => false,
        LineView::Entry(key, val) => key == "clock"@ ==> words(val).len() == 2 && nums.value(
            words(val)[1],
            None,
        ) is Some,
    }
}

/// Lines that are all blank or entries are read to the end, and give the value of each
/// key's last line.
pub proof fn good_lines_are_read(
    lines: Seq<Seq<char>>,
    nums: Numerals,
    key: Seq<char>,
    i: int,
    val: Seq<char>,
)
    requires
        forall|i: int| 0 <= i < lines.len() ==> is_good_line(#[trigger] lines[i], nums),
    ensures
        entries_of(lines, nums) is Ok,
        key != "clock"@ && last_says(lines, key, i, val) ==> entries_of(
            lines,
            nums,
        )->Ok_0.kv.contains_key(key) && entries_of(lines, nums)->Ok_0.kv[key] == val,
        key != "clock"@ && never_says(lines, key) ==> !entries_of(lines, nums)->Ok_0.kv.contains_key(
            key,
        ),
        never_says(lines, "clock"@) <==> entries_of(lines, nums)->Ok_0.clock is None,
{
    lemma_good_lines(lines, nums);
    if last_says(lines, key, i, val) {
        lemma_last_value(lines, nums, key, i, val);
    }
    if never_says(lines, key) {
        lemma_no_value(lines, nums, key);
    }
    if never_says(lines, "clock"@) {
        lemma_no_value(lines, nums, "clock"@);
    } else {
        let k = lemma_last_line_of(lines, "clock"@);
        let v = line_view(lines[k])->Entry_1;
        assert(last_says(lines, "clock"@, k, v));
        lemma_last_value(lines, nums, "clock"@, k, v);
    }
}

proof fn lemma_last_line_of(lines: Seq<Seq<char>>, key: Seq<char>) -> (k: int)
    requires
        !never_says(lines, key),
    ensures
        0 <= k < lines.len(),
        is_line_of(lines[k], key),
        forall|m: int| k < m < lines.len() ==> !is_line_of(#[trigger] lines[m], key),
    decreases lines.len(),
{
    let w = choose|w: int| 0 <= w < lines.len() && is_line_of(#[trigger] lines[w], key);
    let n = lines.len() - 1;
    if is_line_of(lines[n], key) {
        n
    } else {
        let front = lines.drop_last();
        assert(is_line_of(front[w], key));
        let k = lemma_last_line_of(front, key);
        assert forall|m: int| k < m < lines.len() implies !is_line_of(#[trigger] lines[m], key) by {
            if m < n {
                assert(front[m] == lines[m]);
            }
        }
        assert(front[k] == lines[k]);
        k
    }
}

/// How many of the three vectored sources the entries give.
pub open spec fn sources_given(kv: Map<Seq<char>, Seq<char>>) -> int {
    (if gives(kv, "vcd"@) { 1int } else { 0 }) + (if gives(kv, "saif"@) { 1int } else { 0 }) + (
    if gives(kv, "fst"@) { 1int } else { 0 })
}

/// The entries give a value, and it is not empty.
pub open spec fn gives(kv: Map<Seq<char>, Seq<char>>, key: Seq<char>) -> bool {
    kv.contains_key(key) && kv[key].len() > 0
}

/// The value of a key is a number, or there is none.
pub open spec fn is_number_or_missing(
    kv: Map<Seq<char>, Seq<char>>,
    key: Seq<char>,
    nums: Numerals,
) -> bool {
    kv.contains_key(key) ==> nums.value(kv[key], None) is Some
}

/// Entries are accepted just when they give a library, a clock, a design and a netlist,
/// at most one vectored source, a window that can be measured only over a VCD or an
/// FST, a sweep that can be measured only over a VCD and not beside a window, a power
/// curve only with a sweep, and numbers where numbers stand.
pub proof fn what_is_accepted(e: EntriesView, base_dir: Seq<char>, nums: Numerals)
    ensures
        job_of(e, base_dir, nums) is Ok <==> {
            let kv = e.kv;
            let window = gives(kv, "activity_window"@);
            let sweep = gives(kv, "activity_sweep"@);
            &&& kv.contains_key("lib"@) && list_of(kv["lib"@]).len() > 0
            &&& e.clock is Some
            &&& kv.contains_key("design"@) && kv.contains_key("netlist"@)
            &&& sources_given(kv) <= 1
            &&& window ==> window_of(kv["activity_window"@], nums) is Ok && (gives(kv, "vcd"@)
                || gives(kv, "fst"@))
            &&& sweep ==> sweep_of(kv["activity_sweep"@], nums) is Ok && gives(kv, "vcd"@) && !window
            &&& gives(kv, "emit_power_vcd"@) ==> sweep
            &&& is_number_or_missing(kv, "activity"@, nums)
            &&& is_number_or_missing(kv, "default_wire_cap"@, nums)
        },
{
}

/// A text is accepted just when its lines are read and their entries are accepted.
pub proof fn a_text_is_accepted_for_its_entries(text: Seq<char>, base_dir: Seq<char>, nums: Numerals)
    ensures
        parsed(text, base_dir, nums) is Ok <==> entries_of(split_at_char(text, '\n'), nums) is Ok
            && job_of(entries_of(split_at_char(text, '\n'), nums)->Ok_0, base_dir, nums) is Ok,
        entries_of(split_at_char(text, '\n'), nums) is Ok ==> parsed(text, base_dir, nums) == job_of(
            entries_of(split_at_char(text, '\n'), nums)->Ok_0,
            base_dir,
            nums,
        ),
{
}

// ---- status lines --------------------------------------------------------------

/// A status line names the source of a job: a SAIF or FST file by its kind, a VCD file
/// by its path alone, and else that there is none.
pub proof fn a_status_line_names_the_source(j: JobView)
    ensures
        j.saif matches Some(s) ==> source_text(j) == seq!['s', 'a', 'i', 'f', ':'] + s,
        j.saif is None ==> (j.fst matches Some(f) ==> source_text(j) == seq!['f', 's', 't', ':'] + f),
        j.saif is None && j.fst is None ==> (j.vcd matches Some(v) ==> source_text(j) == v),
        j.saif is None && j.fst is None && j.vcd is None ==> source_text(j) == "vectorless"@,
{
    reveal_strlit("saif:");
    reveal_strlit("fst:");
    assert("saif:"@ =~= seq!['s', 'a', 'i', 'f', ':']);
    assert("fst:"@ =~= seq!['f', 's', 't', ':']);
}

/// The description of the activity names the source, and then what of it is measured:
/// nothing more where all of it is.
pub proof fn a_description_names_what_is_measured(j: JobView, fig: ActivityFigures)
    ensures
        j.activity_sweep is None && j.activity_window is None ==> activity_text(j, fig) == source_text(
            j,
        ),
        j.activity_sweep is None ==> (j.activity_window matches Some((_, to)) ==> activity_text(j, fig)
            == source_text(j) + (" ["@ + fig.from_ns@ + "ns,"@ + (if to is Some {
            fig.to_ns@ + "ns"@
        } else {
            "end"@
        }) + ")"@)),
        j.activity_sweep matches Some(s) ==> activity_text(j, fig) == source_text(j) + (" sweep ["@
            + fig.from_ns@ + "ns,"@ + (if s.to_s is Some {
            fig.to_ns@ + "ns"@
        } else {
            "end"@
        }) + ") window "@ + fig.window_ns@ + "ns"@ + step_text(fig)),
{
    if let Some(s) = j.activity_sweep {
        assert(activity_text(j, fig) =~= source_text(j) + (" sweep ["@ + fig.from_ns@ + "ns,"@
            + end_text(s.to_s, fig.to_ns@) + ") window "@ + fig.window_ns@ + "ns"@ + step_text(fig)));
    } else if let Some((_, to)) = j.activity_window {
        assert(activity_text(j, fig) =~= source_text(j) + (" ["@ + fig.from_ns@ + "ns,"@ + end_text(
            to,
            fig.to_ns@,
        ) + ")"@));
    }
}

/// The step of a sweep is told where it differs from the window.
pub proof fn a_step_is_told_where_it_differs(fig: ActivityFigures)
    ensures
        fig.step_less_window_s.absolute().below(Double { bits: 0x3cb0_0000_0000_0000 }) ==> step_text(
            fig,
        ).len() == 0,
        !fig.step_less_window_s.absolute().below(Double { bits: 0x3cb0_0000_0000_0000 }) ==> step_text(
            fig,
        ) == " step "@ + fig.step_ns@ + "ns"@,
{
}

/// An entry asks for its value as a number, for each word of it, and for each word that
/// ends in a unit of time, without that unit.
pub proof fn a_line_asks_for_its_numbers(
    lines: Seq<Seq<char>>,
    i: int,
    key: Seq<char>,
    val: Seq<char>,
    k: int,
)
    requires
        0 <= i < lines.len(),
        line_view(lines[i]) == LineView::Entry(key, val),
    ensures
        lines_ask(lines, val, None),
        0 <= k < words(val).len() ==> lines_ask(lines, words(val)[k], None),
        0 <= k < words(val).len() ==> (unit_split(lowered(trimmed(words(val)[k]))) matches Some((num, u))
            ==> lines_ask(lines, trimmed(num), Some(u))),
{
    assert(line_asks(lines[i], val, None));
    if 0 <= k < words(val).len() {
        assert(words(val).contains(words(val)[k]));
        assert(line_asks(lines[i], words(val)[k], None));
        if let Some((num, u)) = unit_split(lowered(trimmed(words(val)[k]))) {
            assert(time_numeral(words(val)[k]) == Some((trimmed(num), Some(u))));
            assert(line_asks(lines[i], trimmed(num), Some(u)));
        }
    }
}

/// A list of numerals lists each of them, by its text and its unit, and no other.
pub proof fn a_list_lists_its_numerals(list: Seq<Numeral>, text: Seq<char>, unit: Option<TimeUnit>)
    ensures
        lists(list, text, unit) <==> exists|i: int|
            0 <= i < list.len() && (#[trigger] list[i]).text@ == text && list[i].unit == unit,
{
    if lists(list, text, unit) {
        let i = choose|i: int| 0 <= i < list.len() && (#[trigger] list[i]).is(text, unit);
        assert(list[i].text@ == text && list[i].unit == unit);
    }
    if exists|i: int|
        0 <= i < list.len() && (#[trigger] list[i]).text@ == text && list[i].unit == unit {
        let i = choose|i: int|
            0 <= i < list.len() && (#[trigger] list[i]).text@ == text && list[i].unit == unit;
        assert(list[i].is(text, unit));
    }
}

} // verus!
