//! The power model, as far as it decides: which instances count, in which group,
//! with which output net, toggle rate and loads.
//!
//! The power of an instance is its leakage, an energy per transition times the
//! toggle rate of its output net, and half of C V^2 per transition of that net,
//! with C the input capacitances of the sinks and the capacitance of the wire.
//! Multiplying these out is done outside, on the terms that `analyze` lists.

use crate::activity::{Activity, ToggleSource};
use crate::double::{Double, ZERO_BITS};
use crate::name_map::NameMap;
use crate::names::opt_text;
use crate::text::{ascending, insert_ascending, str_eq};
use vstd::hash_set::StringHashSet;
use vstd::prelude::*;
use vstd::set_lib::lemma_len_subset;
use vstd::string::*;

verus! {

// ---- the design and its library ------------------------------------------------

/// The direction of a pin.
#[derive(Clone, Copy, Debug, PartialEq, Eq, Structural)]
pub enum Dir {
    In,
    Out,
    Inout,
    Other,
}

/// A pin of a library cell, with its input capacitance in farads.
#[derive(Debug)]
pub struct Pin {
    pub name: String,
    pub direction: Dir,
    pub cap_f: Double,
}

/// A library cell.
#[derive(Debug)]
pub struct Cell {
    /// The pins, in the order of the library.
    pub pins: Vec<Pin>,
    /// The cell has an `ff` or `latch` group.
    pub is_seq: bool,
    /// The pin that is declared a clock.
    pub clock_pin: Option<String>,
    /// Leakage in watts.
    pub leakage_w: Double,
    /// Internal energy of a transition in joules.
    pub int_energy_j: Double,
}

/// A library: its cells by name.
pub struct Lib {
    pub cells: NameMap<Cell>,
}

/// The connection of a pin to a net.
#[derive(Debug)]
pub struct Conn {
    pub pin: String,
    pub net: String,
}

/// An instance of a cell.
#[derive(Debug)]
pub struct Inst {
    pub name: String,
    pub cell: String,
    pub conns: Vec<Conn>,
}

/// A gate-level netlist.
#[derive(Debug)]
pub struct Netlist {
    pub module: String,
    pub insts: Vec<Inst>,
    pub inputs: Vec<String>,
    pub outputs: Vec<String>,
}

/// Extracted parasitics: the capacitance of nets in femtofarads.
pub struct Spef {
    pub nets: NameMap<Double>,
}

impl Lib {
    /// The cell of a name.
    pub open spec fn cell_of(self, name: Seq<char>) -> Option<Cell> {
        if self.cells@.contains_key(name) {
            Some(self.cells@[name])
        } else {
            None
        }
    }

    /// Looks a cell up.
    pub fn cell(&self, name: &str) -> (r: Option<&Cell>)
        ensures
            match r {
                Some(c) => self.cell_of(name@) == Some(*c),
                None => self.cell_of(name@) is None,
            },
    {
        self.cells.get(name)
    }
}

impl Pin {
    /// The pin takes a signal in.
    pub open spec fn is_input(self) -> bool {
        self.direction == Dir::In || self.direction == Dir::Inout
    }

    /// Does the pin take a signal in?
    pub fn takes_in(&self) -> (r: bool)
        ensures
            r == self.is_input(),
    {
        self.direction == Dir::In || self.direction == Dir::Inout
    }
}

/// How many of the first `n` pins are inputs.
pub open spec fn inputs_among(pins: Seq<Pin>, n: int) -> nat
    decreases n,
{
    if n <= 0 {
        0
    } else if pins[n - 1].is_input() {
        inputs_among(pins, n - 1) + 1
    } else {
        inputs_among(pins, n - 1)
    }
}

impl Cell {
    /// The cell declares what tells a register from a gate: an `ff` or `latch`
    /// group, or a clock pin.
    pub open spec fn declares_clocking(self) -> bool {
        self.is_seq || self.clock_pin is Some
    }

    /// The cell has an input of this name.
    pub open spec fn has_input(self, name: Seq<char>) -> bool {
        exists|i: int|
            0 <= i < self.pins@.len() && (#[trigger] self.pins@[i]).is_input() && self.pins@[i].name@
                == name
    }

    /// The cell has an output of this name.
    pub open spec fn has_output(self, name: Seq<char>) -> bool {
        exists|i: int|
            0 <= i < self.pins@.len() && (#[trigger] self.pins@[i]).direction == Dir::Out
                && self.pins@[i].name@ == name
    }

    /// How many inputs the cell has.
    pub open spec fn input_count(self) -> nat {
        inputs_among(self.pins@, self.pins@.len() as int)
    }

    fn input_named(&self, name: &str) -> (r: bool)
        ensures
            r == self.has_input(name@),
    {
        let n: usize = self.pins.len();
        let mut i: usize = 0;
        while i < n
            invariant
                n == self.pins@.len(),
                i <= n,
                forall|k: int|
                    0 <= k < i ==> !((#[trigger] self.pins@[k]).is_input() && self.pins@[k].name@
                        == name@),
            decreases n - i,
        {
            if self.pins[i].takes_in() && str_eq(self.pins[i].name.as_str(), name) {
                return true;
            }
            i += 1;
        }
        false
    }

    fn output_named(&self, name: &str) -> (r: bool)
        ensures
            r == self.has_output(name@),
    {
        let n: usize = self.pins.len();
        let mut i: usize = 0;
        while i < n
            invariant
                n == self.pins@.len(),
                i <= n,
                forall|k: int|
                    0 <= k < i ==> !((#[trigger] self.pins@[k]).direction == Dir::Out
                        && self.pins@[k].name@ == name@),
            decreases n - i,
        {
            if self.pins[i].direction == Dir::Out && str_eq(self.pins[i].name.as_str(), name) {
                return true;
            }
            i += 1;
        }
        false
    }

    fn count_inputs(&self) -> (r: usize)
        ensures
            r == self.input_count(),
    {
        let n: usize = self.pins.len();
        let mut i: usize = 0;
        let mut k: usize = 0;
        while i < n
            invariant
                n == self.pins@.len(),
                i <= n,
                k <= i,
                k == inputs_among(self.pins@, i as int),
            decreases n - i,
        {
            if self.pins[i].takes_in() {
                k += 1;
            }
            i += 1;
        }
        k
    }
}

// ---- the clock network ---------------------------------------------------------

/// The library says which cell of the design is a register.
pub open spec fn declares_sequential(nl: Netlist, lib: Lib) -> bool {
    exists|i: int|
        0 <= i < nl.insts@.len() && (lib.cell_of((#[trigger] nl.insts@[i]).cell@) matches Some(c)
            && c.declares_clocking())
}

/// Does the library say enough to tell a flop from a buffer?
///
/// A library that declares no sequential cell and no clock pin cannot be asked
/// which cells end the clock network.
pub fn library_declares_sequential(nl: &Netlist, lib: &Lib) -> (r: bool)
    ensures
        r == declares_sequential(*nl, *lib),
{
    let n: usize = nl.insts.len();
    let mut i: usize = 0;
    while i < n
        invariant
            n == nl.insts@.len(),
            i <= n,
            forall|k: int|
                0 <= k < i ==> !(lib.cell_of((#[trigger] nl.insts@[k]).cell@) matches Some(c)
                    && c.declares_clocking()),
        decreases n - i,
    {
        if let Some(c) = lib.cell(nl.insts[i].cell.as_str()) {
            if c.is_seq || c.clock_pin.is_some() {
                return true;
            }
        }
        i += 1;
    }
    false
}

/// The cell may repeat a clock: it is no register, and where the library does not
/// say which cells are, it has the one input of a buffer or inverter.
pub open spec fn may_repeat(cell: Cell, trust_lib: bool) -> bool {
    !cell.is_seq && (trust_lib || cell.input_count() == 1)
}

/// The clock on net `from` enters the instance: at an input that is not declared
/// a clock, where it would be consumed.
pub open spec fn enters(inst: Inst, cell: Cell, from: Seq<char>) -> bool {
    exists|c: int| #[trigger] enters_at(inst, cell, from, c)
}

/// The clock on net `from` enters the instance at its connection `c`.
pub open spec fn enters_at(inst: Inst, cell: Cell, from: Seq<char>, c: int) -> bool {
    0 <= c < inst.conns@.len() && inst.conns@[c].net@ == from && cell.has_input(
        inst.conns@[c].pin@,
    ) && opt_text(cell.clock_pin) != Some(inst.conns@[c].pin@)
}

/// The instance drives net `to` from an output at its connection `c`.
pub open spec fn leaves_at(inst: Inst, cell: Cell, to: Seq<char>, c: int) -> bool {
    0 <= c < inst.conns@.len() && inst.conns@[c].net@ == to && cell.has_output(
        inst.conns@[c].pin@,
    )
}

/// The instance drives net `to` from an output.
pub open spec fn leaves(inst: Inst, cell: Cell, to: Seq<char>) -> bool {
    exists|c: int| #[trigger] leaves_at(inst, cell, to, c)
}

/// Instance `i` carries a clock from net `from` to net `to`.
pub open spec fn carries(
    nl: Netlist,
    lib: Lib,
    trust_lib: bool,
    i: int,
    from: Seq<char>,
    to: Seq<char>,
) -> bool {
    0 <= i < nl.insts@.len() && (lib.cell_of(nl.insts@[i].cell@) matches Some(cell) && may_repeat(
        cell,
        trust_lib,
    ) && enters(nl.insts@[i], cell, from) && leaves(nl.insts@[i], cell, to))
}

/// Whatever carries a clock from a net of the set carries it to one of the set.
pub open spec fn keeps_clocks(nl: Netlist, lib: Lib, trust_lib: bool, nets: Set<Seq<char>>) -> bool {
    forall|i: int, from: Seq<char>, to: Seq<char>|
        nets.contains(from) && #[trigger] carries(nl, lib, trust_lib, i, from, to)
            ==> nets.contains(to)
}

/// The clock network: the least set of nets that holds the root and that no clock
/// leaves.
pub open spec fn clock_nets(nl: Netlist, lib: Lib, root: Seq<char>, trust_lib: bool) -> Set<
    Seq<char>,
> {
    Set::new(
        |net: Seq<char>|
            forall|s: Set<Seq<char>>|
                s.contains(root) && #[trigger] keeps_clocks(nl, lib, trust_lib, s) ==> s.contains(
                    net,
                ),
    )
}

/// The nets of the connections of the first `n` instances.
spec fn conn_nets(nl: Netlist, n: int) -> Set<Seq<char>>
    decreases n,
{
    if n <= 0 {
        Set::empty()
    } else {
        conn_nets(nl, n - 1).union(inst_nets(nl.insts@[n - 1]))
    }
}

spec fn inst_nets(inst: Inst) -> Set<Seq<char>> {
    Seq::new(inst.conns@.len(), |c: int| inst.conns@[c].net@).to_set()
}

proof fn lemma_conn_nets(nl: Netlist, n: int)
    requires
        n <= nl.insts@.len(),
    ensures
        conn_nets(nl, n).finite(),
        forall|i: int, c: int|
            0 <= i < n && 0 <= c < nl.insts@[i].conns@.len() ==> conn_nets(nl, n).contains(
                (#[trigger] nl.insts@[i].conns@[c]).net@,
            ),
    decreases n,
{
    if n > 0 {
        lemma_conn_nets(nl, n - 1);
        let inst = nl.insts@[n - 1];
        let s = Seq::new(inst.conns@.len(), |c: int| inst.conns@[c].net@);
        vstd::seq_lib::seq_to_set_is_finite(s);
        assert forall|i: int, c: int| 0 <= i < n && 0 <= c < nl.insts@[i].conns@.len() implies conn_nets(
            nl,
            n,
        ).contains((#[trigger] nl.insts@[i].conns@[c]).net@) by {
            if i == n - 1 {
                assert(s[c] == inst.conns@[c].net@);
                assert(s.to_set().contains(s[c]));
            }
        }
    }
}

/// Does a clock of one of the nets enter the instance?
fn clock_enters(inst: &Inst, cell: &Cell, nets: &StringHashSet) -> (r: bool)
    ensures
        r <==> exists|from: Seq<char>| nets@.contains(from) && #[trigger] enters(*inst, *cell, from),
{
    let n: usize = inst.conns.len();
    let mut c: usize = 0;
    while c < n
        invariant
            n == inst.conns@.len(),
            c <= n,
            forall|k: int, from: Seq<char>|
                0 <= k < c && nets@.contains(from) ==> !#[trigger] enters_at(*inst, *cell, from, k),
        decreases n - c,
    {
        let pin = inst.conns[c].pin.as_str();
        let is_clock_pin = match &cell.clock_pin {
            Some(p) => str_eq(p.as_str(), pin),
            None => false,
        };
        if nets.contains(inst.conns[c].net.as_str()) && cell.input_named(pin) && !is_clock_pin {
            proof {
                let from = inst.conns@[c as int].net@;
                assert(enters_at(*inst, *cell, from, c as int));
                assert(enters(*inst, *cell, from));
            }
            return true;
        }
        c += 1;
    }
    false
}

/// The nets stay in the clock network, and only grow.
spec fn grown(
    nl: Netlist,
    lib: Lib,
    root: Seq<char>,
    trust_lib: bool,
    before: Set<Seq<char>>,
    after: Set<Seq<char>>,
) -> bool {
    &&& before.subset_of(after)
    &&& after.subset_of(clock_nets(nl, lib, root, trust_lib))
    &&& after.subset_of(conn_nets(nl, nl.insts@.len() as int).insert(root))
}

/// Adds the nets that the instance drives, and says whether one is new.
fn add_outputs(
    nl: &Netlist,
    lib: &Lib,
    root: &str,
    trust_lib: bool,
    i: usize,
    nets: &mut StringHashSet,
) -> (r: bool)
    requires
        i < nl.insts@.len(),
        grown(*nl, *lib, root@, trust_lib, old(nets)@, old(nets)@),
    ensures
        grown(*nl, *lib, root@, trust_lib, old(nets)@, final(nets)@),
        !r ==> final(nets)@ == old(nets)@,
        r ==> exists|x: Seq<char>| final(nets)@.contains(x) && !old(nets)@.contains(x),
        forall|from: Seq<char>, to: Seq<char>|
            old(nets)@.contains(from) && #[trigger] carries(
                *nl,
                *lib,
                trust_lib,
                i as int,
                from,
                to,
            ) ==> final(nets)@.contains(to),
{
    let ghost before = nets@;
    let inst = &nl.insts[i];
    let cell = match lib.cell(inst.cell.as_str()) {
        Some(c) => c,
        None => {
            return false;
        },
    };
    if cell.is_seq || (!trust_lib && cell.count_inputs() != 1) {
        return false;
    }
    if !clock_enters(inst, cell, nets) {
        return false;
    }
    let ghost from = choose|from: Seq<char>|
        before.contains(from) && #[trigger] enters(*inst, *cell, from);
    let n: usize = inst.conns.len();
    let mut added: bool = false;
    let mut c: usize = 0;
    proof {
        lemma_conn_nets(*nl, nl.insts@.len() as int);
    }
    while c < n
        invariant
            i < nl.insts@.len(),
            *inst == nl.insts@[i as int],
            lib.cell_of(inst.cell@) == Some(*cell),
            may_repeat(*cell, trust_lib),
            before.contains(from),
            enters(*inst, *cell, from),
            n == inst.conns@.len(),
            c <= n,
            forall|k: int, j: int|
                0 <= k < nl.insts@.len() && 0 <= j < nl.insts@[k].conns@.len() ==> conn_nets(
                    *nl,
                    nl.insts@.len() as int,
                ).contains((#[trigger] nl.insts@[k].conns@[j]).net@),
            grown(*nl, *lib, root@, trust_lib, before, nets@),
            !added ==> nets@ == before,
            added ==> exists|x: Seq<char>| nets@.contains(x) && !before.contains(x),
            forall|k: int, to: Seq<char>|
                0 <= k < c && #[trigger] leaves_at(*inst, *cell, to, k) ==> nets@.contains(to),
        decreases n - c,
    {
        let net = inst.conns[c].net.as_str();
        if cell.output_named(inst.conns[c].pin.as_str()) {
            proof {
                assert(nl.insts@[i as int].conns@[c as int].net@ == net@);
                assert(leaves_at(*inst, *cell, net@, c as int));
                assert(carries(*nl, *lib, trust_lib, i as int, from, net@));
                assert forall|s: Set<Seq<char>>|
                    s.contains(root@) && #[trigger] keeps_clocks(
                        *nl,
                        *lib,
                        trust_lib,
                        s,
                    ) implies s.contains(net@) by {
                    assert(clock_nets(*nl, *lib, root@, trust_lib).contains(from));
                    assert(s.contains(from));
                }
                assert(clock_nets(*nl, *lib, root@, trust_lib).contains(net@));
            }
            if !nets.contains(net) {
                nets.insert(net.to_owned());
                added = true;
                assert(!before.contains(net@));
                assert(nets@.contains(net@));
            }
        }
        c += 1;
    }
    added
}

/// The nets of the clock network: the clock port, and what combinational cells
/// drive from one of them.
///
/// A clock ends at sequential cells and at declared clock pins, so a divided clock
/// and what lies below it count as data, and so does the output of a latch-based
/// clock gate: clock power is reported too low on such a design rather than too
/// high on every one. Where the library does not tell flops from buffers, a clock
/// passes single-input cells only.
pub fn clock_network(nl: &Netlist, lib: &Lib, root: &str, trust_lib: bool) -> (r: StringHashSet)
    ensures
        r@ == clock_nets(*nl, *lib, root@, trust_lib),
{
    let n: usize = nl.insts.len();
    let ghost all = conn_nets(*nl, n as int).insert(root@);
    let mut nets = StringHashSet::new();
    nets.insert(root.to_owned());
    proof {
        lemma_conn_nets(*nl, n as int);
        assert(nets@ =~= set![root@]);
        assert(grown(*nl, *lib, root@, trust_lib, nets@, nets@));
    }
    loop
        invariant
            n == nl.insts@.len(),
            all == conn_nets(*nl, n as int).insert(root@),
            all.finite(),
            nets@.contains(root@),
            grown(*nl, *lib, root@, trust_lib, nets@, nets@),
        decreases all.len() - nets@.len(),
    {
        let ghost before = nets@;
        let mut added: bool = false;
        let mut i: usize = 0;
        while i < n
            invariant
                n == nl.insts@.len(),
                i <= n,
                grown(*nl, *lib, root@, trust_lib, before, nets@),
                !added ==> nets@ == before,
                added ==> exists|x: Seq<char>| nets@.contains(x) && !before.contains(x),
                !added ==> forall|k: int, from: Seq<char>, to: Seq<char>|
                    0 <= k < i && before.contains(from) && #[trigger] carries(
                        *nl,
                        *lib,
                        trust_lib,
                        k,
                        from,
                        to,
                    ) ==> before.contains(to),
            decreases n - i,
        {
            let ghost now = nets@;
            if add_outputs(nl, lib, root, trust_lib, i, &mut nets) {
                proof {
                    let x = choose|x: Seq<char>| nets@.contains(x) && !now.contains(x);
                    assert(nets@.contains(x) && !before.contains(x));
                }
                added = true;
            } else if added {
                assert(nets@ == now);
            }
            i += 1;
        }
        if !added {
            proof {
                assert(keeps_clocks(*nl, *lib, trust_lib, nets@));
                assert(nets@ =~= clock_nets(*nl, *lib, root@, trust_lib));
            }
            return nets;
        }
        proof {
            let x = choose|x: Seq<char>| nets@.contains(x) && !before.contains(x);
            lemma_len_subset(nets@, all);
            lemma_len_subset(before, nets@);
            assert(before.insert(x).subset_of(nets@));
            lemma_len_subset(before.insert(x), nets@);
        }
    }
}

// ---- the groups ----------------------------------------------------------------

/// Where the power of an instance belongs in the three-way split of a report.
#[derive(Clone, Copy, Debug, PartialEq, Eq, PartialOrd, Ord, Structural)]
pub enum Group {
    /// In the clock network: the cell drives a net that the clock port reaches
    /// through combinational logic.
    Clock,
    /// Has an `ff` or `latch` group.
    Sequential,
    /// Everything else.
    Combinational,
}

impl Group {
    /// The name of the group.
    pub open spec fn label_text(self) -> Seq<char> {
        match self {
            Group::Clock => "clock"@,
            Group::Sequential => "sequential"@,
            Group::Combinational => "combinational"@,
        }
    }

    /// The name of the group.
    pub fn label(&self) -> (r: &'static str)
        ensures
            r@ == self.label_text(),
    {
        match self {
            Group::Clock => "clock",
            Group::Sequential => "sequential",
            Group::Combinational => "combinational",
        }
    }

    /// The groups in the order of a report.
    pub const ALL: [Group; 3] = [Group::Sequential, Group::Combinational, Group::Clock];
}

// ---- the terms of an instance --------------------------------------------------

/// What to analyze the design against.
#[derive(Clone, Copy)]
pub struct AnalyzeOpts<'a> {
    /// Supply voltage.
    pub vdd: Double,
    /// Wire capacitance in farads of a net that the parasitics do not cover.
    pub wire_cap_f: Double,
    /// Extracted parasitics.
    pub spef: Option<&'a Spef>,
    /// The clock port of the design. Without one no cell is in the clock group.
    pub clock_port: Option<&'a str>,
}

impl<'a> Default for AnalyzeOpts<'a> {
    /// No supply, no wire capacitance, no parasitics and no clock port.
    fn default() -> (r: AnalyzeOpts<'a>)
        ensures
            r.vdd == (Double { bits: ZERO_BITS }),
            r.wire_cap_f == (Double { bits: ZERO_BITS }),
            r.spef is None,
            r.clock_port is None,
    {
        AnalyzeOpts {
            vdd: Double { bits: ZERO_BITS },
            wire_cap_f: Double { bits: ZERO_BITS },
            spef: None,
            clock_port: None,
        }
    }
}

/// The capacitance of the wire of a net.
#[derive(Clone, Copy, Debug, PartialEq, Eq, Structural)]
pub enum Wire {
    /// Extracted, in femtofarads.
    Extracted(Double),
    /// The flat stand-in, in farads.
    Flat(Double),
}

/// The terms that the power of an instance is made of.
#[verifier::ext_equal]
pub struct InstTermsView {
    pub inst: Seq<char>,
    pub cell: Seq<char>,
    /// The net on the first output of the cell, if there is one.
    pub out_net: Seq<char>,
    /// Transitions per second of the output net.
    pub toggle_rate: Double,
    pub group: Group,
    pub leakage_w: Double,
    pub int_energy_j: Double,
    /// The input capacitances of the sinks of the output net, in the order in which
    /// they add up.
    pub sink_caps_f: Seq<Double>,
    pub wire: Wire,
}

/// An `InstTermsView`, in executable form.
#[derive(Debug)]
pub struct InstTerms {
    pub inst: String,
    pub cell: String,
    pub out_net: String,
    pub toggle_rate: Double,
    pub group: Group,
    pub leakage_w: Double,
    pub int_energy_j: Double,
    pub sink_caps_f: Vec<Double>,
    pub wire: Wire,
}

impl View for InstTerms {
    type V = InstTermsView;

    open spec fn view(&self) -> InstTermsView {
        InstTermsView {
            inst: self.inst@,
            cell: self.cell@,
            out_net: self.out_net@,
            toggle_rate: self.toggle_rate,
            group: self.group,
            leakage_w: self.leakage_w,
            int_energy_j: self.int_energy_j,
            sink_caps_f: self.sink_caps_f@,
            wire: self.wire,
        }
    }
}

/// The views of the terms, in order.
pub open spec fn terms_views(v: Seq<InstTerms>) -> Seq<InstTermsView> {
    v.map_values(|t: InstTerms| t@)
}

/// The name of the first output among the pins from place `i` on.
pub open spec fn first_output(pins: Seq<Pin>, i: nat) -> Option<Seq<char>>
    decreases pins.len() - i,
{
    if i >= pins.len() {
        None
    } else if pins[i as int].direction == Dir::Out {
        Some(pins[i as int].name@)
    } else {
        first_output(pins, i + 1)
    }
}

/// The net of the first connection of a pin, from place `i` on.
pub open spec fn first_net(conns: Seq<Conn>, i: nat, pin: Seq<char>) -> Option<Seq<char>>
    decreases conns.len() - i,
{
    if i >= conns.len() {
        None
    } else if conns[i as int].pin@ == pin {
        Some(conns[i as int].net@)
    } else {
        first_net(conns, i + 1, pin)
    }
}

/// The first pin of a name, from place `i` on.
pub open spec fn first_pin(pins: Seq<Pin>, i: nat, name: Seq<char>) -> Option<Pin>
    decreases pins.len() - i,
{
    if i >= pins.len() {
        None
    } else if pins[i as int].name@ == name {
        Some(pins[i as int])
    } else {
        first_pin(pins, i + 1, name)
    }
}

/// The output net of an instance: the net on the first output of its cell. Empty
/// where there is none.
pub open spec fn output_net(inst: Inst, cell: Cell) -> Seq<char> {
    match first_output(cell.pins@, 0) {
        Some(pin) => match first_net(inst.conns@, 0, pin) {
            Some(net) => net,
            None => Seq::empty(),
        },
        None => Seq::empty(),
    }
}

/// What connection `c` of an instance adds to the load of a net: the capacitance
/// of its pin, if that is an input on this net.
pub open spec fn conn_cap(inst: Inst, cell: Cell, c: int, net: Seq<char>) -> Seq<Double> {
    match first_pin(cell.pins@, 0, inst.conns@[c].pin@) {
        Some(p) => if p.is_input() && inst.conns@[c].net@ == net {
            seq![p.cap_f]
        } else {
            Seq::empty()
        },
        None => Seq::empty(),
    }
}

/// The capacitances that the first `n` connections of an instance add to a net.
pub open spec fn inst_caps(inst: Inst, cell: Cell, n: int, net: Seq<char>) -> Seq<Double>
    decreases n,
{
    if n <= 0 {
        Seq::empty()
    } else {
        inst_caps(inst, cell, n - 1, net) + conn_cap(inst, cell, n - 1, net)
    }
}

/// The capacitances that the first `n` instances add to a net.
pub open spec fn sink_caps(nl: Netlist, lib: Lib, n: int, net: Seq<char>) -> Seq<Double>
    decreases n,
{
    if n <= 0 {
        Seq::empty()
    } else {
        sink_caps(nl, lib, n - 1, net) + match lib.cell_of(nl.insts@[n - 1].cell@) {
            Some(cell) => inst_caps(
                nl.insts@[n - 1],
                cell,
                nl.insts@[n - 1].conns@.len() as int,
                net,
            ),
            None => Seq::empty(),
        }
    }
}

/// The clock network of an analysis: none without a clock port.
pub open spec fn clock_nets_of(nl: Netlist, lib: Lib, port: Option<&str>) -> Set<Seq<char>> {
    match port {
        Some(c) => clock_nets(nl, lib, c@, declares_sequential(nl, lib)),
        None => Set::empty(),
    }
}

/// The group of an instance. A flop that the clock tree clocks is a register and
/// not part of the tree.
pub open spec fn group_of(cell: Cell, out_net: Seq<char>, clocks: Set<Seq<char>>) -> Group {
    if cell.is_seq {
        Group::Sequential
    } else if out_net.len() > 0 && clocks.contains(out_net) {
        Group::Clock
    } else {
        Group::Combinational
    }
}

/// The wire of a net: what the parasitics give, or the flat stand-in.
pub open spec fn wire_of(spef: Option<&Spef>, wire_cap_f: Double, net: Seq<char>) -> Wire {
    match spef {
        Some(s) => if s.nets@.contains_key(net) {
            Wire::Extracted(s.nets@[net])
        } else {
            Wire::Flat(wire_cap_f)
        },
        None => Wire::Flat(wire_cap_f),
    }
}

/// The terms of an instance whose cell the library has.
pub open spec fn inst_terms<S: ToggleSource>(
    nl: Netlist,
    lib: Lib,
    act: Activity<S>,
    opts: AnalyzeOpts,
    inst: Inst,
    cell: Cell,
) -> InstTermsView {
    let out = output_net(inst, cell);
    InstTermsView {
        inst: inst.name@,
        cell: inst.cell@,
        out_net: out,
        toggle_rate: if out.len() == 0 {
            Double { bits: ZERO_BITS }
        } else {
            act.rate_for(out)
        },
        group: group_of(cell, out, clock_nets_of(nl, lib, opts.clock_port)),
        leakage_w: cell.leakage_w,
        int_energy_j: cell.int_energy_j,
        sink_caps_f: sink_caps(nl, lib, nl.insts@.len() as int, out),
        wire: wire_of(opts.spef, opts.wire_cap_f, out),
    }
}

/// The terms of those of the first `n` instances whose cell the library has.
pub open spec fn terms_of<S: ToggleSource>(
    nl: Netlist,
    lib: Lib,
    act: Activity<S>,
    opts: AnalyzeOpts,
    n: int,
) -> Seq<InstTermsView>
    decreases n,
{
    if n <= 0 {
        Seq::empty()
    } else {
        match lib.cell_of(nl.insts@[n - 1].cell@) {
            Some(cell) => terms_of(nl, lib, act, opts, n - 1).push(
                inst_terms(nl, lib, act, opts, nl.insts@[n - 1], cell),
            ),
            None => terms_of(nl, lib, act, opts, n - 1),
        }
    }
}

/// An instance among the first `n` has this cell, and the library does not.
pub open spec fn is_unmatched(nl: Netlist, lib: Lib, n: int, cell: Seq<char>) -> bool {
    lib.cell_of(cell) is None && exists|i: int|
        0 <= i < n && (#[trigger] nl.insts@[i]).cell@ == cell
}

/// How many of the terms have an extracted wire.
pub open spec fn extracted(terms: Seq<InstTermsView>) -> nat
    decreases terms.len(),
{
    if terms.len() == 0 {
        0
    } else if terms.last().wire is Extracted {
        extracted(terms.drop_last()) + 1
    } else {
        extracted(terms.drop_last())
    }
}

/// What an analysis of a design finds.
#[derive(Debug)]
pub struct PowerTerms {
    pub design: String,
    pub vdd: Double,
    pub mode: String,
    pub insts: Vec<InstTerms>,
    /// Cells of the design that the library does not have, in order, each once: no
    /// power is counted for them.
    pub unmatched: Vec<String>,
    /// Extracted parasitics were given.
    pub spef: bool,
    /// How many instances have an output net with an extracted capacitance.
    pub spef_nets: usize,
    /// The library names no sequential cell and no clock pin of the design, so the
    /// groups follow the shape of the cells.
    pub clock_grouping_approximate: bool,
}

fn first_output_name(cell: &Cell) -> (r: Option<&String>)
    ensures
        match r {
            Some(s) => first_output(cell.pins@, 0) == Some(s@),
            None => first_output(cell.pins@, 0) is None,
        },
{
    let n: usize = cell.pins.len();
    let mut i: usize = 0;
    while i < n
        invariant
            n == cell.pins@.len(),
            i <= n,
            first_output(cell.pins@, i as nat) == first_output(cell.pins@, 0),
        decreases n - i,
    {
        if cell.pins[i].direction == Dir::Out {
            return Some(&cell.pins[i].name);
        }
        i += 1;
    }
    None
}

fn find_output_net(inst: &Inst, cell: &Cell) -> (r: String)
    ensures
        r@ == output_net(*inst, *cell),
{
    let pin = match first_output_name(cell) {
        Some(p) => p,
        None => {
            let r = String::new();
            assert(r@ =~= Seq::<char>::empty());
            return r;
        },
    };
    let n: usize = inst.conns.len();
    let mut i: usize = 0;
    while i < n
        invariant
            n == inst.conns@.len(),
            i <= n,
            first_output(cell.pins@, 0) == Some(pin@),
            first_net(inst.conns@, i as nat, pin@) == first_net(inst.conns@, 0, pin@),
        decreases n - i,
    {
        if str_eq(inst.conns[i].pin.as_str(), pin.as_str()) {
            return inst.conns[i].net.clone();
        }
        i += 1;
    }
    let r = String::new();
    assert(r@ =~= Seq::<char>::empty());
    r
}

fn find_pin<'a>(cell: &'a Cell, name: &str) -> (r: Option<&'a Pin>)
    ensures
        match r {
            Some(p) => first_pin(cell.pins@, 0, name@) == Some(*p),
            None => first_pin(cell.pins@, 0, name@) is None,
        },
{
    let n: usize = cell.pins.len();
    let mut i: usize = 0;
    while i < n
        invariant
            n == cell.pins@.len(),
            i <= n,
            first_pin(cell.pins@, i as nat, name@) == first_pin(cell.pins@, 0, name@),
        decreases n - i,
    {
        if str_eq(cell.pins[i].name.as_str(), name) {
            return Some(&cell.pins[i]);
        }
        i += 1;
    }
    None
}

/// The loads of the nets, each a list of capacitances.
struct Loads {
    places: NameMap<usize>,
    caps: Vec<Vec<Double>>,
}

impl Loads {
    /// The capacitances of a net.
    spec fn of(self, net: Seq<char>) -> Seq<Double> {
        if self.places@.contains_key(net) {
            self.caps@[self.places@[net] as int]@
        } else {
            Seq::empty()
        }
    }

    /// Each net that has a place has one of its own.
    spec fn placed(self) -> bool {
        &&& forall|a: Seq<char>| #[trigger]
            self.places@.contains_key(a) ==> self.places@[a] < self.caps@.len()
        &&& forall|a: Seq<char>, b: Seq<char>|
            #![trigger self.places@.contains_key(a), self.places@.contains_key(b)]
            self.places@.contains_key(a) && self.places@.contains_key(b) && self.places@[a]
                == self.places@[b] ==> a == b
    }

    /// Adds a capacitance to a net.
    fn push(&mut self, net: &str, cap: Double)
        requires
            old(self).placed(),
        ensures
            final(self).placed(),
            forall|x: Seq<char>|
                #[trigger] final(self).of(x) == if x == net@ {
                    old(self).of(x).push(cap)
                } else {
                    old(self).of(x)
                },
    {
        let ghost was = *self;
        let place: Option<usize> = match self.places.get(net) {
            Some(p) => Some(*p),
            None => None,
        };
        match place {
            Some(p) => {
                self.caps[p].push(cap);
            },
            None => {
                let mut v: Vec<Double> = Vec::new();
                v.push(cap);
                self.places.insert(net.to_owned(), self.caps.len());
                self.caps.push(v);
                assert(v@ =~= Seq::<Double>::empty().push(cap));
            },
        }
        proof {
            assert forall|x: Seq<char>|
                #[trigger] self.of(x) == if x == net@ {
                    was.of(x).push(cap)
                } else {
                    was.of(x)
                } by {
                if was.places@.contains_key(x) && was.places@.contains_key(net@) && x != net@ {
                    assert(was.places@[x] != was.places@[net@]);
                }
            }
        }
    }

    /// Gives the capacitances of a net.
    fn get(&self, net: &str) -> (r: Vec<Double>)
        requires
            self.placed(),
        ensures
            r@ == self.of(net@),
    {
        match self.places.get(net) {
            Some(p) => {
                let r = self.caps[*p].clone();
                assert(r@ =~= self.caps@[*p as int]@);
                r
            },
            None => Vec::new(),
        }
    }
}

/// Collects the loads of all nets.
fn collect_loads(nl: &Netlist, lib: &Lib) -> (r: Loads)
    ensures
        r.placed(),
        forall|net: Seq<char>| #[trigger] r.of(net) == sink_caps(
            *nl,
            *lib,
            nl.insts@.len() as int,
            net,
        ),
{
    let n: usize = nl.insts.len();
    let mut loads = Loads { places: NameMap::new(), caps: Vec::new() };
    let mut i: usize = 0;
    while i < n
        invariant
            n == nl.insts@.len(),
            i <= n,
            loads.placed(),
            forall|net: Seq<char>| #[trigger]
                loads.of(net) == sink_caps(*nl, *lib, i as int, net),
        decreases n - i,
    {
        let inst = &nl.insts[i];
        if let Some(cell) = lib.cell(inst.cell.as_str()) {
            let ghost before = loads;
            let m: usize = inst.conns.len();
            let mut c: usize = 0;
            proof {
                assert forall|net: Seq<char>| #[trigger] loads.of(net) == before.of(net) + inst_caps(
                    *inst,
                    *cell,
                    0,
                    net,
                ) by {
                    assert(before.of(net) + Seq::<Double>::empty() =~= before.of(net));
                }
            }
            while c < m
                invariant
                    m == inst.conns@.len(),
                    c <= m,
                    loads.placed(),
                    forall|net: Seq<char>| #[trigger]
                        loads.of(net) == before.of(net) + inst_caps(*inst, *cell, c as int, net),
                decreases m - c,
            {
                let ghost now = loads;
                let conn = &inst.conns[c];
                if let Some(p) = find_pin(cell, conn.pin.as_str()) {
                    if p.takes_in() {
                        loads.push(conn.net.as_str(), p.cap_f);
                    }
                }
                proof {
                    assert forall|net: Seq<char>| #[trigger] loads.of(net) == before.of(net)
                        + inst_caps(*inst, *cell, c + 1, net) by {
                        assert(now.of(net) == before.of(net) + inst_caps(
                            *inst,
                            *cell,
                            c as int,
                            net,
                        ));
                        assert(before.of(net) + inst_caps(*inst, *cell, c + 1, net) =~= now.of(net)
                            + conn_cap(*inst, *cell, c as int, net));
                        assert(now.of(net) + conn_cap(*inst, *cell, c as int, net) =~= loads.of(net));
                    }
                }
                c += 1;
            }
            proof {
                assert forall|net: Seq<char>| #[trigger] loads.of(net) == sink_caps(
                    *nl,
                    *lib,
                    i + 1,
                    net,
                ) by {
                    assert(before.of(net) == sink_caps(*nl, *lib, i as int, net));
                }
            }
        } else {
            proof {
                assert forall|net: Seq<char>| #[trigger] loads.of(net) == sink_caps(
                    *nl,
                    *lib,
                    i + 1,
                    net,
                ) by {
                    assert(loads.of(net) + Seq::<Double>::empty() =~= loads.of(net));
                }
            }
        }
        i += 1;
    }
    loads
}

/// Analyzes a netlist against a library with an activity source. Where extracted
/// parasitics cover an output net they give its wire, and else the flat stand-in
/// does.
pub fn analyze<S: ToggleSource>(
    nl: &Netlist,
    lib: &Lib,
    act: &Activity<S>,
    opts: &AnalyzeOpts,
) -> (r: PowerTerms)
    ensures
        r.design@ == nl.module@,
        r.vdd == opts.vdd,
        r.mode@ == act.mode_text(),
        terms_views(r.insts@) == terms_of(*nl, *lib, *act, *opts, nl.insts@.len() as int),
        ascending(r.unmatched.deep_view()),
        forall|cell: Seq<char>|
            r.unmatched.deep_view().contains(cell) <==> is_unmatched(
                *nl,
                *lib,
                nl.insts@.len() as int,
                cell,
            ),
        r.spef == opts.spef is Some,
        r.spef_nets == extracted(terms_views(r.insts@)),
        r.clock_grouping_approximate == (opts.clock_port is Some && !declares_sequential(*nl, *lib)),
{
    let trust_lib = library_declares_sequential(nl, lib);
    let clocks: StringHashSet = match opts.clock_port {
        Some(c) => clock_network(nl, lib, c, trust_lib),
        None => StringHashSet::new(),
    };
    let loads = collect_loads(nl, lib);
    let n: usize = nl.insts.len();
    let mut insts: Vec<InstTerms> = Vec::new();
    let mut unmatched: Vec<String> = Vec::new();
    let mut spef_nets: usize = 0;
    let mut i: usize = 0;
    assert(terms_views(insts@) =~= Seq::empty());
    while i < n
        invariant
            n == nl.insts@.len(),
            i <= n,
            trust_lib == declares_sequential(*nl, *lib),
            clocks@ == clock_nets_of(*nl, *lib, opts.clock_port),
            loads.placed(),
            forall|net: Seq<char>| #[trigger] loads.of(net) == sink_caps(*nl, *lib, n as int, net),
            terms_views(insts@) == terms_of(*nl, *lib, *act, *opts, i as int),
            ascending(unmatched.deep_view()),
            forall|cell: Seq<char>|
                unmatched.deep_view().contains(cell) <==> is_unmatched(*nl, *lib, i as int, cell),
            spef_nets <= i,
            spef_nets == extracted(terms_views(insts@)),
        decreases n - i,
    {
        let inst = &nl.insts[i];
        let ghost before = terms_views(insts@);
        match lib.cell(inst.cell.as_str()) {
            None => {
                let ghost was = unmatched.deep_view();
                insert_ascending(&mut unmatched, inst.cell.as_str());
                proof {
                    assert forall|cell: Seq<char>|
                        unmatched.deep_view().contains(cell) <==> is_unmatched(
                            *nl,
                            *lib,
                            i + 1,
                            cell,
                        ) by {
                        lemma_unmatched_step(*nl, *lib, i as int, cell);
                    }
                }
            },
            Some(cell) => {
                let out_net = find_output_net(inst, cell);
                let toggle_rate: Double = if out_net.as_str().is_empty() {
                    Double { bits: ZERO_BITS }
                } else {
                    act.rate(out_net.as_str())
                };
                let found: Option<Double> = match opts.spef {
                    Some(s) => match s.nets.get(out_net.as_str()) {
                        Some(cap) => Some(*cap),
                        None => None,
                    },
                    None => None,
                };
                let wire = match found {
                    Some(cap) => {
                        spef_nets += 1;
                        Wire::Extracted(cap)
                    },
                    None => Wire::Flat(opts.wire_cap_f),
                };
                let group = if cell.is_seq {
                    Group::Sequential
                } else if !out_net.as_str().is_empty() && clocks.contains(out_net.as_str()) {
                    Group::Clock
                } else {
                    Group::Combinational
                };
                let terms = InstTerms {
                    inst: inst.name.clone(),
                    cell: inst.cell.clone(),
                    toggle_rate,
                    group,
                    leakage_w: cell.leakage_w,
                    int_energy_j: cell.int_energy_j,
                    sink_caps_f: loads.get(out_net.as_str()),
                    wire,
                    out_net,
                };
                let ghost v = terms@;
                insts.push(terms);
                proof {
                    assert(v == inst_terms(*nl, *lib, *act, *opts, *inst, *cell));
                    assert(terms_views(insts@) =~= before.push(v));
                    assert(before.push(v).drop_last() =~= before);
                    assert forall|cell: Seq<char>|
                        unmatched.deep_view().contains(cell) <==> is_unmatched(
                            *nl,
                            *lib,
                            i + 1,
                            cell,
                        ) by {
                        lemma_unmatched_step(*nl, *lib, i as int, cell);
                    }
                }
            },
        }
        i += 1;
    }
    PowerTerms {
        design: nl.module.clone(),
        vdd: opts.vdd,
        mode: act.mode().to_owned(),
        insts,
        unmatched,
        spef: opts.spef.is_some(),
        spef_nets,
        clock_grouping_approximate: opts.clock_port.is_some() && !trust_lib,
    }
}

proof fn lemma_unmatched_step(nl: Netlist, lib: Lib, n: int, cell: Seq<char>)
    requires
        0 <= n < nl.insts@.len(),
    ensures
        is_unmatched(nl, lib, n + 1, cell) <==> is_unmatched(nl, lib, n, cell) || (lib.cell_of(cell)
            is None && nl.insts@[n].cell@ == cell),
{
    if is_unmatched(nl, lib, n + 1, cell) && nl.insts@[n].cell@ != cell {
        let i = choose|i: int| 0 <= i < n + 1 && (#[trigger] nl.insts@[i]).cell@ == cell;
        assert(i < n);
    }
    if is_unmatched(nl, lib, n, cell) {
        let i = choose|i: int| 0 <= i < n && (#[trigger] nl.insts@[i]).cell@ == cell;
        assert(nl.insts@[i].cell@ == cell);
    }
    if lib.cell_of(cell) is None && nl.insts@[n].cell@ == cell {
        assert(nl.insts@[n].cell@ == cell);
    }
}

// ---- the report ----------------------------------------------------------------

/// The power of an instance in watts, its average current in amperes, and what it
/// comes from.
#[derive(Clone, Debug)]
pub struct InstPower {
    pub inst: String,
    pub cell: String,
    pub out_net: String,
    /// Transitions per second of the output net.
    pub toggle_rate: Double,
    pub group: Group,
    pub leakage_w: Double,
    pub internal_w: Double,
    pub switch_w: Double,
    pub avg_current_a: Double,
}

/// What the terms of an instance multiply out to.
#[derive(Clone, Copy, Debug)]
pub struct Watts {
    pub internal_w: Double,
    pub switch_w: Double,
    pub avg_current_a: Double,
}

/// The sums over the instances of a report.
#[derive(Clone, Copy, Debug)]
pub struct Totals {
    pub leakage_w: Double,
    pub internal_w: Double,
    pub switch_w: Double,
}

/// The power of a design.
#[derive(Clone, Debug)]
pub struct PowerReport {
    pub design: String,
    pub vdd: Double,
    pub mode: String,
    pub insts: Vec<InstPower>,
    pub unmatched: Vec<String>,
    pub leakage_w: Double,
    pub internal_w: Double,
    pub switch_w: Double,
    pub spef: bool,
    pub spef_nets: usize,
    pub clock_grouping_approximate: bool,
}

/// The instances of one group: how many there are, and their powers in watts, in
/// the order in which they add up.
#[derive(Clone, Debug)]
pub struct GroupPower {
    pub instances: usize,
    pub leakage_w: Vec<Double>,
    pub internal_w: Vec<Double>,
    pub switch_w: Vec<Double>,
}

/// The instance reports the terms, multiplied out to `w`.
pub open spec fn reports(p: InstPower, t: InstTermsView, w: Watts) -> bool {
    &&& p.inst@ == t.inst
    &&& p.cell@ == t.cell
    &&& p.out_net@ == t.out_net
    &&& p.toggle_rate == t.toggle_rate
    &&& p.group == t.group
    &&& p.leakage_w == t.leakage_w
    &&& p.internal_w == w.internal_w
    &&& p.switch_w == w.switch_w
    &&& p.avg_current_a == w.avg_current_a
}

/// Those of the first `n` instances that are in the group, in order.
pub open spec fn members(insts: Seq<InstPower>, g: Group, n: int) -> Seq<InstPower>
    decreases n,
{
    if n <= 0 {
        Seq::empty()
    } else if insts[n - 1].group == g {
        members(insts, g, n - 1).push(insts[n - 1])
    } else {
        members(insts, g, n - 1)
    }
}

/// The numbers of an activity map, as they are written: the supply with four
/// decimals, and for each instance its average current and toggle rate with six
/// decimals and an exponent.
#[derive(Debug)]
pub struct MapFigures {
    pub vdd: String,
    pub rows: Vec<MapRow>,
}

/// The numbers of an instance in an activity map.
#[derive(Debug)]
pub struct MapRow {
    pub avg_current_a: String,
    pub toggle_rate: String,
}

/// The lines of the first `n` instances of an activity map.
pub open spec fn map_lines(insts: Seq<InstPower>, rows: Seq<MapRow>, n: int) -> Seq<char>
    decreases n,
{
    if n <= 0 {
        Seq::empty()
    } else {
        map_lines(insts, rows, n - 1) + insts[n - 1].inst@ + "  "@ + rows[n - 1].avg_current_a@
            + "  "@ + rows[n - 1].toggle_rate@ + "\n"@
    }
}

/// The text of an activity map that was measured over `window`.
pub open spec fn map_text(rep: PowerReport, window: Seq<char>, fig: MapFigures) -> Seq<char> {
    "# vyges-power activity map for vyges-em-ir\n"@ + "# design "@ + rep.design@ + "  vdd "@
        + fig.vdd@ + " V  mode "@ + rep.mode@ + "\n"@ + "# measured over "@ + window + "\n"@
        + "# columns: instance  avg_current_a  toggle_rate_hz\n"@ + map_lines(
        rep.insts@,
        fig.rows@,
        rep.insts@.len() as int,
    )
}

impl PowerReport {
    /// Makes the report of an analysis whose terms are multiplied out.
    pub fn assemble(terms: PowerTerms, watts: &Vec<Watts>, totals: Totals) -> (r: PowerReport)
        requires
            watts@.len() == terms.insts@.len(),
        ensures
            r.design == terms.design,
            r.vdd == terms.vdd,
            r.mode == terms.mode,
            r.insts@.len() == terms.insts@.len(),
            forall|i: int|
                0 <= i < r.insts@.len() ==> reports(
                    #[trigger] r.insts@[i],
                    terms.insts@[i]@,
                    watts@[i],
                ),
            forall|i: int|
                0 <= i < r.insts@.len() ==> {
                    let (p, t, w) = (#[trigger] r.insts@[i], terms.insts@[i], watts@[i]);
                    &&& p.inst@ == t.inst@ && p.cell@ == t.cell@ && p.out_net@ == t.out_net@
                    &&& p.toggle_rate == t.toggle_rate && p.group == t.group
                    &&& p.leakage_w == t.leakage_w && p.internal_w == w.internal_w
                    &&& p.switch_w == w.switch_w && p.avg_current_a == w.avg_current_a
                },
            r.unmatched == terms.unmatched,
            r.leakage_w == totals.leakage_w,
            r.internal_w == totals.internal_w,
            r.switch_w == totals.switch_w,
            r.spef == terms.spef,
            r.spef_nets == terms.spef_nets,
            r.clock_grouping_approximate == terms.clock_grouping_approximate,
    {
        let n: usize = terms.insts.len();
        let mut insts: Vec<InstPower> = Vec::new();
        let mut i: usize = 0;
        while i < n
            invariant
                n == terms.insts@.len(),
                n == watts@.len(),
                i <= n,
                insts@.len() == i,
                forall|k: int|
                    0 <= k < i ==> reports(#[trigger] insts@[k], terms.insts@[k]@, watts@[k]),
            decreases n - i,
        {
            let t = &terms.insts[i];
            let w: Watts = watts[i];
            insts.push(
                InstPower {
                    inst: t.inst.clone(),
                    cell: t.cell.clone(),
                    out_net: t.out_net.clone(),
                    toggle_rate: t.toggle_rate,
                    group: t.group,
                    leakage_w: t.leakage_w,
                    internal_w: w.internal_w,
                    switch_w: w.switch_w,
                    avg_current_a: w.avg_current_a,
                },
            );
            i += 1;
        }
        PowerReport {
            design: terms.design,
            vdd: terms.vdd,
            mode: terms.mode,
            insts,
            unmatched: terms.unmatched,
            leakage_w: totals.leakage_w,
            internal_w: totals.internal_w,
            switch_w: totals.switch_w,
            spef: terms.spef,
            spef_nets: terms.spef_nets,
            clock_grouping_approximate: terms.clock_grouping_approximate,
        }
    }

    /// The instances of one group.
    pub fn group(&self, g: Group) -> (r: GroupPower)
        ensures
            r.instances == members(self.insts@, g, self.insts@.len() as int).len(),
            r.leakage_w@ == members(self.insts@, g, self.insts@.len() as int).map_values(
                |p: InstPower| p.leakage_w,
            ),
            r.internal_w@ == members(self.insts@, g, self.insts@.len() as int).map_values(
                |p: InstPower| p.internal_w,
            ),
            r.switch_w@ == members(self.insts@, g, self.insts@.len() as int).map_values(
                |p: InstPower| p.switch_w,
            ),
    {
        let n: usize = self.insts.len();
        let mut r = GroupPower {
            instances: 0,
            leakage_w: Vec::new(),
            internal_w: Vec::new(),
            switch_w: Vec::new(),
        };
        let mut i: usize = 0;
        while i < n
            invariant
                n == self.insts@.len(),
                i <= n,
                r.instances <= i,
                r.instances == members(self.insts@, g, i as int).len(),
                r.leakage_w@ =~= members(self.insts@, g, i as int).map_values(
                    |p: InstPower| p.leakage_w,
                ),
                r.internal_w@ =~= members(self.insts@, g, i as int).map_values(
                    |p: InstPower| p.internal_w,
                ),
                r.switch_w@ =~= members(self.insts@, g, i as int).map_values(
                    |p: InstPower| p.switch_w,
                ),
            decreases n - i,
        {
            let p = &self.insts[i];
            if p.group == g {
                r.instances += 1;
                r.leakage_w.push(p.leakage_w);
                r.internal_w.push(p.internal_w);
                r.switch_w.push(p.switch_w);
            }
            i += 1;
        }
        r
    }

    /// The average current and toggle rate of each instance, one per line, measured
    /// over the whole activity source.
    pub fn activity_map(&self, fig: &MapFigures) -> (r: String)
        requires
            fig.rows@.len() == self.insts@.len(),
        ensures
            r@ == map_text(*self, "the whole activity source"@, *fig),
    {
        self.activity_map_labelled(None, fig)
    }

    /// `activity_map`, with a line that names what it was measured over. The busiest
    /// window and the average of a run are different claims, and the file says which
    /// one it makes.
    pub fn activity_map_labelled(&self, window: Option<&str>, fig: &MapFigures) -> (r: String)
        requires
            fig.rows@.len() == self.insts@.len(),
        ensures
            r@ == map_text(
                *self,
                match window {
                    Some(w) => w@,
                    None => "the whole activity source"@,
                },
                *fig,
            ),
    {
        let mut s = "# vyges-power activity map for vyges-em-ir\n".to_owned();
        s.append("# design ");
        s.append(self.design.as_str());
        s.append("  vdd ");
        s.append(fig.vdd.as_str());
        s.append(" V  mode ");
        s.append(self.mode.as_str());
        s.append("\n");
        s.append("# measured over ");
        s.append(
            match window {
                Some(w) => w,
                None => "the whole activity source",
            },
        );
        s.append("\n");
        s.append("# columns: instance  avg_current_a  toggle_rate_hz\n");
        let ghost head = s@;
        let n: usize = self.insts.len();
        let mut i: usize = 0;
        assert(head + Seq::<char>::empty() =~= head);
        while i < n
            invariant
                n == self.insts@.len(),
                n == fig.rows@.len(),
                i <= n,
                s@ == head + map_lines(self.insts@, fig.rows@, i as int),
            decreases n - i,
        {
            s.append(self.insts[i].inst.as_str());
            s.append("  ");
            s.append(fig.rows[i].avg_current_a.as_str());
            s.append("  ");
            s.append(fig.rows[i].toggle_rate.as_str());
            s.append("\n");
            assert(s@ =~= head + map_lines(self.insts@, fig.rows@, i + 1));
            i += 1;
        }
        s
    }
}

// ---- laws ----------------------------------------------------------------------

/// An activity map names every instance, with its numbers, on a line of its own.
pub proof fn the_map_names_every_instance(
    insts: Seq<InstPower>,
    rows: Seq<MapRow>,
    n: int,
    i: int,
)
    requires
        0 <= i < n <= insts.len(),
    ensures
        exists|front: Seq<char>, back: Seq<char>|
            map_lines(insts, rows, n) == #[trigger] (front + (insts[i].inst@ + "  "@
                + rows[i].avg_current_a@ + "  "@ + rows[i].toggle_rate@ + "\n"@) + back),
    decreases n,
{
    let line = insts[i].inst@ + "  "@ + rows[i].avg_current_a@ + "  "@ + rows[i].toggle_rate@
        + "\n"@;
    if i == n - 1 {
        let front = map_lines(insts, rows, n - 1);
        assert(map_lines(insts, rows, n) =~= front + line + Seq::<char>::empty());
    } else {
        the_map_names_every_instance(insts, rows, n - 1, i);
        let (front, back) = choose|front: Seq<char>, back: Seq<char>|
            map_lines(insts, rows, n - 1) == #[trigger] (front + line + back);
        let more = insts[n - 1].inst@ + "  "@ + rows[n - 1].avg_current_a@ + "  "@ + rows[n
            - 1].toggle_rate@ + "\n"@;
        assert(map_lines(insts, rows, n) =~= front + line + (back + more));
    }
}

/// The clock network holds the clock port and keeps every clock.
pub proof fn the_clock_network_is_closed(nl: Netlist, lib: Lib, root: Seq<char>, trust_lib: bool)
    ensures
        clock_nets(nl, lib, root, trust_lib).contains(root),
        keeps_clocks(nl, lib, trust_lib, clock_nets(nl, lib, root, trust_lib)),
{
    let nets = clock_nets(nl, lib, root, trust_lib);
    assert forall|i: int, from: Seq<char>, to: Seq<char>|
        nets.contains(from) && #[trigger] carries(nl, lib, trust_lib, i, from, to) implies nets.contains(
        to,
    ) by {
        assert forall|s: Set<Seq<char>>|
            s.contains(root) && #[trigger] keeps_clocks(nl, lib, trust_lib, s) implies s.contains(
            to,
        ) by {
            assert(s.contains(from));
        }
    }
}

/// A net of the clock network is the clock port, or a cell that is no register
/// drives it from another net of the network.
pub proof fn a_clock_net_is_driven_from_one(
    nl: Netlist,
    lib: Lib,
    root: Seq<char>,
    trust_lib: bool,
    net: Seq<char>,
)
    requires
        clock_nets(nl, lib, root, trust_lib).contains(net),
    ensures
        net == root || exists|i: int, from: Seq<char>|
            clock_nets(nl, lib, root, trust_lib).contains(from) && #[trigger] carries(
                nl,
                lib,
                trust_lib,
                i,
                from,
                net,
            ),
{
    let nets = clock_nets(nl, lib, root, trust_lib);
    the_clock_network_is_closed(nl, lib, root, trust_lib);
    let s = Set::new(
        |x: Seq<char>|
            x == root || exists|i: int, from: Seq<char>|
                nets.contains(from) && #[trigger] carries(nl, lib, trust_lib, i, from, x),
    );
    assert forall|i: int, from: Seq<char>, to: Seq<char>|
        s.contains(from) && #[trigger] carries(nl, lib, trust_lib, i, from, to) implies s.contains(
        to,
    ) by {
        assert(nets.contains(from));
    }
    assert(keeps_clocks(nl, lib, trust_lib, s));
    assert(s.contains(root));
}

/// What only registers drive is data: a clock does not run through them, so a
/// divided clock and what lies below it are not in the clock network.
pub proof fn what_registers_drive_is_data(
    nl: Netlist,
    lib: Lib,
    root: Seq<char>,
    trust_lib: bool,
    net: Seq<char>,
)
    requires
        net != root,
        forall|i: int, cell: Cell|
            0 <= i < nl.insts@.len() && lib.cell_of(nl.insts@[i].cell@) == Some(cell)
                && #[trigger] leaves(nl.insts@[i], cell, net) ==> cell.is_seq,
    ensures
        !clock_nets(nl, lib, root, trust_lib).contains(net),
{
    if clock_nets(nl, lib, root, trust_lib).contains(net) {
        a_clock_net_is_driven_from_one(nl, lib, root, trust_lib, net);
        let (i, from) = choose|i: int, from: Seq<char>|
            clock_nets(nl, lib, root, trust_lib).contains(from) && #[trigger] carries(
                nl,
                lib,
                trust_lib,
                i,
                from,
                net,
            );
        let cell = lib.cell_of(nl.insts@[i].cell@).unwrap();
        assert(leaves(nl.insts@[i], cell, net));
    }
}

/// The clock port decides the groups and nothing else: whatever it is, an instance
/// has the same net, rate, energies and loads.
pub proof fn the_clock_port_decides_groups_alone<S: ToggleSource>(
    nl: Netlist,
    lib: Lib,
    act: Activity<S>,
    a: AnalyzeOpts,
    b: AnalyzeOpts,
    inst: Inst,
    cell: Cell,
)
    requires
        a.spef == b.spef,
        a.wire_cap_f == b.wire_cap_f,
    ensures
        (InstTermsView {
            group: Group::Clock,
            ..inst_terms(nl, lib, act, a, inst, cell)
        }) == (InstTermsView { group: Group::Clock, ..inst_terms(nl, lib, act, b, inst, cell) }),
{
}

/// Where the parasitics cover the output net of an instance, the flat stand-in does
/// not count.
pub proof fn an_extracted_wire_replaces_the_stand_in<S: ToggleSource>(
    nl: Netlist,
    lib: Lib,
    act: Activity<S>,
    opts: AnalyzeOpts,
    other_cap_f: Double,
    inst: Inst,
    cell: Cell,
)
    requires
        opts.spef matches Some(s) && s.nets@.contains_key(output_net(inst, cell)),
    ensures
        inst_terms(nl, lib, act, opts, inst, cell) == inst_terms(
            nl,
            lib,
            act,
            (AnalyzeOpts { wire_cap_f: other_cap_f, ..opts }),
            inst,
            cell,
        ),
        inst_terms(nl, lib, act, opts, inst, cell).wire == Wire::Extracted(
            opts.spef.unwrap().nets@[output_net(inst, cell)],
        ),
{
}

/// A register is in the sequential group, whatever net it drives, and nothing else
/// is.
pub proof fn registers_and_only_they_are_sequential(
    cell: Cell,
    out_net: Seq<char>,
    clocks: Set<Seq<char>>,
)
    ensures
        group_of(cell, out_net, clocks) == Group::Sequential <==> cell.is_seq,
{
}

/// Without a clock port nothing is in the clock group.
pub proof fn without_a_port_there_is_no_clock_group<S: ToggleSource>(
    nl: Netlist,
    lib: Lib,
    act: Activity<S>,
    opts: AnalyzeOpts,
    inst: Inst,
    cell: Cell,
)
    requires
        opts.clock_port is None,
    ensures
        inst_terms(nl, lib, act, opts, inst, cell).group != Group::Clock,
{
}

/// The groups split the design: each instance is in the group that it says, and
/// the three together have all instances.
pub proof fn the_groups_split_the_design(insts: Seq<InstPower>, n: int)
    requires
        0 <= n <= insts.len(),
    ensures
        members(insts, Group::Sequential, n).len() + members(insts, Group::Combinational, n).len()
            + members(insts, Group::Clock, n).len() == n,
        forall|g: Group, i: int|
            0 <= i < n ==> ((#[trigger] insts[i]).group == g <==> #[trigger] members(
                insts,
                g,
                n,
            ).contains(insts[i])),
    decreases n,
{
    if n > 0 {
        the_groups_split_the_design(insts, n - 1);
        assert forall|g: Group, i: int| 0 <= i < n implies ((#[trigger] insts[i]).group == g
            <==> #[trigger] members(insts, g, n).contains(insts[i])) by {
            lemma_members(insts, g, n);
            let m = members(insts, g, n - 1);
            if i == n - 1 && insts[i].group == g {
                assert(m.push(insts[i])[m.len() as int] == insts[i]);
            }
            if i < n - 1 && insts[i].group == g {
                assert(m.contains(insts[i]));
                let k = m.index_of(insts[i]);
                if insts[n - 1].group == g {
                    assert(m.push(insts[n - 1])[k] == insts[i]);
                }
            }
        }
    }
}

proof fn lemma_members(insts: Seq<InstPower>, g: Group, n: int)
    ensures
        forall|k: int|
            0 <= k < members(insts, g, n).len() ==> (#[trigger] members(insts, g, n)[k]).group == g,
    decreases n,
{
    if n > 0 {
        lemma_members(insts, g, n - 1);
    }
}

/// Every instance has its power counted, or its cell is reported as unmatched.
pub proof fn every_instance_is_counted_or_reported<S: ToggleSource>(
    nl: Netlist,
    lib: Lib,
    act: Activity<S>,
    opts: AnalyzeOpts,
    n: int,
    i: int,
)
    requires
        0 <= i < n <= nl.insts@.len(),
    ensures
        is_unmatched(nl, lib, n, nl.insts@[i].cell@) || exists|k: int|
            0 <= k < terms_of(nl, lib, act, opts, n).len() && (#[trigger] terms_of(
                nl,
                lib,
                act,
                opts,
                n,
            )[k]).inst == nl.insts@[i].name@,
    decreases n,
{
    let t = terms_of(nl, lib, act, opts, n);
    let before = terms_of(nl, lib, act, opts, n - 1);
    if i < n - 1 {
        every_instance_is_counted_or_reported(nl, lib, act, opts, n - 1, i);
        if is_unmatched(nl, lib, n - 1, nl.insts@[i].cell@) {
            assert(nl.insts@[i].cell@ == nl.insts@[i].cell@);
        } else {
            let k = choose|k: int|
                0 <= k < before.len() && (#[trigger] before[k]).inst == nl.insts@[i].name@;
            assert(t[k] == before[k]);
        }
    } else if lib.cell_of(nl.insts@[i].cell@) is Some {
        assert(t[t.len() - 1].inst == nl.insts@[i].name@);
    }
}

} // verus!
