//! What an analysis promises: of the terms of each instance, of the loads of the
//! nets, and of the clock network.

use crate::activity::{Activity, ToggleSource};
use crate::double::{Double, ZERO_BITS};
use crate::power::{
    clock_nets, declares_sequential, enters, enters_at, extracted, first_net, first_output, first_pin,
    inst_caps, inst_terms, inputs_among, is_unmatched, keeps_clocks, leaves, leaves_at, map_lines,
    map_text, members, output_net, reports, sink_caps, terms_of, AnalyzeOpts, Cell, Conn, Dir, Group, Inst, InstPower,
    InstTermsView, Lib, MapFigures, Netlist, Pin, PowerReport, Watts, Wire,
};
use crate::power::{a_clock_net_is_driven_from_one, carries, the_clock_network_is_closed};
use vstd::prelude::*;

verus! {

// ---- which instances count -----------------------------------------------------

/// The instances whose cell the library has, in the order of the netlist.
pub open spec fn known(nl: Netlist, lib: Lib) -> Seq<Inst> {
    nl.insts@.filter(|x: Inst| lib.cells@.contains_key(x.cell@))
}

proof fn lemma_terms<S: ToggleSource>(
    nl: Netlist,
    lib: Lib,
    act: Activity<S>,
    opts: AnalyzeOpts,
    n: int,
)
    requires
        0 <= n <= nl.insts@.len(),
    ensures
        ({
            let here = nl.insts@.take(n).filter(|x: Inst| lib.cells@.contains_key(x.cell@));
            let terms = terms_of(nl, lib, act, opts, n);
            &&& terms.len() == here.len()
            &&& forall|k: int|
                0 <= k < here.len() ==> lib.cells@.contains_key(here[k].cell@) && #[trigger] terms[k]
                    == inst_terms(nl, lib, act, opts, here[k], lib.cells@[here[k].cell@])
        }),
    decreases n,
{
    reveal(Seq::filter);
    if n > 0 {
        lemma_terms(nl, lib, act, opts, n - 1);
        assert(nl.insts@.take(n).drop_last() =~= nl.insts@.take(n - 1));
        assert(nl.insts@.take(n).last() == nl.insts@[n - 1]);
    }
}

/// The terms of an analysis are those of the instances whose cell the library has,
/// each once and in order, with the leakage and the energy of the cell.
pub proof fn each_known_instance_has_its_terms<S: ToggleSource>(
    nl: Netlist,
    lib: Lib,
    act: Activity<S>,
    opts: AnalyzeOpts,
)
    ensures
        ({
            let terms = terms_of(nl, lib, act, opts, nl.insts@.len() as int);
            let insts = known(nl, lib);
            &&& terms.len() == insts.len()
            &&& forall|k: int|
                0 <= k < insts.len() ==> {
                    let cell = lib.cells@[insts[k].cell@];
                    &&& (#[trigger] terms[k]).inst == insts[k].name@
                    &&& terms[k].cell == insts[k].cell@
                    &&& terms[k].leakage_w == cell.leakage_w
                    &&& terms[k].int_energy_j == cell.int_energy_j
                }
        }),
{
    lemma_terms(nl, lib, act, opts, nl.insts@.len() as int);
    assert(nl.insts@.take(nl.insts@.len() as int) =~= nl.insts@);
}

/// A cell is reported as unmatched just when an instance has it and the library
/// does not.
pub proof fn an_unmatched_cell_is_one_the_library_lacks(nl: Netlist, lib: Lib, cell: Seq<char>)
    ensures
        is_unmatched(nl, lib, nl.insts@.len() as int, cell) <==> !lib.cells@.contains_key(cell)
            && exists|i: int| 0 <= i < nl.insts@.len() && (#[trigger] nl.insts@[i]).cell@ == cell,
{
}

// ---- the terms of an instance --------------------------------------------------

/// Where the parasitics cover the output net they give its wire, and everywhere
/// else the flat stand-in does: where they lack the net, and where none were given.
pub proof fn every_net_has_a_wire<S: ToggleSource>(
    nl: Netlist,
    lib: Lib,
    act: Activity<S>,
    opts: AnalyzeOpts,
)
    ensures
        forall|k: int|
            0 <= k < terms_of(nl, lib, act, opts, nl.insts@.len() as int).len() ==> {
                let t = #[trigger] terms_of(nl, lib, act, opts, nl.insts@.len() as int)[k];
                &&& opts.spef is None ==> t.wire == Wire::Flat(opts.wire_cap_f)
                &&& opts.spef is Some && !opts.spef.unwrap().nets@.contains_key(t.out_net)
                    ==> t.wire == Wire::Flat(opts.wire_cap_f)
                &&& opts.spef is Some && opts.spef.unwrap().nets@.contains_key(t.out_net)
                    ==> t.wire == Wire::Extracted(opts.spef.unwrap().nets@[t.out_net])
            },
{
    lemma_terms(nl, lib, act, opts, nl.insts@.len() as int);
}

/// The rate of an instance is that of its output net: the measured one where it is
/// more than zero, and else the estimate. Without an output net there is none.
pub proof fn every_instance_has_the_rate_of_its_net<S: ToggleSource>(
    nl: Netlist,
    lib: Lib,
    act: Activity<S>,
    opts: AnalyzeOpts,
)
    ensures
        forall|k: int|
            0 <= k < terms_of(nl, lib, act, opts, nl.insts@.len() as int).len() ==> {
                let t = #[trigger] terms_of(nl, lib, act, opts, nl.insts@.len() as int)[k];
                let zero = Double { bits: ZERO_BITS };
                if t.out_net.len() == 0 {
                    t.toggle_rate == zero
                } else {
                    match act {
                        Activity::Vectorless { rate } => t.toggle_rate == rate,
                        Activity::Vectored { src, fallback_rate, .. } => t.toggle_rate == if zero.below(
                            src.rate_of(t.out_net),
                        ) {
                            src.rate_of(t.out_net)
                        } else {
                            fallback_rate
                        },
                    }
                }
            },
{
    lemma_terms(nl, lib, act, opts, nl.insts@.len() as int);
}

/// A register is in the sequential group. Anything else is in the clock group just
/// when it drives a net of the clock network of the port.
pub proof fn every_instance_is_in_its_group<S: ToggleSource>(
    nl: Netlist,
    lib: Lib,
    act: Activity<S>,
    opts: AnalyzeOpts,
)
    ensures
        forall|k: int|
            0 <= k < terms_of(nl, lib, act, opts, nl.insts@.len() as int).len() ==> {
                let t = #[trigger] terms_of(nl, lib, act, opts, nl.insts@.len() as int)[k];
                let cell = lib.cells@[t.cell];
                let clocked = match opts.clock_port {
                    Some(port) => t.out_net.len() > 0 && clock_nets(
                        nl,
                        lib,
                        port@,
                        declares_sequential(nl, lib),
                    ).contains(t.out_net),
                    None => false,
                };
                &&& t.group == Group::Sequential <==> cell.is_seq
                &&& t.group == Group::Clock <==> !cell.is_seq && clocked
                &&& t.group == Group::Combinational <==> !cell.is_seq && !clocked
            },
{
    lemma_terms(nl, lib, act, opts, nl.insts@.len() as int);
}

proof fn lemma_first_output(pins: Seq<Pin>, i: nat, p: int)
    requires
        i <= p < pins.len(),
        pins[p].direction == Dir::Out,
        forall|q: int| i <= q < p ==> (#[trigger] pins[q]).direction != Dir::Out,
    ensures
        first_output(pins, i) == Some(pins[p].name@),
    decreases p - i,
{
    if i < p {
        lemma_first_output(pins, i + 1, p);
    }
}

proof fn lemma_no_output(pins: Seq<Pin>, i: nat)
    requires
        forall|q: int| i <= q < pins.len() ==> (#[trigger] pins[q]).direction != Dir::Out,
    ensures
        first_output(pins, i) is None,
    decreases pins.len() - i,
{
    if i < pins.len() {
        lemma_no_output(pins, i + 1);
    }
}

proof fn lemma_first_net(conns: Seq<Conn>, i: nat, pin: Seq<char>, c: int)
    requires
        i <= c < conns.len(),
        conns[c].pin@ == pin,
        forall|d: int| i <= d < c ==> (#[trigger] conns[d]).pin@ != pin,
    ensures
        first_net(conns, i, pin) == Some(conns[c].net@),
    decreases c - i,
{
    if i < c {
        lemma_first_net(conns, i + 1, pin, c);
    }
}

proof fn lemma_no_net(conns: Seq<Conn>, i: nat, pin: Seq<char>)
    requires
        forall|d: int| i <= d < conns.len() ==> (#[trigger] conns[d]).pin@ != pin,
    ensures
        first_net(conns, i, pin) is None,
    decreases conns.len() - i,
{
    if i < conns.len() {
        lemma_no_net(conns, i + 1, pin);
    }
}

/// The output net of an instance is the net on the first of the outputs of its cell.
pub proof fn the_output_net_is_on_the_first_output(inst: Inst, cell: Cell, p: int, c: int)
    requires
        0 <= p < cell.pins@.len(),
        cell.pins@[p].direction == Dir::Out,
        forall|q: int| 0 <= q < p ==> (#[trigger] cell.pins@[q]).direction != Dir::Out,
        0 <= c < inst.conns@.len(),
        inst.conns@[c].pin@ == cell.pins@[p].name@,
        forall|d: int|
            0 <= d < c ==> (#[trigger] inst.conns@[d]).pin@ != cell.pins@[p].name@,
    ensures
        output_net(inst, cell) == inst.conns@[c].net@,
{
    lemma_first_output(cell.pins@, 0, p);
    lemma_first_net(inst.conns@, 0, cell.pins@[p].name@, c);
}

/// A cell without an output, or an instance that leaves its first output open, has
/// no output net.
pub proof fn without_an_output_there_is_no_net(inst: Inst, cell: Cell)
    requires
        forall|p: int, c: int|
            0 <= p < cell.pins@.len() && (#[trigger] cell.pins@[p]).direction == Dir::Out && 0 <= c
                < inst.conns@.len() ==> (#[trigger] inst.conns@[c]).pin@ != cell.pins@[p].name@,
    ensures
        output_net(inst, cell).len() == 0,
{
    if exists|p: int| 0 <= p < cell.pins@.len() && (#[trigger] cell.pins@[p]).direction == Dir::Out {
        let p = lemma_least_output(cell.pins@, 0);
        lemma_first_output(cell.pins@, 0, p);
        lemma_no_net(inst.conns@, 0, cell.pins@[p].name@);
    } else {
        lemma_no_output(cell.pins@, 0);
    }
}

proof fn lemma_least_output(pins: Seq<Pin>, i: int) -> (p: int)
    requires
        0 <= i <= pins.len(),
        exists|q: int| i <= q < pins.len() && (#[trigger] pins[q]).direction == Dir::Out,
    ensures
        i <= p < pins.len(),
        pins[p].direction == Dir::Out,
        forall|q: int| i <= q < p ==> (#[trigger] pins[q]).direction != Dir::Out,
    decreases pins.len() - i,
{
    if pins[i].direction == Dir::Out {
        i
    } else {
        let q = choose|q: int| i <= q < pins.len() && (#[trigger] pins[q]).direction == Dir::Out;
        assert(i + 1 <= q);
        lemma_least_output(pins, i + 1)
    }
}

/// The terms of an instance name its output net, and the loads of that net.
pub proof fn the_terms_are_of_the_output_net<S: ToggleSource>(
    nl: Netlist,
    lib: Lib,
    act: Activity<S>,
    opts: AnalyzeOpts,
)
    ensures
        ({
            let terms = terms_of(nl, lib, act, opts, nl.insts@.len() as int);
            let insts = known(nl, lib);
            &&& terms.len() == insts.len()
            &&& forall|k: int|
                0 <= k < insts.len() ==> {
                    &&& (#[trigger] terms[k]).out_net == output_net(
                        insts[k],
                        lib.cells@[insts[k].cell@],
                    )
                    &&& terms[k].sink_caps_f == sink_caps(
                        nl,
                        lib,
                        nl.insts@.len() as int,
                        terms[k].out_net,
                    )
                }
        }),
{
    lemma_terms(nl, lib, act, opts, nl.insts@.len() as int);
    assert(nl.insts@.take(nl.insts@.len() as int) =~= nl.insts@);
}

/// The number of instances with an extracted wire is counted.
pub proof fn extracted_wires_are_counted(terms: Seq<InstTermsView>)
    ensures
        extracted(terms) == terms.filter(|t: InstTermsView| t.wire is Extracted).len(),
    decreases terms.len(),
{
    reveal(Seq::filter);
    if terms.len() > 0 {
        extracted_wires_are_counted(terms.drop_last());
    }
}

// ---- the loads of the nets -----------------------------------------------------

/// What the load of a net is built from: no instance, no load.
pub proof fn no_instance_loads_no_net(nl: Netlist, lib: Lib, net: Seq<char>)
    requires
        nl.insts@.len() == 0,
    ensures
        sink_caps(nl, lib, 0, net).len() == 0,
{
}

proof fn lemma_caps_of_same(a: Netlist, b: Netlist, lib: Lib, n: int, net: Seq<char>)
    requires
        n <= a.insts@.len(),
        n <= b.insts@.len(),
        forall|i: int| 0 <= i < n ==> a.insts@[i] == b.insts@[i],
    ensures
        sink_caps(a, lib, n, net) == sink_caps(b, lib, n, net),
    decreases n,
{
    if n > 0 {
        lemma_caps_of_same(a, b, lib, n - 1, net);
    }
}

/// One more instance whose cell the library lacks, or that is connected to nothing,
/// adds no load.
pub proof fn an_unknown_instance_loads_no_net(
    nl: Netlist,
    more: Netlist,
    lib: Lib,
    inst: Inst,
    net: Seq<char>,
)
    requires
        more.insts@ == nl.insts@.push(inst),
        !lib.cells@.contains_key(inst.cell@) || inst.conns@.len() == 0,
    ensures
        sink_caps(more, lib, more.insts@.len() as int, net) == sink_caps(
            nl,
            lib,
            nl.insts@.len() as int,
            net,
        ),
{
    let n = nl.insts@.len() as int;
    lemma_caps_of_same(nl, more, lib, n, net);
    assert(more.insts@[n] == inst);
    let before = sink_caps(nl, lib, n, net);
    assert(before + Seq::<Double>::empty() =~= before);
}

proof fn lemma_first_pin(pins: Seq<Pin>, i: nat, name: Seq<char>, p: int)
    requires
        i <= p < pins.len(),
        pins[p].name@ == name,
        forall|q: int| i <= q < p ==> (#[trigger] pins[q]).name@ != name,
    ensures
        first_pin(pins, i, name) == Some(pins[p]),
    decreases p - i,
{
    if i < p {
        lemma_first_pin(pins, i + 1, name, p);
    }
}

proof fn lemma_no_pin(pins: Seq<Pin>, i: nat, name: Seq<char>)
    requires
        forall|q: int| i <= q < pins.len() ==> (#[trigger] pins[q]).name@ != name,
    ensures
        first_pin(pins, i, name) is None,
    decreases pins.len() - i,
{
    if i < pins.len() {
        lemma_no_pin(pins, i + 1, name);
    }
}

proof fn lemma_inst_caps_of_same(a: Inst, b: Inst, cell: Cell, n: int, net: Seq<char>)
    requires
        n <= a.conns@.len(),
        n <= b.conns@.len(),
        forall|i: int| 0 <= i < n ==> a.conns@[i] == b.conns@[i],
    ensures
        inst_caps(a, cell, n, net) == inst_caps(b, cell, n, net),
    decreases n,
{
    if n > 0 {
        lemma_inst_caps_of_same(a, b, cell, n - 1, net);
    }
}

/// The netlists are the same but for one more connection, the last one of the last
/// instance.
pub open spec fn has_one_more_connection(nl: Netlist, more: Netlist, conn: Conn) -> bool {
    &&& nl.insts@.len() > 0
    &&& more.insts@.len() == nl.insts@.len()
    &&& more.insts@.drop_last() == nl.insts@.drop_last()
    &&& more.insts@.last().cell@ == nl.insts@.last().cell@
    &&& more.insts@.last().conns@ == nl.insts@.last().conns@.push(conn)
}

proof fn lemma_one_more_connection(
    nl: Netlist,
    more: Netlist,
    lib: Lib,
    conn: Conn,
    net: Seq<char>,
)
    requires
        has_one_more_connection(nl, more, conn),
        lib.cells@.contains_key(nl.insts@.last().cell@),
    ensures
        sink_caps(more, lib, more.insts@.len() as int, net) == sink_caps(
            nl,
            lib,
            nl.insts@.len() as int,
            net,
        ) + crate::power::conn_cap(
            more.insts@.last(),
            lib.cells@[nl.insts@.last().cell@],
            nl.insts@.last().conns@.len() as int,
            net,
        ),
{
    let n = nl.insts@.len() as int;
    let (a, b) = (nl.insts@[n - 1], more.insts@[n - 1]);
    let cell = lib.cells@[a.cell@];
    let m = a.conns@.len() as int;
    assert forall|i: int| 0 <= i < n - 1 implies nl.insts@[i] == more.insts@[i] by {
        assert(nl.insts@.drop_last()[i] == more.insts@.drop_last()[i]);
    }
    lemma_caps_of_same(nl, more, lib, n - 1, net);
    assert forall|i: int| 0 <= i < m implies a.conns@[i] == b.conns@[i] by {
        assert(b.conns@[i] == a.conns@.push(conn)[i]);
    }
    lemma_inst_caps_of_same(a, b, cell, m, net);
    let (x, y, z) = (
        sink_caps(nl, lib, n - 1, net),
        inst_caps(a, cell, m, net),
        crate::power::conn_cap(b, cell, m, net),
    );
    assert(x + (y + z) =~= x + y + z);
}

/// One more connection of an input to a net adds the capacitance of that input to
/// the load of that net, and of no other.
pub proof fn an_input_loads_its_net(
    nl: Netlist,
    more: Netlist,
    lib: Lib,
    conn: Conn,
    p: int,
    net: Seq<char>,
)
    requires
        has_one_more_connection(nl, more, conn),
        lib.cells@.contains_key(nl.insts@.last().cell@),
        0 <= p < lib.cells@[nl.insts@.last().cell@].pins@.len(),
        lib.cells@[nl.insts@.last().cell@].pins@[p].name@ == conn.pin@,
        forall|q: int|
            0 <= q < p ==> (#[trigger] lib.cells@[nl.insts@.last().cell@].pins@[q]).name@
                != conn.pin@,
    ensures
        ({
            let pin = lib.cells@[nl.insts@.last().cell@].pins@[p];
            let before = sink_caps(nl, lib, nl.insts@.len() as int, net);
            let after = sink_caps(more, lib, more.insts@.len() as int, net);
            if conn.net@ == net && (pin.direction == Dir::In || pin.direction == Dir::Inout) {
                after == before.push(pin.cap_f)
            } else {
                after == before
            }
        }),
{
    let cell = lib.cells@[nl.insts@.last().cell@];
    lemma_one_more_connection(nl, more, lib, conn, net);
    lemma_first_pin(cell.pins@, 0, conn.pin@, p);
    let before = sink_caps(nl, lib, nl.insts@.len() as int, net);
    assert(before + seq![cell.pins@[p].cap_f] =~= before.push(cell.pins@[p].cap_f));
    assert(before + Seq::<Double>::empty() =~= before);
    assert(more.insts@.last().conns@[nl.insts@.last().conns@.len() as int] == conn);
}

/// One more connection of a pin that the cell does not have adds no load.
pub proof fn a_pin_that_is_not_there_loads_nothing(
    nl: Netlist,
    more: Netlist,
    lib: Lib,
    conn: Conn,
    net: Seq<char>,
)
    requires
        has_one_more_connection(nl, more, conn),
        lib.cells@.contains_key(nl.insts@.last().cell@),
        forall|q: int|
            0 <= q < lib.cells@[nl.insts@.last().cell@].pins@.len() ==> (
            #[trigger] lib.cells@[nl.insts@.last().cell@].pins@[q]).name@ != conn.pin@,
    ensures
        sink_caps(more, lib, more.insts@.len() as int, net) == sink_caps(
            nl,
            lib,
            nl.insts@.len() as int,
            net,
        ),
{
    let cell = lib.cells@[nl.insts@.last().cell@];
    lemma_one_more_connection(nl, more, lib, conn, net);
    lemma_no_pin(cell.pins@, 0, conn.pin@);
    let before = sink_caps(nl, lib, nl.insts@.len() as int, net);
    assert(before + Seq::<Double>::empty() =~= before);
    assert(more.insts@.last().conns@[nl.insts@.last().conns@.len() as int] == conn);
}

// ---- the clock network ---------------------------------------------------------

/// The library tells registers from gates just when the cell of an instance has a
/// register or a clock pin.
pub proof fn a_declared_register_is_trusted(nl: Netlist, lib: Lib)
    ensures
        declares_sequential(nl, lib) <==> exists|i: int|
            0 <= i < nl.insts@.len() && lib.cells@.contains_key(
                (#[trigger] nl.insts@[i]).cell@,
            ) && (lib.cells@[nl.insts@[i].cell@].is_seq || lib.cells@[nl.insts@[i].cell@].clock_pin
                is Some),
{
    if declares_sequential(nl, lib) {
        let i = choose|i: int|
            0 <= i < nl.insts@.len() && (lib.cell_of((#[trigger] nl.insts@[i]).cell@) matches Some(c)
                && c.declares_clocking());
        assert(lib.cells@.contains_key(nl.insts@[i].cell@));
    }
    if exists|i: int|
        0 <= i < nl.insts@.len() && lib.cells@.contains_key((#[trigger] nl.insts@[i]).cell@) && (
        lib.cells@[nl.insts@[i].cell@].is_seq || lib.cells@[nl.insts@[i].cell@].clock_pin is Some) {
        let i = choose|i: int|
            0 <= i < nl.insts@.len() && lib.cells@.contains_key((#[trigger] nl.insts@[i]).cell@) && (
            lib.cells@[nl.insts@[i].cell@].is_seq || lib.cells@[nl.insts@[i].cell@].clock_pin
                is Some);
        assert(lib.cell_of(nl.insts@[i].cell@) is Some);
    }
}

/// The pin takes a signal in.
pub open spec fn takes_in(pin: Pin) -> bool {
    pin.direction == Dir::In || pin.direction == Dir::Inout
}

/// The pin is the only one of its cell that takes a signal in.
pub open spec fn is_only_input(cell: Cell, p: int) -> bool {
    takes_in(cell.pins@[p]) && forall|q: int|
        0 <= q < cell.pins@.len() && q != p ==> !takes_in(#[trigger] cell.pins@[q])
}

/// On the pins: instance `i` is of a cell that is no register, takes the signal of
/// its connection `c` in at pin `p`, which is no clock pin, and drives its connection
/// `d` from the output `q`. Where the library does not tell registers from gates,
/// `p` is the only input.
pub open spec fn repeats(
    nl: Netlist,
    lib: Lib,
    trust_lib: bool,
    i: int,
    p: int,
    c: int,
    q: int,
    d: int,
) -> bool {
    &&& 0 <= i < nl.insts@.len()
    &&& lib.cells@.contains_key(nl.insts@[i].cell@)
    &&& ({
        let inst = nl.insts@[i];
        let cell = lib.cells@[inst.cell@];
        &&& !cell.is_seq
        &&& 0 <= p < cell.pins@.len() && takes_in(cell.pins@[p])
        &&& trust_lib || is_only_input(cell, p)
        &&& cell.clock_pin is Some ==> cell.clock_pin.unwrap()@ != cell.pins@[p].name@
        &&& 0 <= c < inst.conns@.len() && inst.conns@[c].pin@ == cell.pins@[p].name@
        &&& 0 <= q < cell.pins@.len() && cell.pins@[q].direction == Dir::Out
        &&& 0 <= d < inst.conns@.len() && inst.conns@[d].pin@ == cell.pins@[q].name@
    })
}

proof fn lemma_inputs_among(pins: Seq<Pin>, n: int)
    requires
        0 <= n <= pins.len(),
    ensures
        inputs_among(pins, n) == 0 <==> forall|q: int| 0 <= q < n ==> !takes_in(#[trigger] pins[q]),
    decreases n,
{
    if n > 0 {
        lemma_inputs_among(pins, n - 1);
        if inputs_among(pins, n) == 0 {
            assert forall|q: int| 0 <= q < n implies !takes_in(#[trigger] pins[q]) by {}
        }
        if forall|q: int| 0 <= q < n ==> !takes_in(#[trigger] pins[q]) {
            assert(!takes_in(pins[n - 1]));
        }
    }
}

proof fn lemma_only_input(pins: Seq<Pin>, n: int, p: int)
    requires
        0 <= p < n <= pins.len(),
        takes_in(pins[p]),
    ensures
        inputs_among(pins, n) == 1 <==> forall|q: int|
            0 <= q < n && q != p ==> !takes_in(#[trigger] pins[q]),
        inputs_among(pins, n) >= 1,
    decreases n,
{
    if p == n - 1 {
        lemma_inputs_among(pins, n - 1);
        if inputs_among(pins, n) == 1 {
            assert forall|q: int| 0 <= q < n && q != p implies !takes_in(#[trigger] pins[q]) by {}
        }
        if forall|q: int| 0 <= q < n && q != p ==> !takes_in(#[trigger] pins[q]) {
            assert forall|q: int| 0 <= q < n - 1 implies !takes_in(#[trigger] pins[q]) by {}
        }
    } else {
        lemma_only_input(pins, n - 1, p);
        if inputs_among(pins, n) == 1 {
            assert forall|q: int| 0 <= q < n && q != p implies !takes_in(#[trigger] pins[q]) by {}
        }
        if forall|q: int| 0 <= q < n && q != p ==> !takes_in(#[trigger] pins[q]) {
            assert(!takes_in(pins[n - 1]));
        }
    }
}

proof fn lemma_repeats_carries(
    nl: Netlist,
    lib: Lib,
    trust_lib: bool,
    i: int,
    p: int,
    c: int,
    q: int,
    d: int,
)
    requires
        repeats(nl, lib, trust_lib, i, p, c, q, d),
    ensures
        carries(
            nl,
            lib,
            trust_lib,
            i,
            nl.insts@[i].conns@[c].net@,
            nl.insts@[i].conns@[d].net@,
        ),
{
    let inst = nl.insts@[i];
    let cell = lib.cells@[inst.cell@];
    if !trust_lib {
        lemma_only_input(cell.pins@, cell.pins@.len() as int, p);
    }
    assert(cell.pins@[p].is_input());
    assert(cell.has_input(inst.conns@[c].pin@));
    assert(enters_at(inst, cell, inst.conns@[c].net@, c));
    assert(enters(inst, cell, inst.conns@[c].net@));
    assert(cell.has_output(inst.conns@[d].pin@));
    assert(leaves_at(inst, cell, inst.conns@[d].net@, d));
    assert(leaves(inst, cell, inst.conns@[d].net@));
}

proof fn lemma_carries_repeats(
    nl: Netlist,
    lib: Lib,
    trust_lib: bool,
    i: int,
    from: Seq<char>,
    to: Seq<char>,
) -> (w: (int, int, int, int))
    requires
        carries(nl, lib, trust_lib, i, from, to),
    ensures
        repeats(nl, lib, trust_lib, i, w.0, w.1, w.2, w.3),
        nl.insts@[i].conns@[w.1].net@ == from,
        nl.insts@[i].conns@[w.3].net@ == to,
{
    let inst = nl.insts@[i];
    let cell = lib.cells@[inst.cell@];
    let c = choose|c: int| #[trigger] enters_at(inst, cell, from, c);
    let p = choose|p: int|
        0 <= p < cell.pins@.len() && (#[trigger] cell.pins@[p]).is_input() && cell.pins@[p].name@
            == inst.conns@[c].pin@;
    let d = choose|d: int| #[trigger] leaves_at(inst, cell, to, d);
    let q = choose|q: int|
        0 <= q < cell.pins@.len() && (#[trigger] cell.pins@[q]).direction == Dir::Out
            && cell.pins@[q].name@ == inst.conns@[d].pin@;
    if !trust_lib {
        lemma_only_input(cell.pins@, cell.pins@.len() as int, p);
    }
    (p, c, q, d)
}

/// A clock runs through repeaters: where one enters a cell that is no register at an
/// input, it leaves it at every output. A cell with a single input repeats clocks
/// whatever the library tells.
pub proof fn a_clock_runs_through_repeaters(
    nl: Netlist,
    lib: Lib,
    root: Seq<char>,
    trust_lib: bool,
    i: int,
    p: int,
    c: int,
    q: int,
    d: int,
)
    requires
        repeats(nl, lib, trust_lib, i, p, c, q, d),
        clock_nets(nl, lib, root, trust_lib).contains(nl.insts@[i].conns@[c].net@),
    ensures
        clock_nets(nl, lib, root, trust_lib).contains(nl.insts@[i].conns@[d].net@),
{
    lemma_repeats_carries(nl, lib, trust_lib, i, p, c, q, d);
    the_clock_network_is_closed(nl, lib, root, trust_lib);
}

/// A clock runs through nothing else: what is in the clock network is the clock port,
/// or a repeater drives it from another net of the network.
pub proof fn a_clock_runs_through_nothing_else(
    nl: Netlist,
    lib: Lib,
    root: Seq<char>,
    trust_lib: bool,
    net: Seq<char>,
)
    requires
        clock_nets(nl, lib, root, trust_lib).contains(net),
        net != root,
    ensures
        exists|i: int, p: int, c: int, q: int, d: int| #[trigger]
            repeats(nl, lib, trust_lib, i, p, c, q, d) && clock_nets(
                nl,
                lib,
                root,
                trust_lib,
            ).contains(nl.insts@[i].conns@[c].net@) && nl.insts@[i].conns@[d].net@ == net,
{
    a_clock_net_is_driven_from_one(nl, lib, root, trust_lib, net);
    let (i, from) = choose|i: int, from: Seq<char>|
        clock_nets(nl, lib, root, trust_lib).contains(from) && #[trigger] carries(
            nl,
            lib,
            trust_lib,
            i,
            from,
            net,
        );
    let (p, c, q, d) = lemma_carries_repeats(nl, lib, trust_lib, i, from, net);
    assert(repeats(nl, lib, trust_lib, i, p, c, q, d));
}

/// A clock starts at the clock port: the port is in the network, and a set of nets
/// that holds it and that no repeater leads out of holds the whole network.
pub proof fn a_clock_starts_at_its_port(
    nl: Netlist,
    lib: Lib,
    root: Seq<char>,
    trust_lib: bool,
    s: Set<Seq<char>>,
)
    requires
        s.contains(root),
        forall|i: int, p: int, c: int, q: int, d: int| #[trigger]
            repeats(nl, lib, trust_lib, i, p, c, q, d) && s.contains(
                nl.insts@[i].conns@[c].net@,
            ) ==> s.contains(nl.insts@[i].conns@[d].net@),
    ensures
        clock_nets(nl, lib, root, trust_lib).contains(root),
        clock_nets(nl, lib, root, trust_lib).subset_of(s),
{
    the_clock_network_is_closed(nl, lib, root, trust_lib);
    assert forall|i: int, from: Seq<char>, to: Seq<char>|
        s.contains(from) && #[trigger] carries(nl, lib, trust_lib, i, from, to) implies s.contains(
        to,
    ) by {
        let (p, c, q, d) = lemma_carries_repeats(nl, lib, trust_lib, i, from, to);
        assert(repeats(nl, lib, trust_lib, i, p, c, q, d));
    }
    assert(keeps_clocks(nl, lib, trust_lib, s));
}

// ---- the report ----------------------------------------------------------------

/// The members of a group are the instances that say so, in order.
pub proof fn a_group_has_its_members(insts: Seq<InstPower>, g: Group, n: int)
    requires
        0 <= n <= insts.len(),
    ensures
        members(insts, g, n) == insts.take(n).filter(|p: InstPower| p.group == g),
    decreases n,
{
    reveal(Seq::filter);
    if n > 0 {
        a_group_has_its_members(insts, g, n - 1);
        assert(insts.take(n).drop_last() =~= insts.take(n - 1));
        assert(insts.take(n).last() == insts[n - 1]);
    } else {
        assert(members(insts, g, n) =~= insts.take(n).filter(|p: InstPower| p.group == g));
    }
}

/// The line of an instance in an activity map: its name and its two numbers.
pub proof fn a_map_has_a_line_for_each_instance(
    insts: Seq<InstPower>,
    rows: Seq<crate::power::MapRow>,
    n: int,
)
    requires
        0 < n <= insts.len(),
    ensures
        map_lines(insts, rows, n) == map_lines(insts, rows, n - 1) + (insts[n - 1].inst@ + "  "@
            + rows[n - 1].avg_current_a@ + "  "@ + rows[n - 1].toggle_rate@ + "\n"@),
        map_lines(insts, rows, 0).len() == 0,
{
    assert(map_lines(insts, rows, n) =~= map_lines(insts, rows, n - 1) + (insts[n - 1].inst@ + "  "@
        + rows[n - 1].avg_current_a@ + "  "@ + rows[n - 1].toggle_rate@ + "\n"@));
}

/// An activity map says of which design it is, at which supply, from which activity,
/// and what it was measured over, before it comes to the instances.
pub proof fn a_map_says_what_it_is(rep: PowerReport, window: Seq<char>, fig: MapFigures)
    ensures
        ({
            let head = "# vyges-power activity map for vyges-em-ir\n"@;
            let design = "# design "@ + rep.design@ + "  vdd "@ + fig.vdd@ + " V  mode "@
                + rep.mode@ + "\n"@;
            let measured = "# measured over "@ + window + "\n"@;
            let columns = "# columns: instance  avg_current_a  toggle_rate_hz\n"@;
            map_text(rep, window, fig) == head + design + measured + columns + map_lines(
                rep.insts@,
                fig.rows@,
                rep.insts@.len() as int,
            )
        }),
{
    let head = "# vyges-power activity map for vyges-em-ir\n"@;
    let design = "# design "@ + rep.design@ + "  vdd "@ + fig.vdd@ + " V  mode "@ + rep.mode@ + "\n"@;
    let measured = "# measured over "@ + window + "\n"@;
    let columns = "# columns: instance  avg_current_a  toggle_rate_hz\n"@;
    assert(map_text(rep, window, fig) =~= head + design + measured + columns + map_lines(
        rep.insts@,
        fig.rows@,
        rep.insts@.len() as int,
    ));
}

/// What is reported of an instance is what its terms say and the powers that were
/// worked out for it.
pub proof fn an_instance_is_reported_as_it_is(p: InstPower, t: InstTermsView, w: Watts)
    requires
        reports(p, t, w),
    ensures
        p.inst@ == t.inst && p.cell@ == t.cell && p.out_net@ == t.out_net,
        p.toggle_rate == t.toggle_rate,
        p.group == t.group,
        p.leakage_w == t.leakage_w,
        p.internal_w == w.internal_w,
        p.switch_w == w.switch_w,
        p.avg_current_a == w.avg_current_a,
{
}

} // verus!
