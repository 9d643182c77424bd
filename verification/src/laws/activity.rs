//! What the activity behind a power number promises.

use crate::activity::{named, Activity, Rates, ToggleSource};
use crate::double::{Double, ZERO_BITS};
use vstd::prelude::*;

verus! {

/// A net takes the rate that was measured of it, where that is more than zero, and else
/// the estimate. Without a measurement every net takes the one rate.
pub proof fn a_net_takes_its_measured_rate<S: ToggleSource>(act: Activity<S>, net: Seq<char>)
    ensures
        act matches Activity::Vectorless { rate } ==> act.rate_for(net) == rate && !act.covers(net),
        act matches Activity::Vectored { src, fallback_rate, .. } ==> (if (Double {
            bits: ZERO_BITS,
        }).below(src.rate_of(net)) {
            act.rate_for(net) == src.rate_of(net) && act.covers(net)
        } else {
            act.rate_for(net) == fallback_rate && !act.covers(net)
        }),
{
}

/// The nets that a measurement names are counted.
pub proof fn covered_nets_are_counted<S: ToggleSource>(act: Activity<S>, nets: Seq<Seq<char>>)
    ensures
        act.measured(nets) == nets.filter(|net: Seq<char>| act.covers(net)).len(),
        act.measured(nets) <= nets.len(),
{
    match act {
        Activity::Vectorless { .. } => {
            lemma_none(nets, |net: Seq<char>| act.covers(net));
        },
        Activity::Vectored { src, .. } => {
            lemma_named(src, nets, nets.len() as int);
            assert(nets.take(nets.len() as int) =~= nets);
            lemma_same_filter(
                nets,
                |net: Seq<char>| act.covers(net),
                |net: Seq<char>| (Double { bits: ZERO_BITS }).below(src.rate_of(net)),
            );
        },
    }
}

proof fn lemma_none(s: Seq<Seq<char>>, pred: spec_fn(Seq<char>) -> bool)
    requires
        forall|x: Seq<char>| !#[trigger] pred(x),
    ensures
        s.filter(pred).len() == 0,
    decreases s.len(),
{
    reveal(Seq::filter);
    if s.len() > 0 {
        lemma_none(s.drop_last(), pred);
    }
}

proof fn lemma_same_filter(
    s: Seq<Seq<char>>,
    a: spec_fn(Seq<char>) -> bool,
    b: spec_fn(Seq<char>) -> bool,
)
    requires
        forall|x: Seq<char>| #[trigger] a(x) == b(x),
    ensures
        s.filter(a) == s.filter(b),
    decreases s.len(),
{
    reveal(Seq::filter);
    if s.len() > 0 {
        lemma_same_filter(s.drop_last(), a, b);
        assert(a(s.last()) == b(s.last()));
    }
}

proof fn lemma_named<S: ToggleSource>(src: S, nets: Seq<Seq<char>>, n: int)
    requires
        0 <= n <= nets.len(),
    ensures
        named(src, nets, n) == nets.take(n).filter(
            |net: Seq<char>| (Double { bits: ZERO_BITS }).below(src.rate_of(net)),
        ).len(),
        named(src, nets, n) <= n,
    decreases n,
{
    reveal(Seq::filter);
    if n > 0 {
        lemma_named(src, nets, n - 1);
        assert(nets.take(n).drop_last() =~= nets.take(n - 1));
        assert(nets.take(n).last() == nets[n - 1]);
    }
}

/// Rates by name give a net its own, and zero where they do not name it.
pub proof fn rates_give_a_net_its_own(rates: Rates, net: Seq<char>)
    ensures
        rates.by_net@.contains_key(net) ==> rates.rate_of(net) == rates.by_net@[net],
        !rates.by_net@.contains_key(net) ==> rates.rate_of(net) == (Double { bits: ZERO_BITS }),
{
}

/// A report names the source of its activity.
pub proof fn a_report_names_its_source<S: ToggleSource>(act: Activity<S>)
    ensures
        act matches Activity::Vectored { label, .. } ==> act.mode_text() == label@,
        act is Vectorless ==> act.mode_text() == "vectorless"@,
{
}

} // verus!
