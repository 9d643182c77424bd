//! Activity: the toggle rate (transitions per second) of each net.
//!
//! It has two sources. A vectored one holds rates measured in a simulation; a net
//! that it does not name takes the vectorless estimate, so that none is silently
//! zeroed. The vectorless one is a uniform rate, the activity factor times the
//! clock frequency.

use crate::double::{Double, ZERO_BITS};
use crate::name_map::NameMap;
use vstd::prelude::*;
use vstd::string::*;

verus! {

/// The name of a net, by its characters.
pub type NetName = Seq<char>;

/// A source of measured toggle rates: a dump, an activity file, or one window of a
/// sweep.
pub trait ToggleSource {
    /// The rate that the source gives a net: what `toggle_rate` returns, as a
    /// function of the name.
    spec fn rate_of(&self, net: NetName) -> Double;

    /// The rate of a net in transitions per second, and 0 where the source does not
    /// name the net.
    fn toggle_rate(&self, net: &str) -> (r: Double)
        ensures
            r == self.rate_of(net@),
    ;
}

/// Measured rates by the name of the net.
pub struct Rates {
    pub by_net: NameMap<Double>,
}

impl ToggleSource for Rates {
    open spec fn rate_of(&self, net: NetName) -> Double {
        if self.by_net@.contains_key(net) {
            self.by_net@[net]
        } else {
            Double { bits: ZERO_BITS }
        }
    }

    fn toggle_rate(&self, net: &str) -> (r: Double) {
        match self.by_net.get(net) {
            Some(x) => *x,
            None => Double { bits: ZERO_BITS },
        }
    }
}

/// The activity behind a power number.
pub enum Activity<S: ToggleSource> {
    /// Measured rates, the rate of the nets that the source does not name, and the
    /// name of the source in reports.
    Vectored { src: S, fallback_rate: Double, label: &'static str },
    /// One rate for every net.
    Vectorless { rate: Double },
}

/// How many of the first `n` nets the source names: it gives them a positive rate.
pub open spec fn named<S: ToggleSource>(src: S, nets: Seq<Seq<char>>, n: int) -> nat
    decreases n,
{
    if n <= 0 {
        0
    } else if src.rate_of(nets[n - 1]).positive() {
        named(src, nets, n - 1) + 1
    } else {
        named(src, nets, n - 1)
    }
}

impl<S: ToggleSource> Activity<S> {
    /// The rate of a net: the measured one where it is positive, and else the
    /// vectorless estimate.
    pub open spec fn rate_for(self, net: Seq<char>) -> Double {
        match self {
            Activity::Vectorless { rate } => rate,
            Activity::Vectored { src, fallback_rate, .. } => if self.covers(net) {
                src.rate_of(net)
            } else {
                fallback_rate
            },
        }
    }

    /// A measurement names the net.
    pub open spec fn covers(self, net: Seq<char>) -> bool {
        match self {
            Activity::Vectorless { .. } => false,
            Activity::Vectored { src, .. } => src.rate_of(net).positive(),
        }
    }

    /// The name of the source in reports.
    pub open spec fn mode_text(self) -> Seq<char> {
        match self {
            Activity::Vectored { label, .. } => label@,
            Activity::Vectorless { .. } => "vectorless"@,
        }
    }

    /// How many of the nets a measurement names.
    pub open spec fn measured(self, nets: Seq<Seq<char>>) -> nat {
        match self {
            Activity::Vectorless { .. } => 0,
            Activity::Vectored { src, .. } => named(src, nets, nets.len() as int),
        }
    }

    /// One rate, the activity factor times the clock frequency, for every net.
    pub fn vectorless(rate: Double) -> (r: Self)
        ensures
            r == (Activity::<S>::Vectorless { rate }),
    {
        Activity::Vectorless { rate }
    }

    /// The rates of a source, whose name in reports is `label`, with the vectorless
    /// estimate for what it does not name.
    pub fn vectored(src: S, label: &'static str, fallback_rate: Double) -> (r: Self)
        ensures
            r == (Activity::Vectored { src, fallback_rate, label }),
    {
        Activity::Vectored { src, fallback_rate, label }
    }

    /// The transitions per second of a net.
    pub fn rate(&self, net: &str) -> (r: Double)
        ensures
            r == self.rate_for(net@),
    {
        match self {
            Activity::Vectorless { rate } => *rate,
            Activity::Vectored { src, fallback_rate, .. } => {
                let measured = src.toggle_rate(net);
                if measured.is_positive() {
                    measured
                } else {
                    *fallback_rate
                }
            },
        }
    }

    /// How many of the nets the source names, and how many there are. A net that a
    /// dump does not name silently takes the vectorless estimate, so a report on a
    /// design that the dump barely touches is told from one on a design that it
    /// covers by this alone.
    pub fn coverage(&self, nets: &Vec<String>) -> (r: (usize, usize))
        ensures
            r.0 == self.measured(nets.deep_view()),
            r.0 <= r.1,
            r.1 == nets@.len(),
    {
        let n: usize = nets.len();
        match self {
            Activity::Vectorless { .. } => (0, n),
            Activity::Vectored { src, .. } => {
                let ghost all = nets.deep_view();
                let mut hit: usize = 0;
                let mut i: usize = 0;
                while i < n
                    invariant
                        n == nets@.len(),
                        all == nets.deep_view(),
                        i <= n,
                        hit <= i,
                        hit == named(*src, all, i as int),
                    decreases n - i,
                {
                    assert(all[i as int] == nets@[i as int]@);
                    if src.toggle_rate(nets[i].as_str()).is_positive() {
                        hit += 1;
                    }
                    i += 1;
                }
                (hit, n)
            },
        }
    }

    /// The name of the source in reports.
    pub fn mode(&self) -> (r: &'static str)
        ensures
            r@ == self.mode_text(),
    {
        match self {
            Activity::Vectored { label, .. } => label,
            Activity::Vectorless { .. } => "vectorless",
        }
    }
}

/// No net is zeroed for want of a measurement: with a positive estimate every net
/// has a positive rate.
pub proof fn no_net_is_silently_zeroed<S: ToggleSource>(act: Activity<S>, net: Seq<char>)
    requires
        act matches Activity::Vectored { fallback_rate, .. } ==> fallback_rate.positive(),
        act matches Activity::Vectorless { rate } ==> rate.positive(),
    ensures
        act.rate_for(net).positive(),
{
}

/// Without a simulation no net is covered, and every net has the same rate.
pub proof fn vectorless_covers_nothing<S: ToggleSource>(
    act: Activity<S>,
    nets: Seq<Seq<char>>,
    a: Seq<char>,
    b: Seq<char>,
)
    requires
        act is Vectorless,
    ensures
        act.measured(nets) == 0,
        act.rate_for(a) == act.rate_for(b),
{
}

} // verus!
