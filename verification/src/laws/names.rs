//! What the index of nets promises.

use crate::names::{leaf, NetIndexView};
use crate::text::has_suffix;
use vstd::prelude::*;

verus! {

/// A path is the net, or ends in it behind a dot.
pub open spec fn ends_in(path: Seq<char>, net: Seq<char>) -> bool {
    path == net || exists|front: Seq<char>| path == #[trigger] (front + seq!['.'] + net)
}

proof fn lemma_ends_in(path: Seq<char>, net: Seq<char>)
    ensures
        ends_in(path, net) <==> path == net || has_suffix(path, seq!['.'] + net),
{
    let tail = seq!['.'] + net;
    if has_suffix(path, tail) {
        let front = path.take(path.len() - tail.len());
        assert(path =~= front + seq!['.'] + net) by {
            assert(path =~= front + path.skip(path.len() - tail.len()));
        }
    }
    if exists|front: Seq<char>| path == #[trigger] (front + seq!['.'] + net) {
        let front = choose|front: Seq<char>| path == #[trigger] (front + seq!['.'] + net);
        assert(path.skip(path.len() - tail.len()) =~= tail);
    }
}

/// A path matches a net when it is the name of the net below the scope, or ends in it
/// behind a dot. Without a scope the net stands for itself.
pub proof fn what_matches_a_net(v: NetIndexView, net: Seq<char>, path: Seq<char>)
    ensures
        v.scope is None ==> (v.matches_path(net, path) <==> ends_in(path, net)),
        v.scope matches Some(s) ==> (v.matches_path(net, path) <==> ends_in(
            path,
            s + seq!['.'] + net,
        )),
{
    lemma_ends_in(path, net);
    if let Some(s) = v.scope {
        lemma_ends_in(path, s + seq!['.'] + net);
    }
}

/// A net whose name below the scope is declared resolves to the transitions there,
/// unless another declared path ends in that name.
pub proof fn a_declared_net_resolves(v: NetIndexView, net: Seq<char>, path: Seq<char>)
    requires
        v.sound(),
        v.declares(path),
        v.matches_path(net, path),
        forall|q: Seq<char>| #[trigger] v.declares(q) && v.matches_path(net, q) ==> q == path,
    ensures
        v.resolution(net) == Some(v.count(path)),
{
    crate::names::a_net_resolves_when_one_path_matches(v, net);
    assert forall|q: Seq<char>| #[trigger] v.is_match(net, q) implies q == path by {
        assert(v.declares(q));
    }
    assert(v.is_only_match(net, path));
}

/// A net that two declared paths match, or none, does not resolve.
pub proof fn an_ambiguous_net_does_not_resolve(
    v: NetIndexView,
    net: Seq<char>,
    a: Seq<char>,
    b: Seq<char>,
)
    requires
        v.sound(),
        (a != b && v.declares(a) && v.declares(b) && v.matches_path(net, a) && v.matches_path(net, b))
            || (forall|q: Seq<char>| #[trigger] v.declares(q) ==> !v.matches_path(net, q)),
    ensures
        v.resolution(net) is None,
{
    crate::names::a_net_resolves_when_one_path_matches(v, net);
    if exists|p: Seq<char>| v.is_only_match(net, p) {
        let p = choose|p: Seq<char>| v.is_only_match(net, p);
        assert(v.is_match(net, p));
        assert(v.declares(p));
        if v.declares(a) && v.matches_path(net, a) {
            assert(v.is_match(net, a));
        }
        if v.declares(b) && v.matches_path(net, b) {
            assert(v.is_match(net, b));
        }
    }
}

/// Declaring a path declares it and no other, and counts nothing.
pub proof fn declaring_declares_one_path(v: NetIndexView, path: Seq<char>, q: Seq<char>)
    ensures
        v.declared(path).declares(q) <==> v.declares(q) || q == path,
        v.declared(path).count(q) == v.count(q),
        v.declared(path).scope == v.scope,
{
    let after = v.declared(path);
    let p = v.paths(leaf(path));
    if q == path {
        if !p.contains(path) {
            assert(p.push(path)[p.len() as int] == path);
        }
    } else if leaf(q) == leaf(path) && !p.contains(path) {
        if p.contains(q) {
            assert(p.push(path)[p.index_of(q)] == q);
        }
        if p.push(path).contains(q) {
            let i = p.push(path).index_of(q);
            assert(p[i] == q);
        }
    }
}

/// Counting at a path adds to it alone, and declares nothing.
pub proof fn counting_counts_at_one_path(v: NetIndexView, path: Seq<char>, n: u64, q: Seq<char>)
    requires
        v.count(path) + n <= u64::MAX,
    ensures
        v.counted(path, n as int).count(q) == if q == path {
            v.count(path) + n
        } else {
            v.count(q) as int
        },
        v.counted(path, n as int).declares(q) == v.declares(q),
        v.counted(path, n as int).scope == v.scope,
{
}

/// A leaf collides when two paths of it are declared.
pub proof fn a_leaf_collides_with_a_second_path(v: NetIndexView, l: Seq<char>)
    requires
        v.sound(),
    ensures
        v.colliding().contains(l) <==> exists|a: Seq<char>, b: Seq<char>|
            a != b && leaf(a) == l && leaf(b) == l && #[trigger] v.declares(a) && #[trigger] v.declares(
                b,
            ),
{
    let p = v.paths(l);
    if v.colliding().contains(l) {
        let (a, b) = (p[0], p[1]);
        assert(p.contains(a) && p.contains(b));
        assert(leaf(v.by_leaf[l][0]) == l && leaf(v.by_leaf[l][1]) == l);
        assert(v.declares(a) && v.declares(b));
    }
    if exists|a: Seq<char>, b: Seq<char>|
        a != b && leaf(a) == l && leaf(b) == l && #[trigger] v.declares(a) && #[trigger] v.declares(b) {
        let (a, b) = choose|a: Seq<char>, b: Seq<char>|
            a != b && leaf(a) == l && leaf(b) == l && #[trigger] v.declares(a) && #[trigger] v.declares(
                b,
            );
        let (i, j) = (p.index_of(a), p.index_of(b));
        assert(p[i] == a && p[j] == b);
        assert(v.by_leaf.contains_key(l));
    }
}

} // verus!
