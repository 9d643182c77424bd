//! Scope-aware net resolution, shared by the activity readers.
//!
//! A reader keys its toggle counts by a signal's full hierarchical path (such
//! as `counter_tb.dut.clk_in`) and indexes each leaf name to the paths that
//! carry it. A netlist net, a flat leaf like `clk_in` that a design scope
//! (`dut` or `counter_tb.dut`) may qualify, resolves to a signal when
//! `scope.net` is a full path or the end of one at a `.` boundary.
//!
//! A unique match resolves. An ambiguous one (the same leaf in more than one
//! scope) stays unresolved, so that the caller falls back to the vectorless
//! factor: there is no silent last-write-wins pick.

use crate::name_map::NameMap;
use crate::text::{has_suffix, str_eq, strip_suffix};
use vstd::prelude::*;
use vstd::string::*;

verus! {

/// The last `.`-separated component of a path.
pub open spec fn leaf(path: Seq<char>) -> Seq<char>
    decreases path.len(),
{
    if path.len() == 0 || path.last() == '.' {
        Seq::empty()
    } else {
        leaf(path.drop_last()).push(path.last())
    }
}

/// `front`, a dot, and `back`.
pub open spec fn dotted(front: Seq<char>, back: Seq<char>) -> Seq<char> {
    front + seq!['.'] + back
}

/// A leaf holds no dot, and it is the whole path or follows the path's last dot.
pub proof fn leaf_follows_the_last_dot(path: Seq<char>)
    ensures
        forall|i: int| 0 <= i < leaf(path).len() ==> #[trigger] leaf(path)[i] != '.',
        leaf(path).len() <= path.len(),
        path.skip(path.len() - leaf(path).len()) == leaf(path),
        leaf(path).len() < path.len() ==> path[path.len() - leaf(path).len() - 1] == '.',
    decreases path.len(),
{
    if path.len() == 0 || path.last() == '.' {
        assert(path.skip(path.len() as int) =~= Seq::<char>::empty());
    } else {
        let front = path.drop_last();
        leaf_follows_the_last_dot(front);
        let k = front.len() - leaf(front).len();
        assert(path.skip(k) =~= front.skip(k).push(path.last()));
    }
}

/// What follows a dot and holds none itself is the leaf.
proof fn lemma_leaf_is(path: Seq<char>, l: Seq<char>)
    requires
        has_suffix(path, l),
        forall|i: int| 0 <= i < l.len() ==> #[trigger] l[i] != '.',
        l.len() < path.len() ==> path[path.len() - l.len() - 1] == '.',
    ensures
        leaf(path) == l,
    decreases path.len(),
{
    if path.len() > 0 && l.len() > 0 {
        let front = path.drop_last();
        assert(path.skip(path.len() - l.len())[l.len() - 1] == path.last());
        assert(front.skip(front.len() - (l.len() - 1)) =~= l.drop_last());
        lemma_leaf_is(front, l.drop_last());
        assert(l.drop_last().push(l.last()) =~= l);
    } else {
        assert(l =~= Seq::<char>::empty());
    }
}

/// A scope in front of a path does not change its leaf.
pub proof fn a_scope_keeps_the_leaf(scope: Seq<char>, path: Seq<char>)
    ensures
        leaf(dotted(scope, path)) == leaf(path),
{
    let d = dotted(scope, path);
    leaf_follows_the_last_dot(path);
    assert(d.skip(d.len() - leaf(path).len()) =~= path.skip(path.len() - leaf(path).len()));
    lemma_leaf_is(d, leaf(path));
}

/// The last `.`-separated component of a hierarchical path.
pub fn leaf_of(path: &str) -> (r: &str)
    ensures
        r@ == leaf(path@),
{
    let cs = crate::text::chars_of(path);
    let n: usize = cs.len();
    let mut i: usize = n;
    while i > 0 && cs[i - 1] != '.'
        invariant
            n == cs@.len(),
            i <= n,
            forall|k: int| i <= k < n ==> #[trigger] cs@[k] != '.',
        decreases i,
    {
        i -= 1;
    }
    proof {
        let l = path@.subrange(i as int, n as int);
        assert(path@.skip(n - l.len()) =~= l);
        lemma_leaf_is(path@, l);
    }
    path.substring_char(i, n)
}

/// What a `NetIndex` holds.
#[verifier::ext_equal]
pub struct NetIndexView {
    pub toggles: Map<Seq<char>, u64>,
    pub by_leaf: Map<Seq<char>, Seq<Seq<char>>>,
    pub scope: Option<Seq<char>>,
}

impl NetIndexView {
    /// The paths indexed under a leaf.
    pub open spec fn paths(self, leaf_name: Seq<char>) -> Seq<Seq<char>> {
        if self.by_leaf.contains_key(leaf_name) {
            self.by_leaf[leaf_name]
        } else {
            Seq::empty()
        }
    }

    /// The transitions counted at a path.
    pub open spec fn count(self, path: Seq<char>) -> u64 {
        if self.toggles.contains_key(path) {
            self.toggles[path]
        } else {
            0
        }
    }

    /// The index once `path` is declared.
    pub open spec fn declared(self, path: Seq<char>) -> NetIndexView {
        NetIndexView {
            by_leaf: self.by_leaf.insert(
                leaf(path),
                if self.paths(leaf(path)).contains(path) {
                    self.paths(leaf(path))
                } else {
                    self.paths(leaf(path)).push(path)
                },
            ),
            ..self
        }
    }

    /// The index once `n` more transitions are counted at `path`.
    pub open spec fn counted(self, path: Seq<char>, n: int) -> NetIndexView {
        NetIndexView {
            toggles: self.toggles.insert(path, (self.count(path) + n) as u64),
            ..self
        }
    }

    /// `path` is declared.
    pub open spec fn declares(self, path: Seq<char>) -> bool {
        self.paths(leaf(path)).contains(path)
    }

    /// Each path stands under its own leaf, and once, and each leaf has a path.
    pub open spec fn sound(self) -> bool {
        forall|l: Seq<char>| #[trigger]
            self.by_leaf.contains_key(l) ==> self.by_leaf[l].len() > 0
                && self.by_leaf[l].no_duplicates() && forall|i: int|
                0 <= i < self.by_leaf[l].len() ==> leaf(#[trigger] self.by_leaf[l][i]) == l
    }

    /// The name that a net goes by below the design scope.
    pub open spec fn target(self, net: Seq<char>) -> Seq<char> {
        match self.scope {
            Some(s) => dotted(s, net),
            None => net,
        }
    }

    /// `path` is what a net resolves to: its target, or ends in it at a dot.
    pub open spec fn matches_path(self, net: Seq<char>, path: Seq<char>) -> bool {
        path == self.target(net) || has_suffix(path, seq!['.'] + self.target(net))
    }

    /// `path` is declared and matches the net.
    pub open spec fn is_match(self, net: Seq<char>, path: Seq<char>) -> bool {
        self.declares(path) && self.matches_path(net, path)
    }

    /// `path` is the only declared path that matches the net.
    pub open spec fn is_only_match(self, net: Seq<char>, path: Seq<char>) -> bool {
        self.is_match(net, path) && forall|q: Seq<char>| #[trigger]
            self.is_match(net, q) ==> q == path
    }

    /// The declared paths with the net's leaf that match the net.
    pub open spec fn hits(self, net: Seq<char>) -> Seq<Seq<char>> {
        self.paths(leaf(net)).filter(|p: Seq<char>| self.matches_path(net, p))
    }

    /// The transitions of the one signal that a net names, if it is one.
    pub open spec fn resolution(self, net: Seq<char>) -> Option<u64> {
        if self.hits(net).len() == 1 {
            Some(self.count(self.hits(net)[0]))
        } else {
            None
        }
    }

    /// The leaves declared under more than one path.
    pub open spec fn colliding(self) -> Set<Seq<char>> {
        self.by_leaf.dom().filter(|l: Seq<char>| self.by_leaf[l].len() > 1)
    }
}

/// Transition counts by full path, an index from leaf names to full paths, and
/// an optional design scope.
pub struct NetIndex {
    /// Full hierarchical path to transition count.
    pub toggles: NameMap<u64>,
    /// Leaf name to the declared full paths.
    pub by_leaf: NameMap<Vec<String>>,
    /// Design instance path.
    pub scope: Option<String>,
}

/// An optional text by its characters.
pub open spec fn opt_text(s: Option<String>) -> Option<Seq<char>> {
    match s {
        Some(t) => Some(t@),
        None => None,
    }
}

impl View for NetIndex {
    type V = NetIndexView;

    open spec fn view(&self) -> NetIndexView {
        NetIndexView {
            toggles: self.toggles@,
            by_leaf: Map::new(
                |l: Seq<char>| self.by_leaf@.contains_key(l),
                |l: Seq<char>| self.by_leaf@[l].deep_view(),
            ),
            scope: opt_text(self.scope),
        }
    }
}

impl Default for NetIndex {
    fn default() -> (r: NetIndex)
        ensures
            r@ == (NetIndexView {
                toggles: Map::empty(),
                by_leaf: Map::empty(),
                scope: None,
            }),
    {
        let r = NetIndex { toggles: NameMap::new(), by_leaf: NameMap::new(), scope: None };
        assert(r@.by_leaf =~= Map::<Seq<char>, Seq<Seq<char>>>::empty());
        r
    }
}

impl Clone for NetIndex {
    fn clone(&self) -> (r: NetIndex)
        ensures
            r@ == self@,
    {
        let r = NetIndex {
            toggles: self.toggles.clone(),
            by_leaf: self.by_leaf.clone(),
            scope: self.scope.clone(),
        };
        proof {
            assert(r@.toggles =~= self@.toggles);
            assert forall|l: Seq<char>| self.by_leaf@.contains_key(l) implies r.by_leaf@[l].deep_view()
                == self.by_leaf@[l].deep_view() by {
                let (a, b) = (self.by_leaf@[l], r.by_leaf@[l]);
                assert(cloned::<Vec<String>>(a, b));
                assert(a.deep_view() =~= b.deep_view());
            }
            assert(r@.by_leaf =~= self@.by_leaf);
        }
        r
    }
}

/// Is `path` among the paths?
fn has_path(paths: &Vec<String>, path: &str) -> (r: bool)
    ensures
        r == paths.deep_view().contains(path@),
{
    let n: usize = paths.len();
    let mut i: usize = 0;
    while i < n
        invariant
            n == paths@.len(),
            i <= n,
            forall|k: int| 0 <= k < i ==> #[trigger] paths.deep_view()[k] != path@,
        decreases n - i,
    {
        assert(paths.deep_view()[i as int] == paths@[i as int]@);
        if str_eq(paths[i].as_str(), path) {
            return true;
        }
        i += 1;
    }
    false
}

impl NetIndex {
    /// Records a declared signal: its leaf is indexed for resolution and
    /// collision detection. Declaring a path again changes nothing.
    pub fn declare(&mut self, full_path: &str)
        ensures
            final(self)@ == old(self)@.declared(full_path@),
            old(self)@.sound() ==> final(self)@.sound(),
    {
        let ghost was = self@;
        let l = leaf_of(full_path);
        let mut paths: Vec<String> = match self.by_leaf.get(l) {
            Some(v) => {
                let c = v.clone();
                assert(c.deep_view() =~= v.deep_view());
                c
            },
            None => Vec::new(),
        };
        assert(paths.deep_view() =~= was.paths(leaf(full_path@)));
        if !has_path(&paths, full_path) {
            let ghost before = paths.deep_view();
            paths.push(full_path.to_owned());
            assert(paths.deep_view() =~= before.push(full_path@));
        }
        self.by_leaf.insert(l.to_owned(), paths);
        proof {
            assert(self@.by_leaf =~= was.declared(full_path@).by_leaf);
            if was.sound() {
                lemma_declare_keeps_sound(was, full_path@);
            }
        }
    }

    /// Adds `n` transitions to `full_path`.
    pub fn add_toggles(&mut self, full_path: &str, n: u64)
        requires
            old(self)@.count(full_path@) + n <= u64::MAX,
        ensures
            final(self)@ == old(self)@.counted(full_path@, n as int),
    {
        let ghost was = self@;
        let before: u64 = match self.toggles.get(full_path) {
            Some(k) => *k,
            None => 0,
        };
        self.toggles.insert(full_path.to_owned(), before + n);
        assert(self@.by_leaf =~= was.by_leaf);
    }

    /// Resolves a netlist net to the transition count of the one signal that
    /// matches it. `None` where no signal does, or more than one: the caller falls
    /// back to the vectorless factor.
    pub fn resolve(&self, net: &str) -> (r: Option<u64>)
        ensures
            r == self@.resolution(net@),
    {
        let target: String = match &self.scope {
            Some(s) => {
                let mut t = s.clone();
                t.push('.');
                t.append(net);
                assert(t@ =~= dotted(s@, net@));
                t
            },
            None => net.to_owned(),
        };
        let mut dot_target = String::new();
        dot_target.push('.');
        dot_target.append(target.as_str());
        assert(dot_target@ =~= seq!['.'] + target@);
        let cands = match self.by_leaf.get(leaf_of(net)) {
            Some(c) => c,
            None => {
                return None;
            },
        };
        let ghost paths = self@.paths(leaf(net@));
        let ghost pred = |p: Seq<char>| self@.matches_path(net@, p);
        assert(cands.deep_view() =~= paths);
        let n: usize = cands.len();
        let mut i: usize = 0;
        let mut found: usize = 0;
        let mut first: usize = 0;
        assert(paths.take(0).filter(pred) =~= Seq::empty());
        while i < n
            invariant
                n == cands@.len(),
                cands.deep_view() == paths,
                paths == self@.paths(leaf(net@)),
                pred == (|p: Seq<char>| self@.matches_path(net@, p)),
                target@ == self@.target(net@),
                dot_target@ == seq!['.'] + target@,
                i <= n,
                found <= i,
                found == paths.take(i as int).filter(pred).len(),
                found == 1 ==> first < n && paths.take(i as int).filter(pred)[0]
                    == cands@[first as int]@,
            decreases n - i,
        {
            proof {
                reveal(Seq::filter);
                assert(paths.take(i + 1).drop_last() =~= paths.take(i as int));
                assert(paths.take(i + 1).last() == cands@[i as int]@);
            }
            let p = cands[i].as_str();
            if str_eq(p, target.as_str()) || strip_suffix(p, dot_target.as_str()).is_some() {
                if found == 0 {
                    first = i;
                }
                found += 1;
            }
            i += 1;
        }
        assert(paths.take(n as int) =~= paths);
        if found == 1 {
            match self.toggles.get(cands[first].as_str()) {
                Some(k) => Some(*k),
                None => Some(0),
            }
        } else {
            None
        }
    }

    /// The leaf names declared under more than one path. While no scope is set,
    /// lookups of these bare leaves are ambiguous.
    pub fn colliding_leaves(&self) -> (r: Vec<String>)
        ensures
            r.deep_view().no_duplicates(),
            r.deep_view().to_set() == self@.colliding(),
    {
        let n: usize = self.by_leaf.len();
        let ghost names = self.by_leaf.names();
        let mut list: Vec<String> = Vec::new();
        let mut i: usize = 0;
        while i < n
            invariant
                n == names.len(),
                names == self.by_leaf.names(),
                names.no_duplicates(),
                i <= n,
                list.deep_view().no_duplicates(),
                forall|l: Seq<char>| #[trigger]
                    list.deep_view().contains(l) <==> names.take(i as int).contains(l)
                        && self@.by_leaf[l].len() > 1,
            decreases n - i,
        {
            let ghost before = list.deep_view();
            let v = self.by_leaf.value_at(i);
            let ghost l = names[i as int];
            let ghost (a, b) = (names.take(i as int), names.take(i + 1));
            proof {
                assert(self@.by_leaf[l] == v.deep_view());
                assert(b =~= a.push(l));
                assert(!a.contains(l)) by {
                    if a.contains(l) {
                        assert(names[a.index_of(l)] == names[i as int]);
                    }
                }
                assert forall|k: Seq<char>| b.contains(k) <==> a.contains(k) || k == l by {
                    if a.contains(k) {
                        assert(b[a.index_of(k)] == k);
                    }
                    assert(b[i as int] == l);
                }
            }
            if v.len() > 1 {
                list.push(self.by_leaf.name_at(i).clone());
                proof {
                    let now = list.deep_view();
                    assert(now =~= before.push(l));
                    assert forall|k: Seq<char>| #[trigger] now.contains(k) <==> before.contains(k) || k
                        == l by {
                        if before.contains(k) {
                            assert(now[before.index_of(k)] == k);
                        }
                        assert(now[before.len() as int] == l);
                    }
                    assert(!before.contains(l));
                    assert forall|x: int, y: int|
                        0 <= x < now.len() && 0 <= y < now.len() && x != y implies now[x]
                        != now[y] by {
                        if x < before.len() {
                            assert(before.contains(before[x]));
                        }
                        if y < before.len() {
                            assert(before.contains(before[y]));
                        }
                    }
                }
            }
            i += 1;
        }
        proof {
            assert(names.take(n as int) =~= names);
            assert(list.deep_view().to_set() =~= self@.colliding());
        }
        list
    }

    /// The number of leaf names declared under more than one path. While it is
    /// not zero and no scope is set, lookups of those bare leaves are ambiguous.
    pub fn collisions(&self) -> (r: usize)
        ensures
            r == self@.colliding().len(),
    {
        let leaves = self.colliding_leaves();
        proof {
            leaves.deep_view().unique_seq_to_set();
        }
        leaves.len()
    }
}

pub(crate) proof fn lemma_declare_keeps_sound(v: NetIndexView, path: Seq<char>)
    requires
        v.sound(),
    ensures
        v.declared(path).sound(),
{
    let w = v.declared(path);
    assert forall|l: Seq<char>| #[trigger] w.by_leaf.contains_key(l) implies w.by_leaf[l].no_duplicates()
        && forall|i: int| 0 <= i < w.by_leaf[l].len() ==> leaf(#[trigger] w.by_leaf[l][i]) == l by {
        if l == leaf(path) {
            let was = v.paths(l);
            if v.by_leaf.contains_key(l) {
                assert(v.by_leaf[l] == was);
            }
            if !was.contains(path) {
                assert forall|i: int, j: int|
                    0 <= i < was.push(path).len() && 0 <= j < was.push(path).len() && i
                        != j implies was.push(path)[i] != was.push(path)[j] by {
                    if i == was.len() {
                        assert(was.contains(was[j]));
                    }
                    if j == was.len() {
                        assert(was.contains(was[i]));
                    }
                }
            }
        } else {
            assert(v.by_leaf.contains_key(l));
        }
    }
}

/// Declaring a path twice is declaring it once.
pub proof fn declaring_again_changes_nothing(v: NetIndexView, path: Seq<char>)
    ensures
        v.declared(path).declared(path) == v.declared(path),
        v.declared(path).declares(path),
{
    let w = v.declared(path);
    let was = v.paths(leaf(path));
    assert(w.paths(leaf(path)).contains(path)) by {
        if !was.contains(path) {
            assert(was.push(path)[was.len() as int] == path);
        }
    }
    assert(w.declared(path).by_leaf =~= w.by_leaf);
}

/// Declaring a path forgets no other one.
pub proof fn declaring_forgets_nothing(v: NetIndexView, path: Seq<char>, other: Seq<char>)
    requires
        v.declares(other),
    ensures
        v.declared(path).declares(other),
{
    let was = v.paths(leaf(path));
    if leaf(other) == leaf(path) && !was.contains(path) {
        let i = was.index_of(other);
        assert(was.push(path)[i] == other);
    }
}

/// Transitions add up: counting `n` and `m` is counting `n + m`.
pub proof fn counts_add_up(v: NetIndexView, path: Seq<char>, n: u64, m: u64)
    requires
        v.count(path) + n + m <= u64::MAX,
    ensures
        v.counted(path, n as int).counted(path, m as int) == v.counted(path, n + m),
        v.counted(path, n as int).count(path) == v.count(path) + n,
{
    assert(v.counted(path, n as int).counted(path, m as int).toggles =~= v.counted(path, n + m).toggles);
}

/// A path that matches a net has the net's leaf, so the leaf index misses none.
proof fn lemma_match_has_the_leaf(v: NetIndexView, net: Seq<char>, path: Seq<char>)
    requires
        v.matches_path(net, path),
    ensures
        leaf(path) == leaf(net),
{
    let t = v.target(net);
    assert(leaf(t) == leaf(net)) by {
        match v.scope {
            Some(s) => a_scope_keeps_the_leaf(s, net),
            None => {},
        }
    }
    if path != t {
        let dot_t = seq!['.'] + t;
        let front = path.take(path.len() - dot_t.len());
        assert(path =~= dotted(front, t)) by {
            assert(path =~= front + path.skip(path.len() - dot_t.len()));
        }
        a_scope_keeps_the_leaf(front, t);
    }
}

/// The candidates under the net's leaf that match are all the matches there are.
proof fn lemma_hits_are_the_matches(v: NetIndexView, net: Seq<char>)
    requires
        v.sound(),
    ensures
        v.hits(net).no_duplicates(),
        forall|p: Seq<char>| #[trigger] v.is_match(net, p) <==> v.hits(net).contains(p),
{
    let paths = v.paths(leaf(net));
    let pred = |p: Seq<char>| v.matches_path(net, p);
    let hits = v.hits(net);
    lemma_filter_members(paths, pred);
    if v.by_leaf.contains_key(leaf(net)) {
        assert(v.by_leaf[leaf(net)] == paths);
    }
    assert forall|p: Seq<char>| #[trigger] v.is_match(net, p) <==> hits.contains(p) by {
        if v.is_match(net, p) {
            lemma_match_has_the_leaf(v, net, p);
            let i = paths.index_of(p);
            assert(pred(paths[i]));
        }
        if hits.contains(p) {
            let i = hits.index_of(p);
            assert(pred(hits[i]));
            let k = paths.index_of(hits[i]);
            assert(leaf(v.by_leaf[leaf(net)][k]) == leaf(net));
        }
    }
}

proof fn lemma_hit_alone(v: NetIndexView, net: Seq<char>)
    requires
        v.sound(),
        v.hits(net).len() == 1,
    ensures
        v.is_only_match(net, v.hits(net)[0]),
{
    let hits = v.hits(net);
    lemma_hits_are_the_matches(v, net);
    assert(hits.contains(hits[0]));
    assert forall|q: Seq<char>| #[trigger] v.is_match(net, q) implies q == hits[0] by {
        assert(hits.contains(q));
    }
}

proof fn lemma_alone_is_a_hit(v: NetIndexView, net: Seq<char>, p: Seq<char>)
    requires
        v.sound(),
        v.is_only_match(net, p),
    ensures
        v.hits(net).len() == 1,
        v.hits(net)[0] == p,
{
    let hits = v.hits(net);
    lemma_hits_are_the_matches(v, net);
    assert(v.is_match(net, p));
    let i = hits.index_of(p);
    if hits.len() > 1 {
        let k: int = if i == 0 {
            1
        } else {
            0
        };
        assert(hits.contains(hits[k]));
        assert(v.is_match(net, hits[k]));
        assert(hits[k] == hits[i]);
    }
}

/// The rule of resolution: a net resolves just when one declared path, of all
/// that are declared, is its only match, and it resolves to that path's
/// transitions. No match or a second one leaves it unresolved.
pub proof fn a_net_resolves_when_one_path_matches(v: NetIndexView, net: Seq<char>)
    requires
        v.sound(),
    ensures
        v.resolution(net) is Some <==> exists|p: Seq<char>| v.is_only_match(net, p),
        forall|p: Seq<char>|
            v.is_only_match(net, p) ==> v.resolution(net) == Some(v.count(p)),
{
    if v.hits(net).len() == 1 {
        lemma_hit_alone(v, net);
    }
    assert forall|p: Seq<char>| v.is_only_match(net, p) implies v.resolution(net) == Some(
        v.count(p),
    ) by {
        lemma_alone_is_a_hit(v, net, p);
    }
}

/// Without a scope, the leaves that collide are the declared ones that do not
/// resolve, so that the number of collisions is the number of these.
pub proof fn the_colliding_leaves_do_not_resolve(v: NetIndexView)
    requires
        v.sound(),
        v.scope is None,
    ensures
        v.colliding() == v.by_leaf.dom().filter(|l: Seq<char>| v.resolution(l) is None),
{
    assert forall|l: Seq<char>| v.by_leaf.contains_key(l) implies (v.by_leaf[l].len() > 1 <==>
        v.resolution(l) is None) by {
        let paths = v.by_leaf[l];
        let all = |p: Seq<char>| v.matches_path(l, p);
        leaf_follows_the_last_dot(paths[0]);
        assert(leaf(paths[0]) == l);
        assert(l.skip(0) =~= l);
        lemma_leaf_is(l, l);
        assert forall|i: int| 0 <= i < paths.len() implies all(#[trigger] paths[i]) by {
            let p = paths[i];
            assert(leaf(p) == l);
            leaf_follows_the_last_dot(p);
            if l.len() < p.len() {
                assert(p.skip(p.len() - l.len() - 1) =~= seq!['.'] + l);
            } else {
                assert(p.skip(0) =~= p);
            }
        }
        lemma_filter_keeps_all(paths, all);
        assert(v.hits(l) == paths);
    }
    assert(v.colliding() =~= v.by_leaf.dom().filter(|l: Seq<char>| v.resolution(l) is None));
}

proof fn lemma_filter_keeps_all(s: Seq<Seq<char>>, pred: spec_fn(Seq<char>) -> bool)
    requires
        forall|i: int| 0 <= i < s.len() ==> pred(#[trigger] s[i]),
    ensures
        s.filter(pred) == s,
    decreases s.len(),
{
    reveal(Seq::filter);
    if s.len() > 0 {
        let front = s.drop_last();
        assert forall|i: int| 0 <= i < front.len() implies pred(#[trigger] front[i]) by {
            assert(pred(s[i]));
        }
        lemma_filter_keeps_all(front, pred);
        assert(pred(s[s.len() - 1]));
        assert(front.push(s.last()) =~= s);
    } else {
        assert(s.filter(pred) =~= s);
    }
}

/// What a filter keeps comes from the sequence and meets the predicate; all that
/// does so is kept.
proof fn lemma_filter_members(s: Seq<Seq<char>>, pred: spec_fn(Seq<char>) -> bool)
    ensures
        forall|i: int|
            0 <= i < s.filter(pred).len() ==> pred(#[trigger] s.filter(pred)[i]) && s.contains(
                s.filter(pred)[i],
            ),
        forall|i: int|
            0 <= i < s.len() && pred(s[i]) ==> s.filter(pred).contains(#[trigger] s[i]),
        s.no_duplicates() ==> s.filter(pred).no_duplicates(),
    decreases s.len(),
{
    reveal(Seq::filter);
    if s.len() > 0 {
        let front = s.drop_last();
        let f = front.filter(pred);
        lemma_filter_members(front, pred);
        assert forall|i: int| 0 <= i < f.len() implies s.contains(#[trigger] f[i]) by {
            let k = front.index_of(f[i]);
            assert(s[k] == f[i]);
        }
        if pred(s.last()) {
            assert(s.filter(pred) == f.push(s.last()));
            assert(s[s.len() - 1] == s.last());
            assert(f.push(s.last())[f.len() as int] == s.last());
            assert forall|i: int| 0 <= i < s.len() && pred(s[i]) implies s.filter(pred).contains(
                #[trigger] s[i],
            ) by {
                if i < front.len() {
                    assert(f.contains(front[i]));
                    let k = f.index_of(front[i]);
                    assert(f.push(s.last())[k] == s[i]);
                }
            }
            if s.no_duplicates() {
                assert forall|i: int| 0 <= i < f.len() implies f[i] != s.last() by {
                    let k = front.index_of(f[i]);
                    assert(s[k] != s[s.len() - 1]);
                }
            }
        } else {
            assert forall|i: int| 0 <= i < s.len() && pred(s[i]) implies s.filter(pred).contains(
                #[trigger] s[i],
            ) by {
                assert(f.contains(front[i]));
            }
        }
    }
}

} // verus!
