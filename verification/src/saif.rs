//! Switching activity files (SAIF) as an activity source: the cumulative
//! counterpart to a value change dump.
//!
//! Where a dump logs every transition, a SAIF file stores for each net the time
//! spent in 0, 1 and X (`T0`, `T1`, `TX`) and a toggle count `TC`, so its size
//! goes with the design and not with the run. Nets are keyed by their full
//! `INSTANCE` path (`counter_tb.dut.clk_in`); a netlist net resolves to one by its
//! leaf and an optional scope. Where the file gives no `DURATION`, the longest
//! `T0 + T1 + TX` of a net stands for it.

use crate::double::{Double, ZERO_BITS};
use crate::name_map::NameMap;
use crate::names::{
    declaring_forgets_nothing, dotted, leaf, lemma_declare_keeps_sound, opt_text, NetIndex, NetIndexView,
};
use crate::text::{
    ascii_lowered, chars_of, eq_ignore_ascii_case, first_of, is_white, is_whitespace, join, joined, lemma_first_of,
    lemma_first_of_is, lowered, same_but_case, string_of,
};
use crate::units::{
    default_timescale, parse_timescale, timescale_of, Numerals, Timescale, TimescaleView,
};
use vstd::prelude::*;
use vstd::string::*;

verus! {

/// Why a file was refused.
#[derive(Debug)]
pub struct SaifError(pub String);

impl SaifError {
    /// The error as a sentence.
    pub fn message(&self) -> (r: String)
        ensures
            r@ == "saif error: "@ + self.0@,
    {
        let mut s = "saif error: ".to_owned();
        s.append(self.0.as_str());
        s
    }
}

// ---- tokens --------------------------------------------------------------------

/// A token of the file.
pub enum TokView {
    Open,
    Close,
    Atom(Seq<char>),
}

/// A token of the file, in executable form.
#[derive(Debug)]
pub enum Tok {
    Open,
    Close,
    Atom(String),
}

impl View for Tok {
    type V = TokView;

    open spec fn view(&self) -> TokView {
        match self {
            Tok::Open => TokView::Open,
            Tok::Close => TokView::Close,
            Tok::Atom(a) => TokView::Atom(a@),
        }
    }
}

/// The views of the tokens, in order.
pub open spec fn tok_views(toks: Seq<Tok>) -> Seq<TokView> {
    toks.map_values(|t: Tok| t@)
}

/// `c` ends a bare atom.
pub open spec fn ends_atom(c: char) -> bool {
    c == '(' || c == ')' || c == '"' || is_white(c)
}

/// How many characters at the front of `s` belong to a bare atom.
pub open spec fn atom_len(s: Seq<char>) -> nat
    decreases s.len(),
{
    if s.len() == 0 || ends_atom(s[0]) {
        0
    } else {
        1 + atom_len(s.drop_first())
    }
}

/// The tokens of a text: brackets, quoted atoms (up to the next quote, or the end
/// of the text), and bare atoms.
pub open spec fn tokens(s: Seq<char>) -> Seq<TokView>
    decreases s.len(),
    via tokens_decreases
{
    if s.len() == 0 {
        Seq::empty()
    } else if s[0] == '(' {
        seq![TokView::Open] + tokens(s.drop_first())
    } else if s[0] == ')' {
        seq![TokView::Close] + tokens(s.drop_first())
    } else if s[0] == '"' {
        let rest = s.drop_first();
        let k = first_of(rest, '"') as int;
        seq![TokView::Atom(rest.take(k))] + tokens(
            if k < rest.len() {
                rest.skip(k + 1)
            } else {
                Seq::empty()
            },
        )
    } else if is_white(s[0]) {
        tokens(s.drop_first())
    } else {
        seq![TokView::Atom(s.take(atom_len(s) as int))] + tokens(s.skip(atom_len(s) as int))
    }
}

#[via_fn]
proof fn tokens_decreases(s: Seq<char>) {
    lemma_atom_len(s);
    if s.len() > 0 {
        lemma_first_of(s.drop_first(), '"');
    }
}

pub(crate) proof fn lemma_atom_len(s: Seq<char>)
    ensures
        atom_len(s) <= s.len(),
        forall|i: int| 0 <= i < atom_len(s) ==> !ends_atom(#[trigger] s[i]),
        atom_len(s) < s.len() ==> ends_atom(s[atom_len(s) as int]),
        s.len() > 0 && !ends_atom(s[0]) ==> atom_len(s) > 0,
    decreases s.len(),
{
    if s.len() > 0 && !ends_atom(s[0]) {
        let t = s.drop_first();
        lemma_atom_len(t);
        assert forall|i: int| 0 <= i < atom_len(s) implies !ends_atom(#[trigger] s[i]) by {
            if i > 0 {
                assert(s[i] == t[i - 1]);
            }
        }
    }
}

proof fn lemma_atom_len_is(s: Seq<char>, n: nat)
    requires
        n <= s.len(),
        forall|i: int| 0 <= i < n ==> !ends_atom(#[trigger] s[i]),
        n < s.len() ==> ends_atom(s[n as int]),
    ensures
        atom_len(s) == n,
{
    lemma_atom_len(s);
    if atom_len(s) < n {
        assert(!ends_atom(s[atom_len(s) as int]));
    }
    if n < atom_len(s) {
        assert(!ends_atom(s[n as int]));
    }
}

/// The token, if any, that starts at place `i`, and where the next one may start.
fn read_token(cs: &Vec<char>, i: usize) -> (r: (Option<Tok>, usize))
    requires
        i < cs@.len(),
    ensures
        i < r.1 <= cs@.len(),
        tokens(cs@.skip(i as int)) == (match r.0 {
            Some(t) => seq![t@],
            None => Seq::empty(),
        }) + tokens(cs@.skip(r.1 as int)),
{
    let ghost here = cs@.skip(i as int);
    let n: usize = cs.len();
    let c = cs[i];
    proof {
        assert(here[0] == c);
        assert(here.drop_first() =~= cs@.skip(i + 1));
        assert(Seq::<TokView>::empty() + tokens(cs@.skip(i + 1)) =~= tokens(cs@.skip(i + 1)));
    }
    if c == '(' {
        return (Some(Tok::Open), i + 1);
    }
    if c == ')' {
        return (Some(Tok::Close), i + 1);
    }
    if c == '"' {
        let mut j: usize = i + 1;
        while j < n && cs[j] != '"'
            invariant
                n == cs@.len(),
                i < j <= n,
                forall|k: int| i < k < j ==> #[trigger] cs@[k] != '"',
            decreases n - j,
        {
            j += 1;
        }
        let a = string_of(cs, i + 1, j);
        let next: usize = if j < n {
            j + 1
        } else {
            n
        };
        proof {
            let rest = cs@.skip(i + 1);
            lemma_first_of_is(rest, '"', (j - i - 1) as nat);
            assert(rest.take(j - i - 1) =~= a@);
            if j < n {
                assert(rest.skip(j - i - 1 + 1) =~= cs@.skip(next as int));
            } else {
                assert(cs@.skip(next as int) =~= Seq::<char>::empty());
            }
        }
        return (Some(Tok::Atom(a)), next);
    }
    if is_whitespace(c) {
        return (None, i + 1);
    }
    let mut j: usize = i;
    while j < n && !(cs[j] == '(' || cs[j] == ')' || cs[j] == '"' || is_whitespace(cs[j]))
        invariant
            n == cs@.len(),
            i <= j <= n,
            forall|k: int| i <= k < j ==> !ends_atom(#[trigger] cs@[k]),
        decreases n - j,
    {
        j += 1;
    }
    let a = string_of(cs, i, j);
    proof {
        lemma_atom_len_is(here, (j - i) as nat);
        assert(here.take(j - i) =~= a@);
        assert(here.skip(j - i) =~= cs@.skip(j as int));
        lemma_atom_len(here);
    }
    (Some(Tok::Atom(a)), j)
}

/// Splits a text into tokens.
pub fn tokenize(text: &str) -> (r: Vec<Tok>)
    ensures
        tok_views(r@) == tokens(text@),
{
    let cs = chars_of(text);
    let n: usize = cs.len();
    let mut toks: Vec<Tok> = Vec::new();
    let mut i: usize = 0;
    assert(cs@.skip(0) =~= cs@);
    assert(tok_views(toks@) + tokens(cs@) =~= tokens(cs@));
    while i < n
        invariant
            n == cs@.len(),
            i <= n,
            tok_views(toks@) + tokens(cs@.skip(i as int)) == tokens(cs@),
        decreases n - i,
    {
        let ghost before = tok_views(toks@);
        let (t, next) = read_token(&cs, i);
        match t {
            Some(tok) => {
                let ghost v = tok@;
                toks.push(tok);
                assert(tok_views(toks@) =~= before.push(v));
                assert(before.push(v) + tokens(cs@.skip(next as int)) =~= before + (seq![v]
                    + tokens(cs@.skip(next as int))));
            },
            None => {
                assert(Seq::<TokView>::empty() + tokens(cs@.skip(next as int)) =~= tokens(
                    cs@.skip(next as int),
                ));
            },
        }
        i = next;
    }
    assert(cs@.skip(n as int) =~= Seq::<char>::empty());
    assert(tok_views(toks@) + Seq::<TokView>::empty() =~= tok_views(toks@));
    toks
}

// ---- trees ---------------------------------------------------------------------

/// What the brackets of a file make of its atoms.
#[verifier::ext_equal]
pub enum Tree {
    Atom(Seq<char>),
    List(Seq<Tree>),
}

/// The tokens of a tree.
pub open spec fn tree_tokens(t: Tree) -> Seq<TokView>
    decreases t,
{
    match t {
        Tree::Atom(a) => seq![TokView::Atom(a)],
        Tree::List(items) => seq![TokView::Open] + forest_tokens(items) + seq![TokView::Close],
    }
}

/// The tokens of trees that stand one after the other.
pub open spec fn forest_tokens(f: Seq<Tree>) -> Seq<TokView>
    decreases f,
{
    if f.len() == 0 {
        Seq::empty()
    } else {
        tree_tokens(f[0]) + forest_tokens(f.drop_first())
    }
}

pub(crate) proof fn lemma_forest_push(f: Seq<Tree>, t: Tree)
    ensures
        forest_tokens(f.push(t)) == forest_tokens(f) + tree_tokens(t),
    decreases f.len(),
{
    let g = f.push(t);
    if f.len() == 0 {
        assert(g.drop_first() =~= Seq::<Tree>::empty());
        assert(forest_tokens(g.drop_first()) =~= Seq::<TokView>::empty());
        assert(forest_tokens(g) =~= tree_tokens(t));
        assert(forest_tokens(f) + tree_tokens(t) =~= tree_tokens(t));
    } else {
        assert(g.drop_first() =~= f.drop_first().push(t));
        lemma_forest_push(f.drop_first(), t);
        assert(forest_tokens(g) =~= forest_tokens(f) + tree_tokens(t));
    }
}

/// Trees that start the same run of tokens are the same tree.
proof fn lemma_tree_prefix(a: Tree, b: Tree, x: Seq<TokView>, y: Seq<TokView>)
    requires
        tree_tokens(a) + x == tree_tokens(b) + y,
    ensures
        a == b,
        x == y,
    decreases a, 1nat,
{
    let s = tree_tokens(a) + x;
    assert(s[0] == tree_tokens(a)[0]);
    assert(s[0] == tree_tokens(b)[0]);
    match a {
        Tree::Atom(p) => {
            match b {
                Tree::Atom(q) => {
                    assert(x =~= s.skip(1));
                    assert(y =~= s.skip(1));
                },
                Tree::List(_) => {},
            }
        },
        Tree::List(f) => {
            match b {
                Tree::Atom(_) => {},
                Tree::List(g) => {
                    let close = seq![TokView::Close];
                    assert(forest_tokens(f) + close + x =~= s.skip(1));
                    assert(forest_tokens(g) + close + y =~= s.skip(1));
                    lemma_forest_prefix(f, g, x, y);
                },
            }
        },
    }
}

/// Forests that a closing bracket ends, at the start of the same run of tokens,
/// are the same forest.
proof fn lemma_forest_prefix(f: Seq<Tree>, g: Seq<Tree>, x: Seq<TokView>, y: Seq<TokView>)
    requires
        forest_tokens(f) + seq![TokView::Close] + x == forest_tokens(g) + seq![TokView::Close] + y,
    ensures
        f == g,
        x == y,
    decreases f, 0nat,
{
    let close = seq![TokView::Close];
    let s = forest_tokens(f) + close + x;
    if f.len() > 0 {
        assert(s[0] == tree_tokens(f[0])[0]);
    } else {
        assert(s[0] == TokView::Close);
    }
    if g.len() > 0 {
        assert((forest_tokens(g) + close + y)[0] == tree_tokens(g[0])[0]);
    } else {
        assert((forest_tokens(g) + close + y)[0] == TokView::Close);
    }
    if f.len() == 0 {
        assert(f =~= g);
        assert(x =~= s.skip(1));
        assert(y =~= s.skip(1));
    } else {
        assert(g.len() > 0);
        let x2 = forest_tokens(f.drop_first()) + close + x;
        let y2 = forest_tokens(g.drop_first()) + close + y;
        assert(tree_tokens(f[0]) + x2 =~= s);
        assert(tree_tokens(g[0]) + y2 =~= s);
        lemma_tree_prefix(f[0], g[0], x2, y2);
        lemma_forest_prefix(f.drop_first(), g.drop_first(), x, y);
        assert(f =~= seq![f[0]] + f.drop_first());
        assert(g =~= seq![g[0]] + g.drop_first());
    }
}

/// The tokens of a forest belong to no other forest.
pub proof fn tokens_tell_the_trees_apart(f: Seq<Tree>, g: Seq<Tree>)
    requires
        forest_tokens(f) == forest_tokens(g),
    ensures
        f == g,
{
    lemma_forest_prefix(f, g, Seq::empty(), Seq::empty());
}

/// Opening less closing brackets.
pub open spec fn depth(s: Seq<TokView>) -> int
    decreases s.len(),
{
    if s.len() == 0 {
        0
    } else {
        depth(s.drop_last()) + match s.last() {
            TokView::Open => 1int,
            TokView::Close => -1,
            TokView::Atom(_) => 0,
        }
    }
}

/// A closing bracket comes before its opening one.
pub open spec fn closes_too_soon(s: Seq<TokView>) -> bool {
    exists|k: int| 0 <= k <= s.len() && depth(#[trigger] s.take(k)) < 0
}

/// Why tokens are refused, if they are.
pub open spec fn refusal(s: Seq<TokView>) -> Option<Seq<char>> {
    if closes_too_soon(s) {
        Some("unexpected ')'"@)
    } else if depth(s) > 0 {
        Some("unbalanced '(' — missing ')'"@)
    } else {
        None
    }
}

/// The one forest that has these tokens.
pub open spec fn forest_of(s: Seq<TokView>) -> Seq<Tree> {
    choose|f: Seq<Tree>| forest_tokens(f) == s
}

/// What a text reads as: a list of its trees, or the reason to refuse it.
pub open spec fn reading(text: Seq<char>) -> Result<Tree, Seq<char>> {
    match refusal(tokens(text)) {
        Some(m) => Err(m),
        None => Ok(Tree::List(forest_of(tokens(text)))),
    }
}

proof fn lemma_depth_add(s: Seq<TokView>, t: Seq<TokView>)
    ensures
        depth(s + t) == depth(s) + depth(t),
    decreases t.len(),
{
    if t.len() == 0 {
        assert(s + t =~= s);
    } else {
        assert((s + t).drop_last() =~= s + t.drop_last());
        lemma_depth_add(s, t.drop_last());
    }
}

proof fn lemma_depth_one(t: TokView)
    ensures
        depth(seq![t]) == match t {
            TokView::Open => 1int,
            TokView::Close => -1,
            TokView::Atom(_) => 0,
        },
{
    reveal_with_fuel(depth, 2);
    assert(seq![t].drop_last() =~= Seq::<TokView>::empty());
}

/// A tree closes what it opens, and nothing sooner.
proof fn lemma_tree_depth(t: Tree)
    ensures
        tree_tokens(t).len() > 0,
        depth(tree_tokens(t)) == 0,
        forall|k: int| 0 <= k <= tree_tokens(t).len() ==> depth(#[trigger] tree_tokens(t).take(k)) >= 0,
        t is List ==> forall|k: int|
            0 < k < tree_tokens(t).len() ==> depth(#[trigger] tree_tokens(t).take(k)) > 0,
    decreases t, 1nat,
{
    let s = tree_tokens(t);
    match t {
        Tree::Atom(a) => {
            lemma_depth_one(TokView::Atom(a));
            assert forall|k: int| 0 <= k <= s.len() implies depth(#[trigger] s.take(k)) >= 0 by {
                if k == 1 {
                    assert(s.take(k) =~= s);
                } else {
                    assert(s.take(k) =~= Seq::<TokView>::empty());
                }
            }
        },
        Tree::List(f) => {
            lemma_forest_depth(f);
            let open = seq![TokView::Open];
            let inner = forest_tokens(f);
            lemma_depth_one(TokView::Open);
            lemma_depth_add(open, inner);
            assert(s.drop_last() =~= open + inner);
            assert forall|k: int| 0 < k < s.len() implies depth(#[trigger] s.take(k)) > 0 by {
                assert(s.take(k) =~= open + inner.take(k - 1));
                lemma_depth_add(open, inner.take(k - 1));
            }
            assert forall|k: int| 0 <= k <= s.len() implies depth(#[trigger] s.take(k)) >= 0 by {
                if k == s.len() {
                    assert(s.take(k) =~= s);
                } else if k > 0 {
                    assert(depth(s.take(k)) > 0);
                }
            }
        },
    }
}

proof fn lemma_forest_depth(f: Seq<Tree>)
    ensures
        depth(forest_tokens(f)) == 0,
        forall|k: int|
            0 <= k <= forest_tokens(f).len() ==> depth(#[trigger] forest_tokens(f).take(k)) >= 0,
    decreases f, 0nat,
{
    let s = forest_tokens(f);
    if f.len() > 0 {
        let a = tree_tokens(f[0]);
        let b = forest_tokens(f.drop_first());
        lemma_tree_depth(f[0]);
        lemma_forest_depth(f.drop_first());
        lemma_depth_add(a, b);
        assert forall|k: int| 0 <= k <= s.len() implies depth(#[trigger] s.take(k)) >= 0 by {
            if k <= a.len() {
                assert(s.take(k) =~= a.take(k));
            } else {
                assert(s.take(k) =~= a + b.take(k - a.len()));
                lemma_depth_add(a, b.take(k - a.len()));
            }
        }
    }
}

/// A text whose tokens are those of a forest reads as that forest.
pub proof fn a_forest_reads_as_itself(text: Seq<char>, f: Seq<Tree>)
    requires
        tokens(text) == forest_tokens(f),
    ensures
        reading(text) == Ok::<Tree, Seq<char>>(Tree::List(f)),
{
    lemma_forest_depth(f);
    tokens_tell_the_trees_apart(f, forest_of(tokens(text)));
}

/// A tree, in executable form.
#[derive(Debug)]
pub enum Node {
    Atom(String),
    List(Vec<Node>),
}

impl Node {
    /// The tree that the node stands for.
    pub open spec fn tree(self) -> Tree
        decreases self,
    {
        match self {
            Node::Atom(a) => Tree::Atom(a@),
            Node::List(items) => Tree::List(
                Seq::new(
                    items@.len(),
                    |i: int|
                        if 0 <= i < items@.len() {
                            items@[i].tree()
                        } else {
                            Tree::List(Seq::empty())
                        },
                ),
            ),
        }
    }
}

/// The trees that the nodes stand for.
pub open spec fn trees(items: Seq<Node>) -> Seq<Tree> {
    Seq::new(items.len(), |i: int| items[i].tree())
}

proof fn lemma_tree_of_list(items: Vec<Node>)
    ensures
        Node::List(items).tree() == Tree::List(trees(items@)),
{
    let t = Node::List(items).tree();
    assert(t->List_0 =~= trees(items@));
}

/// Why no tree can be read from place `pos`, if none can.
spec fn node_refusal(s: Seq<TokView>, pos: int) -> Option<Seq<char>> {
    if pos >= s.len() {
        Some("unexpected end of input"@)
    } else {
        match s[pos] {
            TokView::Close => Some("unexpected ')'"@),
            TokView::Atom(_) => None,
            TokView::Open => if stays_open(s, pos) {
                Some("unbalanced '(' — missing ')'"@)
            } else {
                None
            },
        }
    }
}

/// What opens at place `pos` is not closed.
spec fn stays_open(s: Seq<TokView>, pos: int) -> bool {
    forall|m: int| pos < m <= s.len() ==> depth(#[trigger] s.subrange(pos, m)) > 0
}

fn refuse(msg: &str) -> (r: SaifError)
    ensures
        r.0@ == msg@,
{
    SaifError(msg.to_owned())
}

/// Reads the tree that starts at place `pos`.
fn parse_node(toks: &Vec<Tok>, pos: &mut usize) -> (r: Result<Node, SaifError>)
    ensures
        match r {
            Ok(n) => {
                &&& *old(pos) < *final(pos) <= toks@.len()
                &&& tree_tokens(n.tree()) == tok_views(toks@).subrange(
                    *old(pos) as int,
                    *final(pos) as int,
                )
            },
            Err(e) => node_refusal(tok_views(toks@), *old(pos) as int) == Some(e.0@),
        },
    decreases toks@.len() - *old(pos),
{
    let ghost views = tok_views(toks@);
    let ghost start = *pos as int;
    if *pos >= toks.len() {
        return Err(refuse("unexpected end of input"));
    }
    assert(views[start] == toks@[start]@);
    match &toks[*pos] {
        Tok::Close => Err(refuse("unexpected ')'")),
        Tok::Atom(a) => {
            let n = Node::Atom(a.clone());
            *pos = *pos + 1;
            assert(views.subrange(start, start + 1) =~= seq![TokView::Atom(a@)]);
            Ok(n)
        },
        Tok::Open => {
            *pos = *pos + 1;
            let mut items: Vec<Node> = Vec::new();
            proof {
                assert(trees(items@) =~= Seq::<Tree>::empty());
                assert(views.subrange(start, start + 1) =~= seq![TokView::Open] + forest_tokens(
                    trees(items@),
                ));
            }
            loop
                invariant
                    views == tok_views(toks@),
                    start == *old(pos),
                    start < *pos <= toks@.len(),
                    views[start] == TokView::Open,
                    views.subrange(start, *pos as int) == seq![TokView::Open] + forest_tokens(
                        trees(items@),
                    ),
                decreases toks@.len() - *pos,
            {
                if *pos >= toks.len() {
                    proof {
                        lemma_still_open(views, start, *pos as int, trees(items@));
                    }
                    return Err(refuse("unbalanced '(' — missing ')'"));
                }
                let ghost cur = *pos as int;
                assert(views[cur] == toks@[cur]@);
                if let Tok::Close = &toks[*pos] {
                    *pos = *pos + 1;
                    proof {
                        lemma_tree_of_list(items);
                        assert(views.subrange(start, cur + 1) =~= views.subrange(start, cur)
                            + seq![TokView::Close]);
                    }
                    return Ok(Node::List(items));
                }
                match parse_node(toks, pos) {
                    Ok(n) => {
                        proof {
                            lemma_forest_push(trees(items@), n.tree());
                            assert(trees(items@.push(n)) =~= trees(items@).push(n.tree()));
                            assert(views.subrange(start, *pos as int) =~= views.subrange(start, cur)
                                + views.subrange(cur, *pos as int));
                            assert(seq![TokView::Open] + forest_tokens(trees(items@)) + tree_tokens(
                                n.tree(),
                            ) =~= seq![TokView::Open] + (forest_tokens(trees(items@)) + tree_tokens(
                                n.tree(),
                            )));
                        }
                        items.push(n);
                    },
                    Err(e) => {
                        proof {
                            lemma_still_open_inside(views, start, cur, trees(items@));
                        }
                        return Err(e);
                    },
                }
            }
        },
    }
}

/// An opening bracket and whole trees behind it leave the bracket open.
proof fn lemma_still_open(s: Seq<TokView>, start: int, end: int, f: Seq<Tree>)
    requires
        0 <= start < end <= s.len(),
        s.subrange(start, end) == seq![TokView::Open] + forest_tokens(f),
    ensures
        forall|m: int| start < m <= end ==> depth(#[trigger] s.subrange(start, m)) > 0,
        depth(s.subrange(start, end)) == 1,
{
    let open = seq![TokView::Open];
    let inner = forest_tokens(f);
    lemma_forest_depth(f);
    lemma_depth_one(TokView::Open);
    lemma_depth_add(open, inner);
    assert forall|m: int| start < m <= end implies depth(#[trigger] s.subrange(start, m)) > 0 by {
        let k = m - start - 1;
        assert(s.subrange(start, m) =~= s.subrange(start, end).take(k + 1));
        assert((open + inner).take(k + 1) =~= open + inner.take(k));
        lemma_depth_add(open, inner.take(k));
    }
}

/// What stays open inside leaves open what is around it.
proof fn lemma_still_open_inside(s: Seq<TokView>, start: int, cur: int, f: Seq<Tree>)
    requires
        0 <= start < cur < s.len(),
        s.subrange(start, cur) == seq![TokView::Open] + forest_tokens(f),
        stays_open(s, cur),
    ensures
        stays_open(s, start),
{
    lemma_still_open(s, start, cur, f);
    assert forall|m: int| start < m <= s.len() implies depth(#[trigger] s.subrange(start, m))
        > 0 by {
        if m > cur {
            assert(s.subrange(start, m) =~= s.subrange(start, cur) + s.subrange(cur, m));
            lemma_depth_add(s.subrange(start, cur), s.subrange(cur, m));
        }
    }
}

/// Behind whole trees, a bracket that closes nothing closes too soon.
proof fn lemma_closes_too_soon(s: Seq<TokView>, pos: int, f: Seq<Tree>)
    requires
        0 <= pos < s.len(),
        s.take(pos) == forest_tokens(f),
        s[pos] == TokView::Close,
    ensures
        closes_too_soon(s),
{
    lemma_forest_depth(f);
    assert(s.take(pos + 1).drop_last() =~= s.take(pos));
    assert(depth(s.take(pos + 1)) < 0);
}

/// Behind whole trees, a bracket that stays open unbalances the whole.
proof fn lemma_unbalanced(s: Seq<TokView>, pos: int, f: Seq<Tree>)
    requires
        0 <= pos < s.len(),
        s.take(pos) == forest_tokens(f),
        stays_open(s, pos),
    ensures
        !closes_too_soon(s),
        depth(s) > 0,
{
    lemma_forest_depth(f);
    assert(s =~= s.take(pos) + s.subrange(pos, s.len() as int));
    lemma_depth_add(s.take(pos), s.subrange(pos, s.len() as int));
    assert forall|k: int| 0 <= k <= s.len() implies depth(#[trigger] s.take(k)) >= 0 by {
        if k <= pos {
            assert(s.take(k) =~= s.take(pos).take(k));
        } else {
            assert(s.take(k) =~= s.take(pos) + s.subrange(pos, k));
            lemma_depth_add(s.take(pos), s.subrange(pos, k));
        }
    }
}

impl Node {
    /// Reads a text as one list of its trees.
    pub fn parse(text: &str) -> (r: Result<Node, SaifError>)
        ensures
            match r {
                Ok(n) => reading(text@) == Ok::<Tree, Seq<char>>(n.tree()),
                Err(e) => reading(text@) == Err::<Tree, Seq<char>>(e.0@),
            },
    {
        let toks = tokenize(text);
        let ghost views = tokens(text@);
        let n: usize = toks.len();
        let mut pos: usize = 0;
        let mut roots: Vec<Node> = Vec::new();
        assert(trees(roots@) =~= Seq::<Tree>::empty());
        assert(views.take(0) =~= Seq::<TokView>::empty());
        assert(views.len() == n);
        while pos < n
            invariant
                n == toks@.len(),
                n == views.len(),
                views == tok_views(toks@),
                views == tokens(text@),
                pos <= n,
                views.take(pos as int) == forest_tokens(trees(roots@)),
            decreases n - pos,
        {
            let ghost cur = pos as int;
            match parse_node(&toks, &mut pos) {
                Ok(node) => {
                    proof {
                        lemma_forest_push(trees(roots@), node.tree());
                        assert(trees(roots@.push(node)) =~= trees(roots@).push(node.tree()));
                        assert(views.take(pos as int) =~= views.take(cur) + views.subrange(
                            cur,
                            pos as int,
                        ));
                    }
                    roots.push(node);
                },
                Err(e) => {
                    proof {
                        match views[cur] {
                            TokView::Close => {
                                lemma_closes_too_soon(views, cur, trees(roots@));
                            },
                            _ => {
                                lemma_unbalanced(views, cur, trees(roots@));
                            },
                        }
                    }
                    return Err(e);
                },
            }
        }
        proof {
            assert(views.take(n as int) =~= views);
            lemma_tree_of_list(roots);
            a_forest_reads_as_itself(text@, trees(roots@));
        }
        Ok(Node::List(roots))
    }
}

// ---- what a tree says ----------------------------------------------------------

/// The atom that a list starts with.
pub open spec fn head_of(t: Tree) -> Option<Seq<char>> {
    match t {
        Tree::List(items) => if items.len() > 0 && items[0] is Atom {
            Some(items[0]->Atom_0)
        } else {
            None
        },
        Tree::Atom(_) => None,
    }
}

/// The list starts with the atom `key`, in any case.
pub open spec fn headed(t: Tree, key: Seq<char>) -> bool {
    match head_of(t) {
        Some(h) => same_but_case(h, key),
        None => false,
    }
}

/// The atoms among the trees.
pub open spec fn atoms(f: Seq<Tree>) -> Seq<Seq<char>>
    decreases f.len(),
{
    if f.len() == 0 {
        Seq::empty()
    } else {
        match f[0] {
            Tree::Atom(a) => seq![a] + atoms(f.drop_first()),
            Tree::List(_) => atoms(f.drop_first()),
        }
    }
}

/// The atoms behind the head of the first list, in pre-order, that `key` heads.
pub open spec fn found(t: Tree, key: Seq<char>) -> Option<Seq<Seq<char>>>
    decreases t, 0nat,
{
    match t {
        Tree::Atom(_) => None,
        Tree::List(items) => if headed(t, key) {
            Some(atoms(items.drop_first()))
        } else {
            found_from(items, 0, key)
        },
    }
}

/// What `found` gives of the first of the trees, from place `i` on, that it finds
/// something in.
pub open spec fn found_from(items: Seq<Tree>, i: nat, key: Seq<char>) -> Option<Seq<Seq<char>>>
    decreases items, items.len() - i,
{
    if i >= items.len() {
        None
    } else {
        match found(items[i as int], key) {
            Some(v) => Some(v),
            None => found_from(items, i + 1, key),
        }
    }
}

/// `found`, but that the name of a net is no key: the head of a list that `nets_of`
/// takes for a net says nothing of the file.
pub open spec fn header(t: Tree, key: Seq<char>) -> Option<Seq<Seq<char>>>
    decreases t, 0nat,
{
    match t {
        Tree::Atom(_) => None,
        Tree::List(items) => if headed(t, key) {
            Some(atoms(items.drop_first()))
        } else if headed(t, "INSTANCE"@) {
            match found_at(items, 1, key) {
                Some(v) => Some(v),
                None => header_from(items, 2, key),
            }
        } else if headed(t, "NET"@) {
            group_header(items, 1, key)
        } else {
            header_from(items, 0, key)
        },
    }
}

/// What `found` gives of the tree at place `i`, if there is one.
pub open spec fn found_at(items: Seq<Tree>, i: int, key: Seq<char>) -> Option<Seq<Seq<char>>> {
    if i < items.len() {
        found(items[i], key)
    } else {
        None
    }
}

/// What `found` gives of the first list of a `NET` group, from place `i` on, that
/// it finds something in, be it not the list itself.
pub open spec fn group_header(items: Seq<Tree>, i: nat, key: Seq<char>) -> Option<Seq<Seq<char>>>
    decreases items.len() - i,
{
    if i >= items.len() {
        None
    } else {
        match inside(items[i as int], key) {
            Some(v) => Some(v),
            None => group_header(items, i + 1, key),
        }
    }
}

/// What `found` gives of the parts of a list.
pub open spec fn inside(t: Tree, key: Seq<char>) -> Option<Seq<Seq<char>>> {
    match t {
        Tree::Atom(_) => None,
        Tree::List(items) => found_from(items, 0, key),
    }
}

/// What `header` gives of the first of the trees, from place `i` on, that it finds
/// something in.
pub open spec fn header_from(items: Seq<Tree>, i: nat, key: Seq<char>) -> Option<Seq<Seq<char>>>
    decreases items, items.len() - i,
{
    if i >= items.len() {
        None
    } else {
        match header(items[i as int], key) {
            Some(v) => Some(v),
            None => header_from(items, i + 1, key),
        }
    }
}

/// The first of the atoms that were found.
pub open spec fn first_atom(v: Option<Seq<Seq<char>>>) -> Option<Seq<char>> {
    match v {
        Some(a) => if a.len() > 0 {
            Some(a[0])
        } else {
            None
        },
        None => None,
    }
}

/// The first atom of an entry of a net, which stands behind the name of the net.
pub open spec fn net_entry(t: Tree, key: Seq<char>) -> Option<Seq<char>> {
    match t {
        Tree::Atom(_) => None,
        Tree::List(items) => first_atom(found_from(items, 1, key)),
    }
}

/// An optional list of texts by their characters.
pub open spec fn opt_texts(v: Option<Vec<String>>) -> Option<Seq<Seq<char>>> {
    match v {
        Some(x) => Some(x.deep_view()),
        None => None,
    }
}

fn atoms_behind_head(items: &Vec<Node>) -> (r: Vec<String>)
    requires
        items@.len() > 0,
    ensures
        r.deep_view() == atoms(trees(items@).drop_first()),
{
    let ghost all = trees(items@);
    let n: usize = items.len();
    let mut r: Vec<String> = Vec::new();
    let mut i: usize = 1;
    assert(all.skip(1) =~= all.drop_first());
    assert(r.deep_view() + atoms(all.skip(1)) =~= atoms(all.skip(1)));
    while i < n
        invariant
            n == items@.len(),
            all == trees(items@),
            1 <= i <= n,
            r.deep_view() + atoms(all.skip(i as int)) == atoms(all.drop_first()),
        decreases n - i,
    {
        let ghost before = r.deep_view();
        proof {
            assert(all.skip(i as int)[0] == items@[i as int].tree());
            assert(all.skip(i as int).drop_first() =~= all.skip(i + 1));
        }
        if let Node::Atom(a) = &items[i] {
            r.push(a.clone());
            assert(r.deep_view() =~= before.push(a@));
            assert(before.push(a@) + atoms(all.skip(i + 1)) =~= before + (seq![a@] + atoms(
                all.skip(i + 1),
            )));
        }
        i += 1;
    }
    assert(all.skip(n as int) =~= Seq::<Tree>::empty());
    assert(r.deep_view() + Seq::<Seq<char>>::empty() =~= r.deep_view());
    r
}

impl Node {
    /// The atom that a list starts with.
    pub fn head(&self) -> (r: Option<&str>)
        ensures
            match r {
                Some(h) => head_of(self.tree()) == Some(h@),
                None => head_of(self.tree()) is None,
            },
    {
        match self {
            Node::Atom(_) => None,
            Node::List(items) => {
                proof {
                    lemma_tree_of_list(*items);
                }
                if items.len() == 0 {
                    return None;
                }
                assert(trees(items@)[0] == items@[0].tree());
                match &items[0] {
                    Node::Atom(a) => Some(a.as_str()),
                    Node::List(_) => None,
                }
            },
        }
    }

    fn is_headed(&self, key: &str) -> (r: bool)
        ensures
            r == headed(self.tree(), key@),
    {
        match self.head() {
            Some(h) => eq_ignore_ascii_case(h, key),
            None => false,
        }
    }

    /// Finds the first list, in pre-order, that `key` heads in any case, and gives
    /// the atoms behind its head.
    pub fn find_kv(&self, key: &str) -> (r: Option<Vec<String>>)
        ensures
            opt_texts(r) == found(self.tree(), key@),
        decreases self,
    {
        match self {
            Node::Atom(_) => None,
            Node::List(items) => {
                proof {
                    lemma_tree_of_list(*items);
                }
                if self.is_headed(key) {
                    return Some(atoms_behind_head(items));
                }
                let n: usize = items.len();
                let mut i: usize = 0;
                while i < n
                    invariant
                        n == items@.len(),
                        *self == Node::List(*items),
                        i <= n,
                        found(self.tree(), key@) == found_from(trees(items@), i as nat, key@),
                    decreases n - i,
                {
                    assert(trees(items@)[i as int] == items@[i as int].tree());
                    if let Some(v) = items[i].find_kv(key) {
                        return Some(v);
                    }
                    i += 1;
                }
                None
            },
        }
    }

    /// `find_kv`, of the parts of a list from place `start` on.
    fn find_from(items: &Vec<Node>, start: usize, key: &str) -> (r: Option<Vec<String>>)
        ensures
            opt_texts(r) == found_from(trees(items@), start as nat, key@),
    {
        let n: usize = items.len();
        let mut i: usize = start;
        while i < n
            invariant
                n == items@.len(),
                start <= i,
                found_from(trees(items@), start as nat, key@) == found_from(
                    trees(items@),
                    i as nat,
                    key@,
                ),
            decreases n - i,
        {
            assert(trees(items@)[i as int] == items@[i as int].tree());
            if let Some(v) = items[i].find_kv(key) {
                return Some(v);
            }
            i += 1;
        }
        None
    }

    fn find_in_group(items: &Vec<Node>, key: &str) -> (r: Option<Vec<String>>)
        ensures
            opt_texts(r) == group_header(trees(items@), 1, key@),
    {
        let n: usize = items.len();
        let mut i: usize = 1;
        while i < n
            invariant
                n == items@.len(),
                1 <= i,
                group_header(trees(items@), 1, key@) == group_header(
                    trees(items@),
                    i as nat,
                    key@,
                ),
            decreases n - i,
        {
            assert(trees(items@)[i as int] == items@[i as int].tree());
            if let Node::List(parts) = &items[i] {
                proof {
                    lemma_tree_of_list(*parts);
                }
                if let Some(v) = Node::find_from(parts, 0, key) {
                    return Some(v);
                }
            }
            i += 1;
        }
        None
    }

    /// `find_kv`, but that the name of a net is no key.
    pub fn find_header(&self, key: &str) -> (r: Option<Vec<String>>)
        ensures
            opt_texts(r) == header(self.tree(), key@),
        decreases self,
    {
        match self {
            Node::Atom(_) => None,
            Node::List(items) => {
                proof {
                    lemma_tree_of_list(*items);
                }
                if self.is_headed(key) {
                    return Some(atoms_behind_head(items));
                }
                let n: usize = items.len();
                let mut i: usize = 0;
                if self.is_headed("INSTANCE") {
                    if n > 1 {
                        assert(trees(items@)[1] == items@[1].tree());
                        if let Some(v) = items[1].find_kv(key) {
                            return Some(v);
                        }
                    }
                    i = 2;
                } else if self.is_headed("NET") {
                    return Node::find_in_group(items, key);
                }
                while i < n
                    invariant
                        n == items@.len(),
                        *self == Node::List(*items),
                        header(self.tree(), key@) == header_from(trees(items@), i as nat, key@),
                    decreases n - i,
                {
                    assert(trees(items@)[i as int] == items@[i as int].tree());
                    if let Some(v) = items[i].find_header(key) {
                        return Some(v);
                    }
                    i += 1;
                }
                None
            },
        }
    }

    /// Finds an entry of a net.
    fn find_entry(&self, key: &str) -> (r: Option<String>)
        ensures
            opt_text(r) == net_entry(self.tree(), key@),
    {
        match self {
            Node::Atom(_) => None,
            Node::List(items) => {
                proof {
                    lemma_tree_of_list(*items);
                }
                take_first(Node::find_from(items, 1, key))
            },
        }
    }
}

fn take_first(v: Option<Vec<String>>) -> (r: Option<String>)
    ensures
        opt_text(r) == first_atom(opt_texts(v)),
{
    match v {
        Some(a) => {
            assert(a.deep_view().len() == a@.len());
            if a.len() > 0 {
                assert(a.deep_view()[0] == a@[0]@);
                Some(a[0].clone())
            } else {
                None
            }
        },
        None => None,
    }
}

// ---- the nets of a file --------------------------------------------------------

/// A net as the file gives it: its full path, and the texts of its toggle count
/// and of its times in 0, 1 and X.
#[verifier::ext_equal]
pub struct NetView {
    pub path: Seq<char>,
    pub tc: Option<Seq<char>>,
    pub t0: Option<Seq<char>>,
    pub t1: Option<Seq<char>>,
    pub tx: Option<Seq<char>>,
}

/// A `NetView`, in executable form.
#[derive(Debug)]
pub struct Net {
    pub path: String,
    pub tc: Option<String>,
    pub t0: Option<String>,
    pub t1: Option<String>,
    pub tx: Option<String>,
}

impl View for Net {
    type V = NetView;

    open spec fn view(&self) -> NetView {
        NetView {
            path: self.path@,
            tc: opt_text(self.tc),
            t0: opt_text(self.t0),
            t1: opt_text(self.t1),
            tx: opt_text(self.tx),
        }
    }
}

/// The views of the nets, in order.
pub open spec fn net_views(nets: Seq<Net>) -> Seq<NetView> {
    nets.map_values(|n: Net| n@)
}

/// The path of a leaf below the instances.
pub open spec fn full_path(path: Seq<Seq<char>>, leaf: Seq<char>) -> Seq<char> {
    if path.len() == 0 {
        leaf
    } else {
        dotted(joined(path, "."@), leaf)
    }
}

/// The instances around the parts of an `INSTANCE` list: one more where the list
/// names it.
pub open spec fn inner_path(items: Seq<Tree>, path: Seq<Seq<char>>) -> Seq<Seq<char>> {
    if items.len() > 1 && items[1] is Atom {
        path.push(items[1]->Atom_0)
    } else {
        path
    }
}

/// The net that a list of a `NET` group gives.
pub open spec fn net_of(t: Tree, path: Seq<Seq<char>>) -> NetView {
    NetView {
        path: full_path(path, head_of(t).unwrap()),
        tc: net_entry(t, "TC"@),
        t0: net_entry(t, "T0"@),
        t1: net_entry(t, "T1"@),
        tx: net_entry(t, "TX"@),
    }
}

/// The nets of a `NET` group, from place `i` on: its lists that an atom heads.
pub open spec fn group_nets(items: Seq<Tree>, i: nat, path: Seq<Seq<char>>) -> Seq<NetView>
    decreases items.len() - i,
{
    if i >= items.len() {
        Seq::empty()
    } else if head_of(items[i as int]) is Some {
        seq![net_of(items[i as int], path)] + group_nets(items, i + 1, path)
    } else {
        group_nets(items, i + 1, path)
    }
}

/// The nets of a tree below the instances `path`, in order: `INSTANCE` lists add
/// to the path, `NET` lists hold the nets, and every other list is looked through.
pub open spec fn nets_of(t: Tree, path: Seq<Seq<char>>) -> Seq<NetView>
    decreases t, 0nat,
{
    match t {
        Tree::Atom(_) => Seq::empty(),
        Tree::List(items) => if headed(t, "INSTANCE"@) {
            nets_from(items, 2, inner_path(items, path))
        } else if headed(t, "NET"@) {
            group_nets(items, 1, path)
        } else {
            nets_from(items, 0, path)
        },
    }
}

/// The nets of the trees from place `i` on.
pub open spec fn nets_from(items: Seq<Tree>, i: nat, path: Seq<Seq<char>>) -> Seq<NetView>
    decreases items, items.len() - i,
{
    if i >= items.len() {
        Seq::empty()
    } else {
        nets_of(items[i as int], path) + nets_from(items, i + 1, path)
    }
}

/// No `INSTANCE` list that the nets are looked for in stands alone: each has at
/// least a name behind its head.
pub open spec fn walkable(t: Tree) -> bool
    decreases t, 0nat,
{
    match t {
        Tree::Atom(_) => true,
        Tree::List(items) => if headed(t, "INSTANCE"@) {
            items.len() >= 2 && walkable_from(items, 2)
        } else if headed(t, "NET"@) {
            true
        } else {
            walkable_from(items, 0)
        },
    }
}

/// `walkable`, of the trees from place `i` on.
pub open spec fn walkable_from(items: Seq<Tree>, i: nat) -> bool
    decreases items, items.len() - i,
{
    i >= items.len() || (walkable(items[i as int]) && walkable_from(items, i + 1))
}

fn path_text(path: &Vec<String>, leaf: &str) -> (r: String)
    ensures
        r@ == full_path(path.deep_view(), leaf@),
{
    assert(path.deep_view().len() == path@.len());
    if path.len() == 0 {
        leaf.to_owned()
    } else {
        let mut s = join(path, ".");
        s.push('.');
        s.append(leaf);
        assert(s@ =~= dotted(joined(path.deep_view(), "."@), leaf@));
        s
    }
}

impl Node {
    /// Is each `INSTANCE` list that the nets are looked for in long enough?
    pub fn is_walkable(&self) -> (r: bool)
        ensures
            r == walkable(self.tree()),
        decreases self,
    {
        match self {
            Node::Atom(_) => true,
            Node::List(items) => {
                proof {
                    lemma_tree_of_list(*items);
                }
                let n: usize = items.len();
                let mut i: usize = 0;
                if self.is_headed("INSTANCE") {
                    if n < 2 {
                        return false;
                    }
                    i = 2;
                } else if self.is_headed("NET") {
                    return true;
                }
                while i < n
                    invariant
                        n == items@.len(),
                        *self == Node::List(*items),
                        i <= n,
                        walkable(self.tree()) == walkable_from(trees(items@), i as nat),
                    decreases n - i,
                {
                    assert(trees(items@)[i as int] == items@[i as int].tree());
                    if !items[i].is_walkable() {
                        return false;
                    }
                    i += 1;
                }
                true
            },
        }
    }

    fn push_group(items: &Vec<Node>, path: &Vec<String>, out: &mut Vec<Net>)
        ensures
            net_views(final(out)@) == net_views(old(out)@) + group_nets(
                trees(items@),
                1,
                path.deep_view(),
            ),
    {
        let ghost all = trees(items@);
        let ghost p = path.deep_view();
        let ghost before = net_views(out@);
        let n: usize = items.len();
        let mut i: usize = 1;
        while i < n
            invariant
                n == items@.len(),
                all == trees(items@),
                p == path.deep_view(),
                1 <= i,
                i <= n || (n == 0 && i == 1),
                net_views(out@) + group_nets(all, i as nat, p) == before + group_nets(all, 1, p),
            decreases n - i,
        {
            let ghost now = net_views(out@);
            assert(all[i as int] == items@[i as int].tree());
            if let Some(leaf) = items[i].head() {
                let net = Net {
                    path: path_text(path, leaf),
                    tc: items[i].find_entry("TC"),
                    t0: items[i].find_entry("T0"),
                    t1: items[i].find_entry("T1"),
                    tx: items[i].find_entry("TX"),
                };
                let ghost v = net@;
                out.push(net);
                assert(v == net_of(all[i as int], p));
                assert(net_views(out@) =~= now.push(v));
                assert(now.push(v) + group_nets(all, (i + 1) as nat, p) =~= now + (seq![v]
                    + group_nets(all, (i + 1) as nat, p)));
            }
            i += 1;
        }
        assert(group_nets(all, i as nat, p) =~= Seq::<NetView>::empty());
        assert(net_views(out@) + Seq::<NetView>::empty() =~= net_views(out@));
    }

    /// Appends the nets of the tree below the instances `path`, which is the same
    /// again afterwards.
    pub fn walk_scoped(&self, path: &mut Vec<String>, out: &mut Vec<Net>)
        requires
            walkable(self.tree()),
        ensures
            net_views(final(out)@) == net_views(old(out)@) + nets_of(
                self.tree(),
                old(path).deep_view(),
            ),
            final(path).deep_view() == old(path).deep_view(),
        decreases self,
    {
        let ghost p = path.deep_view();
        let ghost before = net_views(out@);
        match self {
            Node::Atom(_) => {
                assert(before + Seq::<NetView>::empty() =~= before);
            },
            Node::List(items) => {
                proof {
                    lemma_tree_of_list(*items);
                }
                let n: usize = items.len();
                let mut start: usize = 0;
                let mut named: bool = false;
                if self.is_headed("INSTANCE") {
                    start = 2;
                    assert(trees(items@)[1] == items@[1].tree());
                    if let Node::Atom(a) = &items[1] {
                        path.push(a.clone());
                        named = true;
                        assert(path.deep_view() =~= p.push(a@));
                    }
                } else if self.is_headed("NET") {
                    Node::push_group(items, path, out);
                    return;
                }
                let ghost q = path.deep_view();
                let mut i: usize = start;
                while i < n
                    invariant
                        n == items@.len(),
                        *self == Node::List(*items),
                        start <= i <= n,
                        path.deep_view() == q,
                        walkable_from(trees(items@), i as nat),
                        net_views(out@) + nets_from(trees(items@), i as nat, q) == before
                            + nets_from(trees(items@), start as nat, q),
                    decreases n - i,
                {
                    let ghost now = net_views(out@);
                    assert(trees(items@)[i as int] == items@[i as int].tree());
                    assert(decreases_to!(*self => self->List_0));
                    items[i].walk_scoped(path, out);
                    assert(now + nets_of(trees(items@)[i as int], q) + nets_from(
                        trees(items@),
                        (i + 1) as nat,
                        q,
                    ) =~= now + (nets_of(trees(items@)[i as int], q) + nets_from(
                        trees(items@),
                        (i + 1) as nat,
                        q,
                    )));
                    i += 1;
                }
                assert(net_views(out@) + Seq::<NetView>::empty() =~= net_views(out@));
                if named {
                    path.pop();
                    assert(path.deep_view() =~= q.drop_last());
                    assert(q.drop_last() =~= p);
                }
            },
        }
    }
}

// ---- the file as a whole -------------------------------------------------------

/// What a file says: its time scale, the text of its duration, and its nets.
#[verifier::ext_equal]
pub struct SaifFileView {
    pub timescale: TimescaleView,
    pub duration: Option<Seq<char>>,
    pub nets: Seq<NetView>,
}

/// A `SaifFileView`, in executable form.
#[derive(Debug)]
pub struct SaifFile {
    pub timescale: Timescale,
    pub duration: Option<String>,
    pub nets: Vec<Net>,
}

impl View for SaifFile {
    type V = SaifFileView;

    open spec fn view(&self) -> SaifFileView {
        SaifFileView {
            timescale: self.timescale@,
            duration: opt_text(self.duration),
            nets: net_views(self.nets@),
        }
    }
}

/// What the trees of a file say.
pub open spec fn file_of(root: Tree) -> SaifFileView {
    SaifFileView {
        timescale: match header(root, "TIMESCALE"@) {
            Some(v) => timescale_of(lowered(joined(v, ""@))),
            None => default_timescale(),
        },
        duration: first_atom(header(root, "DURATION"@)),
        nets: nets_of(root, Seq::empty()),
    }
}

/// The text can be read to its end: it is refused, or its nets can be looked for.
pub open spec fn readable(text: Seq<char>) -> bool {
    reading(text) matches Ok(root) ==> walkable(root)
}

/// What a file that is not refused says.
pub open spec fn file_in(text: Seq<char>) -> SaifFileView {
    file_of(reading(text)->Ok_0)
}

/// The toggle count of a net: its `TC` without what follows the point, and 0
/// where it has none.
pub open spec fn count_of(net: NetView, nums: Numerals) -> u64 {
    match net.tc {
        Some(text) => match nums.value(text, None) {
            Some(x) => x.truncated(),
            None => 0,
        },
        None => 0,
    }
}

/// The index of the first `n` nets.
pub open spec fn index_of(nets: Seq<NetView>, nums: Numerals, n: int) -> NetIndexView
    decreases n,
{
    if n <= 0 {
        NetIndexView { toggles: Map::empty(), by_leaf: Map::empty(), scope: None }
    } else {
        let net = nets[n - 1];
        index_of(nets, nums, n - 1).declared(net.path).counted(net.path, count_of(net, nums) as int)
    }
}

/// The toggle counts at a path, among the first `n` nets, together.
pub open spec fn total_at(nets: Seq<NetView>, nums: Numerals, n: int, path: Seq<char>) -> nat
    decreases n,
{
    if n <= 0 {
        0
    } else if nets[n - 1].path == path {
        total_at(nets, nums, n - 1, path) + count_of(nets[n - 1], nums) as nat
    } else {
        total_at(nets, nums, n - 1, path)
    }
}

/// The counts at each path together are no more than a `u64` holds.
pub open spec fn totals_fit(nets: Seq<NetView>, nums: Numerals) -> bool {
    forall|path: Seq<char>| #[trigger] total_at(nets, nums, nets.len() as int, path) <= u64::MAX
}

/// The longest of the first `n` spans, and 0 where none is longer.
pub open spec fn longest(spans: Seq<Double>, n: int) -> Double
    decreases n,
{
    if n <= 0 {
        Double { bits: ZERO_BITS }
    } else if longest(spans, n - 1).below(spans[n - 1]) {
        spans[n - 1]
    } else {
        longest(spans, n - 1)
    }
}

/// The number that the duration of a file reads as.
pub open spec fn duration_value(file: SaifFileView, nums: Numerals) -> Option<Double> {
    match file.duration {
        Some(text) => nums.value(text, None),
        None => None,
    }
}

/// The length of the run, in units of the time scale: the duration where it is
/// positive, and else the longest span of a net.
pub open spec fn run_units(file: SaifFileView, nums: Numerals, spans: Seq<Double>) -> Double {
    match duration_value(file, nums) {
        Some(d) => if d.positive() {
            d
        } else {
            longest(spans, spans.len() as int)
        },
        None => longest(spans, spans.len() as int),
    }
}

/// Toggle counts of the nets of a file, and the length of the run that they were
/// counted in: `run_units` units of the time scale.
pub struct Saif {
    /// Toggle counts by full path, with the design scope.
    pub idx: NetIndex,
    /// The length of the run, in units of the time scale.
    pub run_units: Double,
    /// The time scale.
    pub timescale: Timescale,
}

impl Default for Saif {
    /// No nets, over a run without a length.
    fn default() -> (r: Saif)
        ensures
            r.idx@ == (NetIndexView {
                toggles: Map::empty(),
                by_leaf: Map::empty(),
                scope: None,
            }),
            r.run_units == (Double { bits: ZERO_BITS }),
            r.timescale@ == default_timescale(),
    {
        Saif {
            idx: Default::default(),
            run_units: Double { bits: ZERO_BITS },
            timescale: Timescale::new(),
        }
    }
}

impl Clone for Saif {
    fn clone(&self) -> (r: Saif)
        ensures
            r.idx@ == self.idx@,
            r.run_units == self.run_units,
            r.timescale@ == self.timescale@,
    {
        Saif {
            idx: self.idx.clone(),
            run_units: self.run_units,
            timescale: self.timescale.copy(),
        }
    }
}

fn longest_span(spans: &Vec<Double>) -> (r: Double)
    ensures
        r == longest(spans@, spans@.len() as int),
{
    let n: usize = spans.len();
    let mut r = Double { bits: ZERO_BITS };
    let mut i: usize = 0;
    while i < n
        invariant
            n == spans@.len(),
            i <= n,
            r == longest(spans@, i as int),
        decreases n - i,
    {
        if r.lt(&spans[i]) {
            r = spans[i];
        }
        i += 1;
    }
    r
}

fn toggle_count(net: &Net, nums: &Numerals) -> (r: u64)
    ensures
        r == count_of(net@, *nums),
{
    match &net.tc {
        Some(text) => match nums.get(text.as_str(), None) {
            Some(x) => x.to_u64(),
            None => 0,
        },
        None => 0,
    }
}

proof fn lemma_totals_grow(nets: Seq<NetView>, nums: Numerals, a: int, b: int, path: Seq<char>)
    requires
        a <= b,
    ensures
        total_at(nets, nums, a, path) <= total_at(nets, nums, b, path),
    decreases b - a,
{
    if a < b {
        lemma_totals_grow(nets, nums, a, b - 1, path);
    }
}

/// What the index counts at a path is what the nets at that path count together,
/// and it declares the paths of the nets and no others.
pub proof fn the_index_counts_every_net(
    nets: Seq<NetView>,
    nums: Numerals,
    n: int,
    path: Seq<char>,
)
    requires
        0 <= n <= nets.len(),
        totals_fit(nets, nums),
    ensures
        index_of(nets, nums, n).count(path) == total_at(nets, nums, n, path),
        index_of(nets, nums, n).declares(path) <==> exists|i: int|
            0 <= i < n && (#[trigger] nets[i]).path == path,
        index_of(nets, nums, n).sound(),
        index_of(nets, nums, n).scope is None,
    decreases n,
{
    if n > 0 {
        let net = nets[n - 1];
        let before = index_of(nets, nums, n - 1);
        the_index_counts_every_net(nets, nums, n - 1, path);
        the_index_counts_every_net(nets, nums, n - 1, net.path);
        lemma_totals_grow(nets, nums, n, nets.len() as int, path);
        lemma_totals_grow(nets, nums, n, nets.len() as int, net.path);
        assert(total_at(nets, nums, nets.len() as int, path) <= u64::MAX);
        assert(total_at(nets, nums, nets.len() as int, net.path) <= u64::MAX);
        lemma_declare_keeps_sound(before, net.path);
        let after = before.declared(net.path);
        if before.declares(path) {
            declaring_forgets_nothing(before, net.path, path);
        }
        let p = before.paths(leaf(net.path));
        if !p.contains(net.path) {
            assert(p.push(net.path)[p.len() as int] == net.path);
        }
        assert(after.declares(net.path));
        assert(index_of(nets, nums, n).by_leaf == after.by_leaf);
        assert(index_of(nets, nums, n).declares(path) == after.declares(path));
        if after.declares(path) && !before.declares(path) && path != net.path {
            if leaf(path) == leaf(net.path) {
                let i = after.paths(leaf(path)).index_of(path);
                if !p.contains(net.path) && i < p.len() {
                    assert(p[i] == path);
                }
            }
        }
        if path == net.path {
            assert(nets[n - 1].path == path);
        }
        if before.declares(path) {
            let i = choose|i: int| 0 <= i < n - 1 && (#[trigger] nets[i]).path == path;
            assert(nets[i].path == path);
        }
        if exists|i: int| 0 <= i < n && (#[trigger] nets[i]).path == path {
            let i = choose|i: int| 0 <= i < n && (#[trigger] nets[i]).path == path;
            if i < n - 1 {
                assert(nets[i].path == path);
            }
        }
    } else {
        assert(!index_of(nets, nums, n).paths(leaf(path)).contains(path));
    }
}

proof fn lemma_found_behind(a: Seq<Tree>, b: Seq<Tree>, i: nat, key: Seq<char>)
    requires
        a.len() == b.len(),
        forall|k: int| i <= k < a.len() ==> a[k] == b[k],
    ensures
        found_from(a, i, key) == found_from(b, i, key),
    decreases a.len() - i,
{
    if i < a.len() {
        lemma_found_behind(a, b, i + 1, key);
    }
}

/// What a net counts and how long it lasts does not depend on what it is called:
/// nets with the same entries behind their names have the same count and times.
pub proof fn the_name_of_a_net_is_no_entry(
    name: Seq<char>,
    other: Seq<char>,
    entries: Seq<Tree>,
    path: Seq<Seq<char>>,
)
    ensures
        (NetView {
            path: full_path(path, name),
            ..net_of(Tree::List(seq![Tree::Atom(other)] + entries), path)
        }) == net_of(Tree::List(seq![Tree::Atom(name)] + entries), path),
{
    let a = seq![Tree::Atom(name)] + entries;
    let b = seq![Tree::Atom(other)] + entries;
    lemma_found_behind(a, b, 1, "TC"@);
    lemma_found_behind(a, b, 1, "T0"@);
    lemma_found_behind(a, b, 1, "T1"@);
    lemma_found_behind(a, b, 1, "TX"@);
}

/// A list of a `NET` group has this name, among those from place `i` on.
pub open spec fn called_among(items: Seq<Tree>, i: nat, name: Seq<char>) -> bool
    decreases items.len() - i,
{
    i < items.len() && (headed(items[i as int], name) || called_among(items, i + 1, name))
}

/// A net that `nets_of` finds in the tree has this name, in any case.
pub open spec fn has_net_called(t: Tree, name: Seq<char>) -> bool
    decreases t, 0nat,
{
    match t {
        Tree::Atom(_) => false,
        Tree::List(items) => if headed(t, "INSTANCE"@) {
            has_net_from(items, 2, name)
        } else if headed(t, "NET"@) {
            called_among(items, 1, name)
        } else {
            has_net_from(items, 0, name)
        },
    }
}

/// `has_net_called`, of the trees from place `i` on.
pub open spec fn has_net_from(items: Seq<Tree>, i: nat, name: Seq<char>) -> bool
    decreases items, items.len() - i,
{
    i < items.len() && (has_net_called(items[i as int], name) || has_net_from(items, i + 1, name))
}

/// Only the names of nets are passed over: where no net is called like the key, its
/// first list, in pre-order and wherever it stands, tells the time scale or the
/// duration.
pub proof fn the_first_list_of_a_key_tells_it(t: Tree, key: Seq<char>)
    requires
        !has_net_called(t, key),
    ensures
        header(t, key) == found(t, key),
    decreases t, 0nat,
{
    if let Tree::List(items) = t {
        if headed(t, key) {
        } else if headed(t, "INSTANCE"@) {
            assert(found(items[0], key) is None);
            reveal_with_fuel(found_from, 3);
            lemma_header_is_found(items, 2, key);
        } else if headed(t, "NET"@) {
            assert(found(items[0], key) is None);
            lemma_group_is_found(items, 1, key);
        } else {
            lemma_header_is_found(items, 0, key);
        }
    }
}

proof fn lemma_header_is_found(items: Seq<Tree>, i: nat, key: Seq<char>)
    requires
        !has_net_from(items, i, key),
    ensures
        header_from(items, i, key) == found_from(items, i, key),
    decreases items, items.len() - i,
{
    if i < items.len() {
        the_first_list_of_a_key_tells_it(items[i as int], key);
        lemma_header_is_found(items, i + 1, key);
    }
}

proof fn lemma_group_is_found(items: Seq<Tree>, i: nat, key: Seq<char>)
    requires
        !called_among(items, i, key),
    ensures
        group_header(items, i, key) == found_from(items, i, key),
    decreases items.len() - i,
{
    if i < items.len() {
        assert(inside(items[i as int], key) == found(items[i as int], key));
        lemma_group_is_found(items, i + 1, key);
    }
}

/// The names of nets do not tell the time scale or the duration of a file: a `NET`
/// group without a list of the key inside its nets, wherever it stands among other
/// trees, changes neither.
pub proof fn a_group_of_nets_is_no_header(
    front: Seq<Tree>,
    group: Seq<Tree>,
    back: Seq<Tree>,
    i: nat,
    key: Seq<char>,
)
    requires
        headed(Tree::List(group), "NET"@),
        !headed(Tree::List(group), key),
        forall|k: int| 1 <= k < group.len() ==> inside(#[trigger] group[k], key) is None,
        i <= front.len(),
    ensures
        header_from(front + seq![Tree::List(group)] + back, i, key) == header_from(
            front + back,
            i,
            key,
        ),
    decreases front.len() - i,
{
    let with = front + seq![Tree::List(group)] + back;
    let without = front + back;
    if i < front.len() {
        assert(with[i as int] == without[i as int]);
        a_group_of_nets_is_no_header(front, group, back, i + 1, key);
    } else {
        assert(with[i as int] == Tree::List(group));
        lemma_group_without(group, 1, key);
        reveal_strlit("NET");
        reveal_strlit("INSTANCE");
        let head = head_of(Tree::List(group)).unwrap();
        assert(ascii_lowered(head).len() == ascii_lowered("NET"@).len());
        assert(ascii_lowered("INSTANCE"@).len() == 8);
        assert(!headed(Tree::List(group), "INSTANCE"@));
        assert(header(Tree::List(group), key) is None);
        lemma_header_shifted(with, without, i, key);
    }
}

proof fn lemma_group_without(items: Seq<Tree>, i: nat, key: Seq<char>)
    requires
        forall|k: int| i <= k < items.len() ==> inside(#[trigger] items[k], key) is None,
    ensures
        group_header(items, i, key) is None,
    decreases items.len() - i,
{
    if i < items.len() {
        lemma_group_without(items, i + 1, key);
    }
}

proof fn lemma_header_shifted(a: Seq<Tree>, b: Seq<Tree>, i: nat, key: Seq<char>)
    requires
        a.len() == b.len() + 1,
        forall|k: int| i <= k < b.len() ==> #[trigger] b[k] == a[k + 1],
    ensures
        header_from(a, i + 1, key) == header_from(b, i, key),
    decreases b.len() - i,
{
    if i < b.len() {
        assert(b[i as int] == a[i as int + 1]);
        lemma_header_shifted(a, b, i + 1, key);
    }
}

/// No span of a net is longer than the longest one.
pub proof fn no_span_is_longer(spans: Seq<Double>, n: int, i: int)
    requires
        0 <= i < n <= spans.len(),
    ensures
        !longest(spans, n).below(spans[i]),
        (Double { bits: ZERO_BITS }).at_most(longest(spans, n)),
    decreases n,
{
    lemma_longest_is_number(spans, n - 1);
    if i < n - 1 {
        no_span_is_longer(spans, n - 1, i);
    }
}

proof fn lemma_longest_is_number(spans: Seq<Double>, n: int)
    ensures
        (Double { bits: ZERO_BITS }).at_most(longest(spans, n)),
    decreases n,
{
    if n > 0 {
        lemma_longest_is_number(spans, n - 1);
    }
}

impl Saif {
    /// Can the text be read to its end?
    pub fn is_readable(text: &str) -> (r: bool)
        ensures
            r == readable(text@),
    {
        match Node::parse(text) {
            Ok(root) => root.is_walkable(),
            Err(_) => true,
        }
    }

    /// What a file says, with its numbers as texts.
    pub fn scan(text: &str) -> (r: Result<SaifFile, SaifError>)
        requires
            readable(text@),
        ensures
            match r {
                Ok(f) => reading(text@) is Ok && f@ == file_in(text@),
                Err(e) => reading(text@) == Err::<Tree, Seq<char>>(e.0@),
            },
    {
        let root = match Node::parse(text) {
            Ok(n) => n,
            Err(e) => {
                return Err(e);
            },
        };
        let timescale = match root.find_header("TIMESCALE") {
            Some(v) => parse_timescale(join(&v, "").as_str()),
            None => Timescale::new(),
        };
        let duration = take_first(root.find_header("DURATION"));
        let mut nets: Vec<Net> = Vec::new();
        let mut path: Vec<String> = Vec::new();
        proof {
            assert(path.deep_view() =~= Seq::<Seq<char>>::empty());
            assert(net_views(nets@) =~= Seq::<NetView>::empty());
            let all = nets_of(root.tree(), Seq::empty());
            assert(Seq::<NetView>::empty() + all =~= all);
        }
        root.walk_scoped(&mut path, &mut nets);
        Ok(SaifFile { timescale, duration, nets })
    }

    /// Are the counts at each path together no more than a `u64` holds?
    pub fn counts_fit(file: &SaifFile, nums: &Numerals) -> (r: bool)
        ensures
            r == totals_fit(file@.nets, *nums),
    {
        let ghost nets = net_views(file.nets@);
        let n: usize = file.nets.len();
        let mut totals: NameMap<u64> = NameMap::new();
        let mut i: usize = 0;
        while i < n
            invariant
                n == file.nets@.len(),
                nets == net_views(file.nets@),
                i <= n,
                forall|p: Seq<char>|
                    #[trigger] total_at(nets, *nums, i as int, p) == if totals@.contains_key(p) {
                        totals@[p] as nat
                    } else {
                        0
                    },
            decreases n - i,
        {
            let net = &file.nets[i];
            assert(nets[i as int] == net@);
            let before: u64 = match totals.get(net.path.as_str()) {
                Some(k) => *k,
                None => 0,
            };
            assert(total_at(nets, *nums, i as int, net.path@) == before);
            match before.checked_add(toggle_count(net, nums)) {
                Some(sum) => {
                    let ghost was = totals@;
                    totals.insert(net.path.clone(), sum);
                    proof {
                        assert forall|p: Seq<char>|
                            #[trigger] total_at(nets, *nums, i + 1, p) == if totals@.contains_key(p) {
                                totals@[p] as nat
                            } else {
                                0
                            } by {
                            assert(total_at(nets, *nums, i as int, p) == if was.contains_key(p) {
                                was[p] as nat
                            } else {
                                0
                            });
                        }
                    }
                },
                None => {
                    proof {
                        lemma_totals_grow(nets, *nums, i + 1, nets.len() as int, net.path@);
                        assert(total_at(nets, *nums, nets.len() as int, net.path@) > u64::MAX);
                    }
                    return false;
                },
            }
            i += 1;
        }
        true
    }

    /// Reads a file. `nums` gives the numbers that its texts read as, and `spans`
    /// the time `T0 + T1 + TX` of each net.
    pub fn parse(text: &str, nums: &Numerals, spans: &Vec<Double>) -> (r: Result<Saif, SaifError>)
        requires
            readable(text@),
            reading(text@) is Ok ==> spans@.len() == file_in(text@).nets.len() && totals_fit(
                file_in(text@).nets,
                *nums,
            ),
        ensures
            match r {
                Ok(s) => {
                    &&& reading(text@) is Ok
                    &&& s.idx@ == index_of(
                        file_in(text@).nets,
                        *nums,
                        file_in(text@).nets.len() as int,
                    )
                    &&& s.run_units == run_units(file_in(text@), *nums, spans@)
                    &&& s.timescale@ == file_in(text@).timescale
                },
                Err(e) => reading(text@) == Err::<Tree, Seq<char>>(e.0@),
            },
    {
        let file = match Saif::scan(text) {
            Ok(f) => f,
            Err(e) => {
                return Err(e);
            },
        };
        let ghost nets = net_views(file.nets@);
        let n: usize = file.nets.len();
        assert(nets.len() == n);
        let mut idx: NetIndex = Default::default();
        let mut i: usize = 0;
        while i < n
            invariant
                n == file.nets@.len(),
                nets == net_views(file.nets@),
                totals_fit(nets, *nums),
                i <= n,
                idx@ == index_of(nets, *nums, i as int),
            decreases n - i,
        {
            let net = &file.nets[i];
            assert(nets[i as int] == net@);
            let count: u64 = toggle_count(net, nums);
            proof {
                the_index_counts_every_net(nets, *nums, i as int, net.path@);
                lemma_totals_grow(nets, *nums, i + 1, nets.len() as int, net.path@);
                assert(total_at(nets, *nums, nets.len() as int, net.path@) <= u64::MAX);
            }
            idx.declare(net.path.as_str());
            idx.add_toggles(net.path.as_str(), count);
            i += 1;
        }
        let duration: Option<Double> = match &file.duration {
            Some(text) => nums.get(text.as_str(), None),
            None => None,
        };
        let run_units: Double = match duration {
            Some(d) => if d.is_positive() {
                d
            } else {
                longest_span(spans)
            },
            None => longest_span(spans),
        };
        Ok(Saif { idx, run_units, timescale: file.timescale })
    }

    /// Sets the design scope that tells leaf names apart.
    pub fn with_scope(self, scope: Option<String>) -> (r: Saif)
        ensures
            r.idx@ == (NetIndexView { scope: opt_text(scope), ..self.idx@ }),
            r.run_units == self.run_units,
            r.timescale == self.timescale,
    {
        let mut s = self;
        s.idx.scope = scope;
        s
    }

    /// The number of leaf names declared under more than one path.
    pub fn collisions(&self) -> (r: usize)
        ensures
            r == self.idx@.colliding().len(),
    {
        self.idx.collisions()
    }

    /// The toggles of a net that a rate over `sim_time_s` divides: none where the
    /// net does not resolve or the run has no length.
    pub fn countable(&self, net: &str, sim_time_s: Double) -> (r: Option<u64>)
        ensures
            r == if sim_time_s.positive() {
                self.idx@.resolution(net@)
            } else {
                None
            },
    {
        if sim_time_s.is_positive() {
            self.idx.resolve(net)
        } else {
            None
        }
    }
}

} // verus!
