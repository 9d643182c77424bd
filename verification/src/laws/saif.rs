//! What reading a switching activity file promises: of its tokens and brackets, of
//! the paths of its nets, and of their entries.

use crate::double::{Double, ZERO_BITS};
use crate::saif::{
    atom_len, atoms, count_of, depth, ends_atom, file_of, forest_tokens, found, found_from,
    full_path, group_header, group_nets, head_of, header, header_from, headed, index_of, lemma_atom_len,
    lemma_forest_push, longest, net_entry, net_of, nets_from, nets_of, reading, refusal, run_units, tokens, total_at, totals_fit, tree_tokens, walkable, walkable_from, NetView, SaifFileView, TokView, Tree,
};
use crate::text::{
    ascii_lowered, is_blank, is_white, joined, lemma_first_of_is, lowered, same_but_case,
};
use crate::units::{default_timescale, timescale_of, Numerals};
use vstd::prelude::*;

verus! {

// ---- tokens --------------------------------------------------------------------

/// A bracket is a token of its own.
pub proof fn a_bracket_is_a_token(rest: Seq<char>)
    ensures
        tokens(seq!['('] + rest) == seq![TokView::Open] + tokens(rest),
        tokens(seq![')'] + rest) == seq![TokView::Close] + tokens(rest),
        tokens(Seq::empty()).len() == 0,
{
    assert((seq!['('] + rest).drop_first() =~= rest);
    assert((seq![')'] + rest).drop_first() =~= rest);
}

/// What stands between quotes is an atom, whatever it holds but a quote.
pub proof fn a_quoted_text_is_an_atom(a: Seq<char>, rest: Seq<char>)
    requires
        !a.contains('"'),
    ensures
        tokens(seq!['"'] + a + seq!['"'] + rest) == seq![TokView::Atom(a)] + tokens(rest),
        tokens(seq!['"'] + a) == seq![TokView::Atom(a)],
{
    assert forall|i: int| 0 <= i < a.len() implies #[trigger] a[i] != '"' by {
        assert(a.contains(a[i]));
    }
    let closed = seq!['"'] + a + seq!['"'] + rest;
    let inner = closed.drop_first();
    assert(inner =~= a + seq!['"'] + rest);
    assert forall|i: int| 0 <= i < a.len() implies #[trigger] inner[i] != '"' by {
        assert(inner[i] == a[i]);
    }
    assert(inner[a.len() as int] == '"');
    lemma_first_of_is(inner, '"', a.len());
    assert(inner.take(a.len() as int) =~= a);
    assert(inner.skip(a.len() as int + 1) =~= rest);
    let open = seq!['"'] + a;
    assert(open.drop_first() =~= a);
    lemma_first_of_is(a, '"', a.len());
    assert(a.take(a.len() as int) =~= a);
    assert(tokens(Seq::<char>::empty()) =~= Seq::<TokView>::empty());
    assert(tokens(open) =~= seq![TokView::Atom(a)]);
}

/// The character can stand in an atom without quotes.
pub open spec fn is_bare(c: char) -> bool {
    c != '(' && c != ')' && c != '"' && !is_white(c)
}

/// A run of other characters is an atom, up to a bracket, a quote or white space.
pub proof fn a_bare_text_is_an_atom(a: Seq<char>, rest: Seq<char>)
    requires
        a.len() > 0,
        forall|i: int| 0 <= i < a.len() ==> is_bare(#[trigger] a[i]),
        rest.len() > 0 ==> !is_bare(rest[0]),
    ensures
        tokens(a + rest) == seq![TokView::Atom(a)] + tokens(rest),
{
    let s = a + rest;
    lemma_atom_len(s);
    let k = atom_len(s) as int;
    assert(s[0] == a[0]);
    assert(is_bare(a[0]));
    if k < a.len() {
        assert(s[k] == a[k]);
        assert(is_bare(a[k]));
    }
    if k > a.len() {
        assert(!ends_atom(s[a.len() as int]));
        assert(s[a.len() as int] == rest[0]);
    }
    assert(s.take(k) =~= a);
    assert(s.skip(k) =~= rest);
}

/// White space between tokens does not count.
pub proof fn white_space_is_no_token(w: Seq<char>, rest: Seq<char>)
    requires
        is_blank(w),
    ensures
        tokens(w + rest) == tokens(rest),
    decreases w.len(),
{
    if w.len() == 0 {
        assert(w + rest =~= rest);
    } else {
        let s = w + rest;
        assert(s[0] == w[0]);
        assert(is_white(w[0]));
        assert(s.drop_first() =~= w.drop_first() + rest);
        assert(is_blank(w.drop_first()));
        white_space_is_no_token(w.drop_first(), rest);
    }
}

// ---- brackets ------------------------------------------------------------------

/// A list is its parts between brackets; trees stand one after the other.
pub proof fn a_list_is_its_parts_in_brackets(items: Seq<Tree>, t: Tree, a: Seq<char>)
    ensures
        tree_tokens(Tree::Atom(a)) == seq![TokView::Atom(a)],
        tree_tokens(Tree::List(items)) == seq![TokView::Open] + forest_tokens(items) + seq![
            TokView::Close,
        ],
        forest_tokens(Seq::empty()).len() == 0,
        forest_tokens(items.push(t)) == forest_tokens(items) + tree_tokens(t),
{
    lemma_forest_push(items, t);
}

/// Each opening bracket leads one level down, and each closing one leads back.
pub proof fn brackets_lead_down_and_back(s: Seq<TokView>, a: Seq<char>)
    ensures
        depth(Seq::empty()) == 0,
        depth(s.push(TokView::Open)) == depth(s) + 1,
        depth(s.push(TokView::Close)) == depth(s) - 1,
        depth(s.push(TokView::Atom(a))) == depth(s),
{
    assert(s.push(TokView::Open).drop_last() =~= s);
    assert(s.push(TokView::Close).drop_last() =~= s);
    assert(s.push(TokView::Atom(a)).drop_last() =~= s);
}

/// A file is refused just when a bracket closes that did not open, or one stays open;
/// the first of these is the reason that is given.
pub proof fn unbalanced_brackets_are_refused(s: Seq<TokView>)
    ensures
        (exists|n: int| 0 <= n <= s.len() && depth(#[trigger] s.take(n)) < 0) ==> refusal(s) == Some(
            "unexpected ')'"@,
        ),
        (forall|n: int| 0 <= n <= s.len() ==> depth(#[trigger] s.take(n)) >= 0) ==> (if depth(s) > 0 {
            refusal(s) == Some("unbalanced '(' — missing ')'"@)
        } else {
            refusal(s) is None
        }),
{
}

// ---- looking for a key ---------------------------------------------------------

/// The atoms of trees are those that are no lists, in order.
pub proof fn atoms_are_no_lists(f: Seq<Tree>, a: Seq<char>, items: Seq<Tree>)
    ensures
        atoms(Seq::empty()).len() == 0,
        atoms(f.push(Tree::Atom(a))) == atoms(f).push(a),
        atoms(f.push(Tree::List(items))) == atoms(f),
    decreases f.len(),
{
    let (x, y) = (f.push(Tree::Atom(a)), f.push(Tree::List(items)));
    if f.len() == 0 {
        assert(x.drop_first() =~= Seq::<Tree>::empty());
        assert(y.drop_first() =~= Seq::<Tree>::empty());
        assert(atoms(Seq::<Tree>::empty()) =~= Seq::<Seq<char>>::empty());
        assert(atoms(x) =~= seq![a]);
        assert(atoms(f).push(a) =~= seq![a]);
    } else {
        assert(x.drop_first() =~= f.drop_first().push(Tree::Atom(a)));
        assert(y.drop_first() =~= f.drop_first().push(Tree::List(items)));
        atoms_are_no_lists(f.drop_first(), a, items);
        assert(atoms(x) =~= atoms(f).push(a));
    }
}

/// A list that starts with the key, in any case, is found, and gives the atoms behind
/// it.
pub proof fn a_list_of_the_key_is_found(k: Seq<char>, items: Seq<Tree>, key: Seq<char>)
    requires
        same_but_case(k, key),
    ensures
        found(Tree::List(seq![Tree::Atom(k)] + items), key) == Some(atoms(items)),
{
    assert((seq![Tree::Atom(k)] + items).drop_first() =~= items);
}

proof fn lemma_found_push(items: Seq<Tree>, i: nat, t: Tree, key: Seq<char>)
    requires
        i <= items.len(),
    ensures
        found_from(items.push(t), i, key) == match found_from(items, i, key) {
            Some(v) => Some(v),
            None => found(t, key),
        },
    decreases items.len() - i,
{
    let more = items.push(t);
    if i < items.len() {
        assert(more[i as int] == items[i as int]);
        lemma_found_push(items, i + 1, t, key);
    } else {
        assert(more[i as int] == t);
        assert(found_from(more, i + 1, key) is None);
    }
}

/// Another list is looked through part by part: the first part that holds the key
/// gives it. An atom holds none.
pub proof fn the_first_part_with_the_key_gives_it(items: Seq<Tree>, t: Tree, key: Seq<char>, a: Seq<char>)
    requires
        !(items.len() > 0 && items[0] is Atom && same_but_case(items[0]->Atom_0, key)),
        !(items.len() == 0 && t is Atom && same_but_case(t->Atom_0, key)),
    ensures
        found(Tree::Atom(a), key) is None,
        found(Tree::List(Seq::empty()), key) is None,
        found(Tree::List(items.push(t)), key) == match found(Tree::List(items), key) {
            Some(v) => Some(v),
            None => found(t, key),
        },
{
    lemma_found_push(items, 0, t, key);
    let more = items.push(t);
    if items.len() > 0 {
        assert(more[0] == items[0]);
    } else {
        assert(more[0] == t);
    }
    assert(!headed(Tree::List(items), key));
    assert(!headed(Tree::List(more), key));
}

// ---- nets ----------------------------------------------------------------------

proof fn lemma_nets_of_part(whole: Seq<Tree>, part: Seq<Tree>, k: int, i: nat, path: Seq<Seq<char>>)
    requires
        0 <= k,
        whole.len() == part.len() + k,
        forall|j: int| 0 <= j < part.len() ==> whole[j + k] == #[trigger] part[j],
        i <= part.len(),
    ensures
        nets_from(whole, (i + k) as nat, path) == nets_from(part, i, path),
    decreases part.len() - i,
{
    if i < part.len() {
        assert(whole[i + k] == part[i as int]);
        lemma_nets_of_part(whole, part, k, i + 1, path);
    }
}

proof fn lemma_nets_push(items: Seq<Tree>, i: nat, t: Tree, path: Seq<Seq<char>>)
    requires
        i <= items.len(),
    ensures
        nets_from(items.push(t), i, path) == nets_from(items, i, path) + nets_of(t, path),
    decreases items.len() - i,
{
    let more = items.push(t);
    if i < items.len() {
        assert(more[i as int] == items[i as int]);
        lemma_nets_push(items, i + 1, t, path);
        assert(nets_from(more, i, path) =~= nets_from(items, i, path) + nets_of(t, path));
    } else {
        assert(more[i as int] == t);
        assert(nets_from(more, i + 1, path) =~= Seq::<NetView>::empty());
        assert(nets_from(items, i, path) =~= Seq::<NetView>::empty());
        assert(nets_from(more, i, path) =~= nets_of(t, path));
        assert(nets_from(items, i, path) + nets_of(t, path) =~= nets_of(t, path));
    }
}

proof fn lemma_not_both(head: Seq<char>)
    ensures
        !(same_but_case(head, "INSTANCE"@) && same_but_case(head, "NET"@)),
{
    reveal_strlit("INSTANCE");
    reveal_strlit("NET");
    assert(ascii_lowered("INSTANCE"@).len() == 8);
    assert(ascii_lowered("NET"@).len() == 3);
}

/// The nets of a list of instances, or of trees one after the other, are those of
/// each, in order.
pub proof fn the_nets_of_parts_come_in_order(items: Seq<Tree>, t: Tree, path: Seq<Seq<char>>)
    ensures
        nets_from(Seq::empty(), 0, path).len() == 0,
        nets_from(items.push(t), 0, path) == nets_from(items, 0, path) + nets_of(t, path),
{
    lemma_nets_push(items, 0, t, path);
}

/// An instance with a name puts that name behind those of the instances around it,
/// for everything that it holds.
pub proof fn an_instance_adds_its_name(
    head: Seq<char>,
    name: Seq<char>,
    parts: Seq<Tree>,
    path: Seq<Seq<char>>,
)
    requires
        same_but_case(head, "INSTANCE"@),
    ensures
        nets_of(Tree::List(seq![Tree::Atom(head), Tree::Atom(name)] + parts), path) == nets_from(
            parts,
            0,
            path.push(name),
        ),
{
    let items = seq![Tree::Atom(head), Tree::Atom(name)] + parts;
    assert(items[0] == Tree::Atom(head));
    assert(items[1] == Tree::Atom(name));
    assert forall|j: int| 0 <= j < parts.len() implies items[j + 2] == #[trigger] parts[j] by {}
    lemma_nets_of_part(items, parts, 2, 0, path.push(name));
}

/// An instance whose name is missing adds none.
pub proof fn an_instance_without_a_name_adds_none(
    head: Seq<char>,
    other: Seq<Tree>,
    parts: Seq<Tree>,
    path: Seq<Seq<char>>,
)
    requires
        same_but_case(head, "INSTANCE"@),
    ensures
        nets_of(Tree::List(seq![Tree::Atom(head), Tree::List(other)] + parts), path) == nets_from(
            parts,
            0,
            path,
        ),
{
    let items = seq![Tree::Atom(head), Tree::List(other)] + parts;
    assert(items[0] == Tree::Atom(head));
    assert(items[1] == Tree::List(other));
    assert forall|j: int| 0 <= j < parts.len() implies items[j + 2] == #[trigger] parts[j] by {}
    lemma_nets_of_part(items, parts, 2, 0, path);
}

/// A list that is neither an instance nor a group of nets is looked through; an atom
/// has no nets.
pub proof fn another_list_is_looked_through(items: Seq<Tree>, path: Seq<Seq<char>>, a: Seq<char>)
    requires
        items.len() > 0 && items[0] is Atom ==> !same_but_case(items[0]->Atom_0, "INSTANCE"@)
            && !same_but_case(items[0]->Atom_0, "NET"@),
    ensures
        nets_of(Tree::List(items), path) == nets_from(items, 0, path),
        nets_of(Tree::Atom(a), path).len() == 0,
{
}

proof fn lemma_group_push(items: Seq<Tree>, i: nat, t: Tree, path: Seq<Seq<char>>)
    requires
        i <= items.len(),
    ensures
        group_nets(items.push(t), i, path) == group_nets(items, i, path) + if head_of(t) is Some {
            seq![net_of(t, path)]
        } else {
            Seq::empty()
        },
    decreases items.len() - i,
{
    let more = items.push(t);
    let last = if head_of(t) is Some {
        seq![net_of(t, path)]
    } else {
        Seq::empty()
    };
    if i < items.len() {
        assert(more[i as int] == items[i as int]);
        lemma_group_push(items, i + 1, t, path);
        assert(group_nets(more, i, path) =~= group_nets(items, i, path) + last);
    } else {
        assert(more[i as int] == t);
        assert(group_nets(more, i + 1, path) =~= Seq::<NetView>::empty());
        assert(group_nets(more, i, path) =~= group_nets(items, i, path) + last);
    }
}

/// A group gives a net for each of its lists that starts with a name, in order, and
/// for nothing else.
pub proof fn a_group_gives_a_net_for_each_list(
    head: Seq<char>,
    entries: Seq<Tree>,
    name: Seq<char>,
    parts: Seq<Tree>,
    other: Tree,
    path: Seq<Seq<char>>,
)
    requires
        same_but_case(head, "NET"@),
        !(other is List && other->List_0.len() > 0 && other->List_0[0] is Atom),
    ensures
        ({
            let group = seq![Tree::Atom(head)] + entries;
            let net = Tree::List(seq![Tree::Atom(name)] + parts);
            &&& nets_of(Tree::List(seq![Tree::Atom(head)]), path).len() == 0
            &&& nets_of(Tree::List(group.push(net)), path) == nets_of(Tree::List(group), path).push(
                net_of(net, path),
            )
            &&& nets_of(Tree::List(group.push(other)), path) == nets_of(Tree::List(group), path)
        }),
{
    let group = seq![Tree::Atom(head)] + entries;
    let net = Tree::List(seq![Tree::Atom(name)] + parts);
    lemma_not_both(head);
    assert(group[0] == Tree::Atom(head));
    assert(group.push(net)[0] == Tree::Atom(head));
    assert(group.push(other)[0] == Tree::Atom(head));
    lemma_group_push(group, 1, net, path);
    lemma_group_push(group, 1, other, path);
    assert(head_of(net) is Some);
    assert(head_of(other) is None);
    let before = nets_of(Tree::List(group), path);
    assert(before + seq![net_of(net, path)] =~= before.push(net_of(net, path)));
    assert(before + Seq::<NetView>::empty() =~= before);
    assert(group_nets(seq![Tree::Atom(head)], 1, path) =~= Seq::<NetView>::empty());
}

/// The path of a net is the names of the instances around it, outermost first, and
/// then its own, with dots between them.
pub proof fn a_net_has_the_path_of_its_instances(
    name: Seq<char>,
    parts: Seq<Tree>,
    path: Seq<Seq<char>>,
)
    ensures
        net_of(Tree::List(seq![Tree::Atom(name)] + parts), path).path == joined(
            path.push(name),
            seq!['.'],
        ),
{
    let t = Tree::List(seq![Tree::Atom(name)] + parts);
    assert(head_of(t) == Some(name));
    reveal_strlit(".");
    assert("."@ =~= seq!['.']);
    let all = path.push(name);
    assert(all.drop_last() =~= path);
    assert(all.last() == name);
    if path.len() > 0 {
        assert(full_path(path, name) =~= joined(path, seq!['.']) + seq!['.'] + name);
    } else {
        assert(all[0] == name);
    }
}

/// Instances inside one another, with these names, around a tree.
pub open spec fn nested(names: Seq<Seq<char>>, inner: Tree) -> Tree
    decreases names.len(),
{
    if names.len() == 0 {
        inner
    } else {
        Tree::List(
            seq![
                Tree::Atom("INSTANCE"@),
                Tree::Atom(names[0]),
                nested(names.drop_first(), inner),
            ],
        )
    }
}

/// However deep the instances stand in one another, what they hold has the names of
/// all of them in its path.
pub proof fn nested_instances_all_count(
    names: Seq<Seq<char>>,
    inner: Tree,
    path: Seq<Seq<char>>,
)
    ensures
        nets_of(nested(names, inner), path) == nets_of(inner, path + names),
    decreases names.len(),
{
    if names.len() == 0 {
        assert(path + names =~= path);
    } else {
        let deeper = nested(names.drop_first(), inner);
        let parts = seq![deeper];
        let items = seq![Tree::Atom("INSTANCE"@), Tree::Atom(names[0])] + parts;
        assert(nested(names, inner)->List_0 =~= items);
        an_instance_adds_its_name("INSTANCE"@, names[0], parts, path);
        let q = path.push(names[0]);
        lemma_nets_push(Seq::empty(), 0, deeper, q);
        assert(Seq::<Tree>::empty().push(deeper) =~= parts);
        assert(nets_from(Seq::<Tree>::empty(), 0, q) + nets_of(deeper, q) =~= nets_of(deeper, q));
        nested_instances_all_count(names.drop_first(), inner, q);
        assert(q + names.drop_first() =~= path + names);
    }
}

/// A net below any number of instances, one inside the other, is one net, whose path
/// is their names and its own.
pub proof fn a_deep_net_has_a_full_path(
    names: Seq<Seq<char>>,
    leaf: Seq<char>,
    parts: Seq<Tree>,
)
    ensures
        ({
            let net = Tree::List(seq![Tree::Atom(leaf)] + parts);
            let file = nested(names, Tree::List(seq![Tree::Atom("NET"@), net]));
            let nets = nets_of(file, Seq::empty());
            nets.len() == 1 && nets[0].path == joined(names.push(leaf), seq!['.'])
        }),
{
    let net = Tree::List(seq![Tree::Atom(leaf)] + parts);
    let group = Tree::List(seq![Tree::Atom("NET"@), net]);
    let none = Seq::<Seq<char>>::empty();
    nested_instances_all_count(names, group, none);
    assert(none + names =~= names);
    a_group_gives_a_net_for_each_list("NET"@, Seq::empty(), leaf, parts, Tree::Atom(leaf), names);
    assert((seq![Tree::Atom("NET"@)] + Seq::<Tree>::empty()).push(net) =~= seq![
        Tree::Atom("NET"@),
        net,
    ]);
    assert(seq![Tree::Atom("NET"@)] + Seq::<Tree>::empty() =~= seq![Tree::Atom("NET"@)]);
    a_net_has_the_path_of_its_instances(leaf, parts, names);
}

// ---- the entries of a net ------------------------------------------------------

proof fn lemma_found_in(pre: Seq<Tree>, entry: Tree, post: Seq<Tree>, i: nat, key: Seq<char>)
    requires
        i <= pre.len(),
        forall|k: int| i <= k < pre.len() ==> found(#[trigger] pre[k], key) is None,
        found(entry, key) is Some,
    ensures
        found_from(pre + seq![entry] + post, i, key) == found(entry, key),
    decreases pre.len() - i,
{
    let all = pre + seq![entry] + post;
    if i < pre.len() {
        assert(all[i as int] == pre[i as int]);
        lemma_found_in(pre, entry, post, i + 1, key);
    } else {
        assert(all[i as int] == entry);
    }
}

proof fn lemma_found_nowhere(items: Seq<Tree>, i: nat, key: Seq<char>)
    requires
        forall|k: int| i <= k < items.len() ==> found(#[trigger] items[k], key) is None,
    ensures
        found_from(items, i, key) is None,
    decreases items.len() - i,
{
    if i < items.len() {
        lemma_found_nowhere(items, i + 1, key);
    }
}

/// The value of an entry of a net is the atom behind its key, whatever the net is
/// called and whatever other entries it has.
pub proof fn an_entry_of_a_net_gives_its_value(
    name: Seq<char>,
    pre: Seq<Tree>,
    k: Seq<char>,
    value: Seq<char>,
    more: Seq<Tree>,
    post: Seq<Tree>,
    key: Seq<char>,
)
    requires
        same_but_case(k, key),
        forall|i: int| 0 <= i < pre.len() ==> found(#[trigger] pre[i], key) is None,
    ensures
        ({
            let entry = Tree::List(seq![Tree::Atom(k), Tree::Atom(value)] + more);
            net_entry(
                Tree::List(seq![Tree::Atom(name)] + pre + seq![entry] + post),
                key,
            ) == Some(value)
        }),
{
    let entry = Tree::List(seq![Tree::Atom(k), Tree::Atom(value)] + more);
    let front = seq![Tree::Atom(name)] + pre;
    assert forall|i: int| 1 <= i < front.len() implies found(#[trigger] front[i], key) is None by {
        assert(front[i] == pre[i - 1]);
    }
    assert(seq![Tree::Atom(k), Tree::Atom(value)] + more =~= seq![Tree::Atom(k)] + (seq![
        Tree::Atom(value),
    ] + more));
    a_list_of_the_key_is_found(k, seq![Tree::Atom(value)] + more, key);
    let behind = seq![Tree::Atom(value)] + more;
    assert(behind[0] == Tree::Atom(value));
    assert(atoms(behind)[0] == value);
    lemma_found_in(front, entry, post, 1, key);
    assert(seq![Tree::Atom(name)] + pre + seq![entry] + post =~= front + seq![entry] + post);
}

/// A net that has no entry of a key has no value for it.
pub proof fn a_missing_entry_has_no_value(name: Seq<char>, parts: Seq<Tree>, key: Seq<char>)
    requires
        forall|i: int| 0 <= i < parts.len() ==> found(#[trigger] parts[i], key) is None,
    ensures
        net_entry(Tree::List(seq![Tree::Atom(name)] + parts), key) is None,
{
    let items = seq![Tree::Atom(name)] + parts;
    assert forall|i: int| 1 <= i < items.len() implies found(#[trigger] items[i], key) is None by {
        assert(items[i] == parts[i - 1]);
    }
    lemma_found_nowhere(items, 1, key);
}

/// A net is counted by its `TC`, and timed by its `T0`, `T1` and `TX`.
pub proof fn a_net_has_its_entries(t: Tree, path: Seq<Seq<char>>)
    ensures
        net_of(t, path).tc == net_entry(t, "TC"@),
        net_of(t, path).t0 == net_entry(t, "T0"@),
        net_of(t, path).t1 == net_entry(t, "T1"@),
        net_of(t, path).tx == net_entry(t, "TX"@),
{
}

/// The count of a net is the number that its `TC` reads as, cut to a whole one, and
/// nothing where there is none.
pub proof fn a_net_counts_its_toggles(net: NetView, nums: Numerals)
    ensures
        net.tc is None ==> count_of(net, nums) == 0,
        net.tc matches Some(text) ==> (nums.value(text, None) is None ==> count_of(net, nums) == 0),
        net.tc matches Some(text) ==> (nums.value(text, None) matches Some(x) ==> count_of(net, nums)
            == x.truncated()),
{
}

// ---- the file ------------------------------------------------------------------

/// A file gives its nets, its time scale and its duration.
pub proof fn a_file_says_what_its_trees_say(root: Tree)
    ensures
        file_of(root).nets == nets_of(root, Seq::empty()),
        header(root, "TIMESCALE"@) matches Some(v) ==> file_of(root).timescale == timescale_of(
            lowered(joined(v, Seq::empty())),
        ),
        header(root, "TIMESCALE"@) is None ==> file_of(root).timescale == default_timescale(),
        header(root, "DURATION"@) is None ==> file_of(root).duration is None,
        header(root, "DURATION"@) matches Some(v) ==> (v.len() > 0 ==> file_of(root).duration == Some(
            v[0],
        )),
{
    reveal_strlit("");
    assert(""@ =~= Seq::<char>::empty());
}

proof fn lemma_longest_is_one(spans: Seq<Double>, n: int)
    requires
        0 <= n <= spans.len(),
    ensures
        longest(spans, n) == (Double { bits: ZERO_BITS }) || exists|i: int|
            0 <= i < n && #[trigger] spans[i] == longest(spans, n),
    decreases n,
{
    if n > 0 {
        lemma_longest_is_one(spans, n - 1);
        if longest(spans, n) == spans[n - 1] {
        } else if longest(spans, n - 1) != (Double { bits: ZERO_BITS }) {
            let i = choose|i: int| 0 <= i < n - 1 && #[trigger] spans[i] == longest(spans, n - 1);
            assert(spans[i] == longest(spans, n));
        }
    }
}

/// A run is as long as its duration, where that is a positive number, and else as the
/// longest of its nets.
pub proof fn a_run_is_as_long_as_its_duration(
    file: SaifFileView,
    nums: Numerals,
    spans: Seq<Double>,
    i: int,
)
    requires
        0 <= i < spans.len(),
    ensures
        ({
            let zero = Double { bits: ZERO_BITS };
            let run = run_units(file, nums, spans);
            let given = match file.duration {
                Some(text) => nums.value(text, None),
                None => None,
            };
            if given is Some && zero.below(given.unwrap()) {
                run == given.unwrap()
            } else {
                &&& !run.below(spans[i])
                &&& run == zero || exists|k: int| 0 <= k < spans.len() && #[trigger] spans[k] == run
            }
        }),
{
    crate::saif::no_span_is_longer(spans, spans.len() as int, i);
    lemma_longest_is_one(spans, spans.len() as int);
}

/// Without nets, and without a positive duration, a run has no length.
pub proof fn a_run_without_nets_has_no_length(file: SaifFileView, nums: Numerals)
    requires
        file.duration is None,
    ensures
        run_units(file, nums, Seq::empty()) == (Double { bits: ZERO_BITS }),
{
}

/// Nets can be looked for wherever each instance has at least a name behind its head.
pub proof fn an_instance_needs_a_second_part(head: Seq<char>, second: Tree, parts: Seq<Tree>)
    requires
        same_but_case(head, "INSTANCE"@),
    ensures
        !walkable(Tree::List(seq![Tree::Atom(head)])),
        walkable(Tree::List(seq![Tree::Atom(head), second] + parts)) <==> walkable_from(
            seq![Tree::Atom(head), second] + parts,
            2,
        ),
{
    assert((seq![Tree::Atom(head), second] + parts)[0] == Tree::Atom(head));
}

// ---- headers -------------------------------------------------------------------

/// The list of the key tells it, by the texts behind its head; a bare text tells
/// nothing.
pub proof fn a_list_of_the_key_tells_it(items: Seq<Tree>, key: Seq<char>, a: Seq<char>)
    requires
        headed(Tree::List(items), key),
    ensures
        header(Tree::List(items), key) == Some(atoms(items.drop_first())),
        header(Tree::Atom(a), key) is None,
{
}

/// The first part that tells the key tells it.
pub proof fn the_first_part_tells_the_key(items: Seq<Tree>, i: nat, key: Seq<char>)
    requires
        i < items.len(),
    ensures
        header_from(items, items.len(), key) is None,
        header(items[i as int], key) is Some ==> header_from(items, i, key) == header(
            items[i as int],
            key,
        ),
        header(items[i as int], key) is None ==> header_from(items, i, key) == header_from(
            items,
            i + 1,
            key,
        ),
{
}

/// Of an instance the parts behind its name tell the key; the name does only where it is
/// a list that holds one of the key. In a group of nets the parts of the nets tell it,
/// and their names do not. Of any other list all parts tell it.
pub proof fn a_list_is_looked_through_for_the_key(items: Seq<Tree>, key: Seq<char>)
    requires
        !headed(Tree::List(items), key),
    ensures
        headed(Tree::List(items), "INSTANCE"@) && items.len() > 1 ==> header(Tree::List(items), key)
            == if found(items[1], key) is Some {
            found(items[1], key)
        } else {
            header_from(items, 2, key)
        },
        headed(Tree::List(items), "INSTANCE"@) && items.len() <= 1 ==> header(Tree::List(items), key)
            is None,
        headed(Tree::List(items), "NET"@) && !headed(Tree::List(items), "INSTANCE"@) ==> header(
            Tree::List(items),
            key,
        ) == group_header(items, 1, key),
        !headed(Tree::List(items), "NET"@) && !headed(Tree::List(items), "INSTANCE"@) ==> header(
            Tree::List(items),
            key,
        ) == header_from(items, 0, key),
{
    if items.len() <= 1 {
        assert(header_from(items, 2, key) is None);
    }
}

/// In a group of nets the first net with a list of the key among its parts tells it.
pub proof fn the_first_net_with_the_key_tells_it(
    items: Seq<Tree>,
    i: nat,
    parts: Seq<Tree>,
    key: Seq<char>,
)
    requires
        i < items.len(),
        items[i as int] == Tree::List(parts),
    ensures
        group_header(items, items.len(), key) is None,
        found_from(parts, 0, key) is Some ==> group_header(items, i, key) == found_from(parts, 0, key),
        found_from(parts, 0, key) is None ==> group_header(items, i, key) == group_header(
            items,
            i + 1,
            key,
        ),
{
}

/// A bare text in a group of nets tells nothing.
pub proof fn a_text_among_nets_tells_nothing(
    items: Seq<Tree>,
    i: nat,
    a: Seq<char>,
    key: Seq<char>,
)
    requires
        i < items.len(),
        items[i as int] == Tree::Atom(a),
    ensures
        group_header(items, i, key) == group_header(items, i + 1, key),
{
}

// ---- whole files ---------------------------------------------------------------

/// A text is refused just when its brackets are, for the same reason; else it is a list.
pub proof fn a_text_is_refused_for_its_brackets(text: Seq<char>)
    ensures
        reading(text) is Err <==> refusal(tokens(text)) is Some,
        refusal(tokens(text)) matches Some(m) ==> reading(text) == Err::<Tree, Seq<char>>(m),
        reading(text) is Ok ==> reading(text)->Ok_0 is List,
{
}

/// The parts of a list can be looked through when each of them can.
pub proof fn parts_are_walked_one_by_one(items: Seq<Tree>, i: nat)
    ensures
        walkable_from(items, i) <==> forall|k: int| i <= k < items.len() ==> walkable(#[trigger] items[k]),
    decreases items.len() - i,
{
    if i < items.len() {
        parts_are_walked_one_by_one(items, i + 1);
        if forall|k: int| i <= k < items.len() ==> walkable(#[trigger] items[k]) {
            assert(walkable(items[i as int]));
        }
        if walkable_from(items, i) {
            assert forall|k: int| i <= k < items.len() implies walkable(#[trigger] items[k]) by {
                if k > i {
                    assert(walkable_from(items, i + 1));
                }
            }
        }
    }
}

/// Each net of a file is declared under its path, and its toggles are counted there.
pub proof fn each_net_is_indexed(nets: Seq<NetView>, nums: Numerals, n: int)
    requires
        0 < n <= nets.len(),
    ensures
        index_of(nets, nums, 0).toggles == Map::<Seq<char>, u64>::empty(),
        index_of(nets, nums, 0).by_leaf == Map::<Seq<char>, Seq<Seq<char>>>::empty(),
        index_of(nets, nums, 0).scope is None,
        index_of(nets, nums, n) == index_of(nets, nums, n - 1).declared(nets[n - 1].path).counted(
            nets[n - 1].path,
            count_of(nets[n - 1], nums) as int,
        ),
{
}

/// The toggles at a path are those of its nets together.
pub proof fn toggles_add_up(nets: Seq<NetView>, nums: Numerals, n: int, path: Seq<char>)
    requires
        0 < n <= nets.len(),
    ensures
        total_at(nets, nums, 0, path) == 0,
        total_at(nets, nums, n, path) == total_at(nets, nums, n - 1, path) + (if nets[n - 1].path
            == path {
            count_of(nets[n - 1], nums) as int
        } else {
            0
        }),
{
}

/// The counts fit when the toggles at no path are more than a `u64` holds.
pub proof fn counts_fit_at_every_path(nets: Seq<NetView>, nums: Numerals)
    ensures
        totals_fit(nets, nums) <==> forall|path: Seq<char>| #[trigger]
            total_at(nets, nums, nets.len() as int, path) < 0x1_0000_0000_0000_0000,
{
}

} // verus!
