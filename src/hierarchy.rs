use vstd::prelude::*;

use vstd::utf8::encode_utf8;

use crate::ext::str_eq;
use crate::modsettings::{ModSettingPair, PairView};

verus! {

broadcast use vstd::std_specs::vec::group_vec_axioms, vstd::seq::group_seq_axioms;

/// A node of the settings tree as the contracts see it.
pub enum NodeView {
    Group(Seq<(Seq<char>, NodeView)>),
    Leaf(PairView, bool),
}

/// A setting in the tree, with the flag that selects it for export.
#[derive(Debug, Clone)]
pub struct TogglableSetting {
    pub pair: ModSettingPair,
    pub included: bool,
}

/// A group of the settings tree: named children, groups and settings.
#[derive(Debug)]
pub struct ModSettingsGroup(pub Vec<(String, ModSettingsNode)>);

/// A child of a group.
#[derive(Debug)]
pub enum ModSettingsNode {
    Group(ModSettingsGroup),
    Setting(TogglableSetting),
}

/// The view of a node.
pub open spec fn node_view(n: ModSettingsNode) -> NodeView
    decreases n,
{
    match n {
        ModSettingsNode::Group(g) => NodeView::Group(children_view(g.0@)),
        ModSettingsNode::Setting(s) => NodeView::Leaf(s.pair@, s.included),
    }
}

/// The view of a list of named children.
pub open spec fn children_view(v: Seq<(String, ModSettingsNode)>) -> Seq<(Seq<char>, NodeView)>
    decreases v,
{
    if v.len() == 0 {
        Seq::empty()
    } else {
        children_view(v.drop_last()).push((v.last().0@, node_view(v.last().1)))
    }
}

impl View for ModSettingsGroup {
    type V = Seq<(Seq<char>, NodeView)>;

    open spec fn view(&self) -> Seq<(Seq<char>, NodeView)> {
        children_view(self.0@)
    }
}

/// A dot, the separator of key segments.
pub open spec fn dot() -> Seq<char> {
    seq!['.']
}

/// Every child, at any depth, with its leaves' flags set to `included`.
pub open spec fn with_include(v: Seq<(Seq<char>, NodeView)>, included: bool) -> Seq<
    (Seq<char>, NodeView),
>
    decreases v,
{
    if v.len() == 0 {
        Seq::empty()
    } else {
        with_include(v.drop_last(), included).push(
            (
                v.last().0,
                match v.last().1 {
                    NodeView::Group(c) => NodeView::Group(with_include(c, included)),
                    NodeView::Leaf(p, _) => NodeView::Leaf(p, included),
                },
            ),
        )
    }
}

/// Whether every leaf child is included and every group child is, in turn,
/// all included; an empty group is.
pub open spec fn all_included(v: Seq<(Seq<char>, NodeView)>) -> bool
    decreases v,
{
    if v.len() == 0 {
        true
    } else {
        all_included(v.drop_last()) && match v.last().1 {
            NodeView::Group(c) => all_included(c),
            NodeView::Leaf(_, included) => included,
        }
    }
}

/// The full dotted keys of the included leaves, in tree order.
pub open spec fn included_keys(v: Seq<(Seq<char>, NodeView)>) -> Seq<Seq<char>>
    decreases v,
{
    if v.len() == 0 {
        Seq::empty()
    } else {
        included_keys(v.drop_last()) + match v.last().1 {
            NodeView::Group(c) => included_keys(c).map_values(
                |k: Seq<char>| v.last().0 + dot() + k,
            ),
            NodeView::Leaf(_, included) => if included {
                seq![v.last().0]
            } else {
                Seq::empty()
            },
        }
    }
}

/// `k` split at every `sep`.
pub open spec fn split_on(k: Seq<char>, sep: char) -> Seq<Seq<char>>
    decreases k.len(),
{
    if k.len() == 0 {
        seq![Seq::empty()]
    } else {
        let p = split_on(k.drop_last(), sep);
        if k.last() == sep {
            p.push(Seq::empty())
        } else {
            p.update(p.len() - 1, p.last().push(k.last()))
        }
    }
}

/// The segments of a key: `k` split at every dot.
pub open spec fn split_dots(k: Seq<char>) -> Seq<Seq<char>> {
    split_on(k, '.')
}

/// Segments joined with dots between them.
pub open spec fn join_dots(p: Seq<Seq<char>>) -> Seq<char>
    decreases p.len(),
{
    if p.len() == 0 {
        Seq::empty()
    } else if p.len() == 1 {
        p[0]
    } else {
        join_dots(p.drop_last()) + dot() + p.last()
    }
}

/// Every key has at least one segment.
pub proof fn lemma_split_nonempty(k: Seq<char>)
    ensures
        split_dots(k).len() >= 1,
    decreases k.len(),
{
    if k.len() > 0 {
        lemma_split_nonempty(k.drop_last());
    }
}

/// Joining a key's segments gives the key back, so distinct keys have
/// distinct segment paths.
pub proof fn lemma_join_split(k: Seq<char>)
    ensures
        join_dots(split_dots(k)) == k,
    decreases k.len(),
{
    if k.len() > 0 {
        let k0 = k.drop_last();
        let p = split_dots(k0);
        lemma_join_split(k0);
        lemma_split_nonempty(k0);
        if k.last() == '.' {
            let q = p.push(Seq::<char>::empty());
            assert(q.drop_last() =~= p);
            assert(join_dots(p) + dot() + Seq::<char>::empty() =~= k);
        } else {
            let q = p.update(p.len() - 1, p.last().push(k.last()));
            if p.len() == 1 {
                assert(q[0] =~= k);
            } else {
                assert(q.drop_last() =~= p.drop_last());
                assert(join_dots(p.drop_last()) + dot() + p.last().push(k.last()) =~= (join_dots(
                    p.drop_last(),
                ) + dot() + p.last()).push(k.last()));
                assert(k =~= k0.push(k.last()));
            }
        }
    }
}

/// Distinct keys have distinct segment paths.
pub proof fn lemma_split_injective(a: Seq<char>, b: Seq<char>)
    requires
        a != b,
    ensures
        split_dots(a) != split_dots(b),
{
    lemma_join_split(a);
    lemma_join_split(b);
}

/// The children of the last group child named `name`.
pub open spec fn find_group(v: Seq<(Seq<char>, NodeView)>, name: Seq<char>) -> Option<
    Seq<(Seq<char>, NodeView)>,
>
    decreases v.len(),
{
    if v.len() == 0 {
        None
    } else if v.last().0 == name && v.last().1 is Group {
        Some(v.last().1->Group_0)
    } else {
        find_group(v.drop_last(), name)
    }
}

/// The pair and flag of the last leaf child named `name`.
pub open spec fn find_leaf(v: Seq<(Seq<char>, NodeView)>, name: Seq<char>) -> Option<(PairView, bool)>
    decreases v.len(),
{
    if v.len() == 0 {
        None
    } else if v.last().0 == name && v.last().1 is Leaf {
        Some((v.last().1->Leaf_0, v.last().1->Leaf_1))
    } else {
        find_leaf(v.drop_last(), name)
    }
}

/// The leaf reached from children `v` by following the segments of `path`.
pub open spec fn leaf_at(v: Seq<(Seq<char>, NodeView)>, path: Seq<Seq<char>>) -> Option<
    (PairView, bool),
>
    decreases path.len(),
{
    if path.len() == 0 {
        None
    } else if path.len() == 1 {
        find_leaf(v, path[0])
    } else {
        match find_group(v, path[0]) {
            Some(c) => leaf_at(c, path.drop_first()),
            None => None,
        }
    }
}

/// Lexicographic order on byte strings.
pub open spec fn lex_le(a: Seq<u8>, b: Seq<u8>) -> bool
    decreases a.len(),
{
    if a.len() == 0 {
        true
    } else if b.len() == 0 {
        false
    } else if a[0] != b[0] {
        a[0] < b[0]
    } else {
        lex_le(a.drop_first(), b.drop_first())
    }
}

/// The order of segment names: lexicographic on their UTF-8 bytes, which is
/// also the order of their characters.
pub open spec fn name_le(a: Seq<char>, b: Seq<char>) -> bool {
    lex_le(encode_utf8(a), encode_utf8(b))
}

/// Any two byte strings are ordered one way or the other.
pub proof fn lemma_lex_total(a: Seq<u8>, b: Seq<u8>)
    ensures
        lex_le(a, b) || lex_le(b, a),
    decreases a.len(),
{
    if a.len() > 0 && b.len() > 0 && a[0] == b[0] {
        lemma_lex_total(a.drop_first(), b.drop_first());
    }
}

/// Whether each child's name is in order with the next one's.
pub open spec fn sorted_children(v: Seq<(Seq<char>, NodeView)>) -> bool {
    forall|i: int| 0 <= i < v.len() - 1 ==> #[trigger] name_le(v[i].0, v[i + 1].0)
}

/// Whether the children of this group, and of every group below it, are in order.
pub open spec fn sorted_deep(v: Seq<(Seq<char>, NodeView)>) -> bool
    decreases v,
{
    if v.len() == 0 {
        true
    } else {
        sorted_children(v) && sorted_deep(v.drop_last()) && match v.last().1 {
            NodeView::Group(c) => sorted_deep(c),
            NodeView::Leaf(_, _) => true,
        }
    }
}

/// Whether child `e` is found by the same search as a child of the kind and name of `f`.
pub open spec fn same_slot(e: (Seq<char>, NodeView), f: (Seq<char>, NodeView)) -> bool {
    e.0 == f.0 && (e.1 is Group <==> f.1 is Group)
}

/// What the searches give after child `e` is put where no child of its name
/// and kind was.
proof fn lemma_insert_fresh(
    v: Seq<(Seq<char>, NodeView)>,
    pos: int,
    e: (Seq<char>, NodeView),
    x: Seq<char>,
)
    requires
        0 <= pos <= v.len(),
        e.1 is Group ==> find_group(v, e.0) is None,
        e.1 is Leaf ==> find_leaf(v, e.0) is None,
    ensures
        find_group(v.insert(pos, e), x) == if x == e.0 && e.1 is Group {
            Some(e.1->Group_0)
        } else {
            find_group(v, x)
        },
        find_leaf(v.insert(pos, e), x) == if x == e.0 && e.1 is Leaf {
            Some((e.1->Leaf_0, e.1->Leaf_1))
        } else {
            find_leaf(v, x)
        },
    decreases v.len(),
{
    let w = v.insert(pos, e);
    if pos == v.len() {
        assert(w.drop_last() =~= v);
    } else {
        assert(w.drop_last() =~= v.drop_last().insert(pos, e));
        assert(w.last() == v.last());
        lemma_insert_fresh(v.drop_last(), pos, e, x);
    }
}

/// What the searches give after the last child of its name and kind is replaced.
proof fn lemma_update_last(
    v: Seq<(Seq<char>, NodeView)>,
    j: int,
    e: (Seq<char>, NodeView),
    x: Seq<char>,
)
    requires
        0 <= j < v.len(),
        same_slot(v[j], e),
        forall|k: int| j < k < v.len() ==> !same_slot(#[trigger] v[k], e),
    ensures
        find_group(v.update(j, e), x) == if x == e.0 && e.1 is Group {
            Some(e.1->Group_0)
        } else {
            find_group(v, x)
        },
        find_leaf(v.update(j, e), x) == if x == e.0 && e.1 is Leaf {
            Some((e.1->Leaf_0, e.1->Leaf_1))
        } else {
            find_leaf(v, x)
        },
    decreases v.len(),
{
    let w = v.update(j, e);
    if j == v.len() - 1 {
        assert(w.drop_last() =~= v.drop_last());
    } else {
        assert(w.drop_last() =~= v.drop_last().update(j, e));
        assert(w.last() == v.last());
        assert(!same_slot(v[v.len() - 1], e));
        lemma_update_last(v.drop_last(), j, e, x);
    }
}

proof fn lemma_find_group_none(v: Seq<(Seq<char>, NodeView)>, name: Seq<char>)
    requires
        find_group(v, name) is None,
    ensures
        forall|k: int| 0 <= k < v.len() ==> !(#[trigger] v[k].0 == name && v[k].1 is Group),
    decreases v.len(),
{
    if v.len() > 0 {
        lemma_find_group_none(v.drop_last(), name);
        assert forall|k: int| 0 <= k < v.len() implies !(#[trigger] v[k].0 == name && v[k].1 is Group) by {
            if k < v.len() - 1 {
                assert(v[k] == v.drop_last()[k]);
            }
        }
    }
}

/// Whether no two children share both name and kind.
pub open spec fn distinct_slots(v: Seq<(Seq<char>, NodeView)>) -> bool {
    forall|a: int, b: int| 0 <= a < b < v.len() ==> !same_slot(#[trigger] v[a], #[trigger] v[b])
}

/// Whether `path` is `prefix` followed by at least one more segment.
pub open spec fn extends(path: Seq<Seq<char>>, prefix: Seq<Seq<char>>) -> bool {
    prefix.len() < path.len() && path.take(prefix.len() as int) == prefix
}

/// Whether the children of the group at `prefix`, at every depth, have no
/// two of one name and kind and all lie on `paths`: a setting's full path is
/// one of them, and a group's path leads on to one of them.
pub open spec fn tidy(v: Seq<(Seq<char>, NodeView)>, prefix: Seq<Seq<char>>, paths: Set<Seq<Seq<char>>>) -> bool
    decreases v,
{
    if v.len() == 0 {
        true
    } else {
        distinct_slots(v) && tidy(v.drop_last(), prefix, paths) && match v.last().1 {
            NodeView::Leaf(_, _) => paths.contains(prefix.push(v.last().0)),
            NodeView::Group(c) => (exists|p: Seq<Seq<char>>|
                #[trigger] paths.contains(p) && extends(p, prefix.push(v.last().0))) && tidy(
                c,
                prefix.push(v.last().0),
                paths,
            ),
        }
    }
}

/// `tidy`, for one child of the group at `prefix`.
pub open spec fn slot_tidy(e: (Seq<char>, NodeView), prefix: Seq<Seq<char>>, paths: Set<Seq<Seq<char>>>) -> bool {
    match e.1 {
        NodeView::Leaf(_, _) => paths.contains(prefix.push(e.0)),
        NodeView::Group(c) => (exists|p: Seq<Seq<char>>|
            #[trigger] paths.contains(p) && extends(p, prefix.push(e.0))) && tidy(
            c,
            prefix.push(e.0),
            paths,
        ),
    }
}

proof fn lemma_tidy_iff(v: Seq<(Seq<char>, NodeView)>, prefix: Seq<Seq<char>>, paths: Set<Seq<Seq<char>>>)
    ensures
        tidy(v, prefix, paths) == (distinct_slots(v) && forall|i: int|
            0 <= i < v.len() ==> slot_tidy(#[trigger] v[i], prefix, paths)),
    decreases v.len(),
{
    if v.len() > 0 {
        let d = v.drop_last();
        lemma_tidy_iff(d, prefix, paths);
        if distinct_slots(v) {
            assert(distinct_slots(d)) by {
                assert forall|a: int, b: int| 0 <= a < b < d.len() implies !same_slot(
                    #[trigger] d[a],
                    #[trigger] d[b],
                ) by {
                    assert(d[a] == v[a] && d[b] == v[b]);
                }
            }
        }
        assert(v.last() == v[v.len() - 1]);
        if distinct_slots(v) && forall|i: int| 0 <= i < v.len() ==> slot_tidy(#[trigger] v[i], prefix, paths) {
            assert forall|i: int| 0 <= i < d.len() implies slot_tidy(#[trigger] d[i], prefix, paths) by {
                assert(d[i] == v[i]);
            }
        }
        if tidy(v, prefix, paths) {
            assert forall|i: int| 0 <= i < v.len() implies slot_tidy(#[trigger] v[i], prefix, paths) by {
                if i < v.len() - 1 {
                    assert(d[i] == v[i]);
                }
            }
        }
    }
}

proof fn lemma_tidy_insert(
    v: Seq<(Seq<char>, NodeView)>,
    pos: int,
    e: (Seq<char>, NodeView),
    prefix: Seq<Seq<char>>,
    paths: Set<Seq<Seq<char>>>,
)
    requires
        tidy(v, prefix, paths),
        0 <= pos <= v.len(),
        slot_tidy(e, prefix, paths),
        forall|k: int| 0 <= k < v.len() ==> !same_slot(#[trigger] v[k], e),
    ensures
        tidy(v.insert(pos, e), prefix, paths),
{
    let w = v.insert(pos, e);
    lemma_tidy_iff(v, prefix, paths);
    lemma_tidy_iff(w, prefix, paths);
    assert forall|a: int, b: int| 0 <= a < b < w.len() implies !same_slot(#[trigger] w[a], #[trigger] w[b]) by {
        let a0 = if a < pos { a } else { a - 1 };
        let b0 = if b < pos { b } else { b - 1 };
        if a == pos {
            assert(!same_slot(v[b0], e));
        } else if b == pos {
            assert(!same_slot(v[a0], e));
        } else {
            assert(w[a] == v[a0] && w[b] == v[b0]);
            assert(!same_slot(v[a0], v[b0]));
        }
    }
    assert forall|i: int| 0 <= i < w.len() implies slot_tidy(#[trigger] w[i], prefix, paths) by {
        if i < pos {
            assert(w[i] == v[i]);
        } else if i > pos {
            assert(w[i] == v[i - 1]);
        }
    }
}

proof fn lemma_tidy_update(
    v: Seq<(Seq<char>, NodeView)>,
    j: int,
    e: (Seq<char>, NodeView),
    prefix: Seq<Seq<char>>,
    paths: Set<Seq<Seq<char>>>,
)
    requires
        tidy(v, prefix, paths),
        0 <= j < v.len(),
        same_slot(v[j], e),
        slot_tidy(e, prefix, paths),
    ensures
        tidy(v.update(j, e), prefix, paths),
{
    let w = v.update(j, e);
    lemma_tidy_iff(v, prefix, paths);
    lemma_tidy_iff(w, prefix, paths);
    assert forall|a: int, b: int| 0 <= a < b < w.len() implies !same_slot(#[trigger] w[a], #[trigger] w[b]) by {
        assert(!same_slot(v[a], v[b]));
    }
    assert forall|i: int| 0 <= i < w.len() implies slot_tidy(#[trigger] w[i], prefix, paths) by {
        if i != j {
            assert(w[i] == v[i]);
        }
    }
}

proof fn lemma_find_leaf_none(v: Seq<(Seq<char>, NodeView)>, name: Seq<char>)
    requires
        find_leaf(v, name) is None,
    ensures
        forall|k: int| 0 <= k < v.len() ==> !(#[trigger] v[k].0 == name && v[k].1 is Leaf),
    decreases v.len(),
{
    if v.len() > 0 {
        lemma_find_leaf_none(v.drop_last(), name);
        assert forall|k: int| 0 <= k < v.len() implies !(#[trigger] v[k].0 == name && v[k].1 is Leaf) by {
            if k < v.len() - 1 {
                assert(v[k] == v.drop_last()[k]);
            }
        }
    }
}

/// Where child `e` goes among children `w`: after the last one whose name
/// is not greater than its own.
pub open spec fn insertion_point(w: Seq<(Seq<char>, NodeView)>, e: (Seq<char>, NodeView)) -> int
    decreases w.len(),
{
    if w.len() == 0 {
        0
    } else if name_le(w.last().0, e.0) {
        w.len() as int
    } else {
        insertion_point(w.drop_last(), e)
    }
}

/// The children of `v` put in name order one by one, each after those of
/// equal name already placed.
pub open spec fn insertion_sorted(v: Seq<(Seq<char>, NodeView)>) -> Seq<(Seq<char>, NodeView)>
    decreases v.len(),
{
    if v.len() == 0 {
        Seq::empty()
    } else {
        let w = insertion_sorted(v.drop_last());
        w.insert(insertion_point(w, v.last()), v.last())
    }
}

/// The children of `v` in name order, with the children of every group
/// below sorted the same way.
pub open spec fn sorted_view(v: Seq<(Seq<char>, NodeView)>) -> Seq<(Seq<char>, NodeView)>
    decreases v, 1int,
{
    insertion_sorted(children_sorted(v))
}

/// The children of `v` in their order, each group's children sorted.
pub open spec fn children_sorted(v: Seq<(Seq<char>, NodeView)>) -> Seq<(Seq<char>, NodeView)>
    decreases v, 0int,
{
    if v.len() == 0 {
        Seq::empty()
    } else {
        children_sorted(v.drop_last()).push(
            (
                v.last().0,
                match v.last().1 {
                    NodeView::Group(c) => NodeView::Group(sorted_view(c)),
                    NodeView::Leaf(p, i) => NodeView::Leaf(p, i),
                },
            ),
        )
    }
}

/// `children_sorted` child by child.
#[verifier::opaque]
pub open spec fn child_sorted(e: (Seq<char>, NodeView)) -> (Seq<char>, NodeView) {
    (
        e.0,
        match e.1 {
            NodeView::Group(c) => NodeView::Group(sorted_view(c)),
            NodeView::Leaf(p, i) => NodeView::Leaf(p, i),
        },
    )
}

proof fn lemma_children_sorted_index(v: Seq<(Seq<char>, NodeView)>)
    ensures
        children_sorted(v).len() == v.len(),
        forall|k: int| 0 <= k < v.len() ==> #[trigger] children_sorted(v)[k] == child_sorted(v[k]),
    decreases v.len(),
{
    if v.len() > 0 {
        lemma_children_sorted_index(v.drop_last());
        reveal(child_sorted);
        assert(v.last() == v[v.len() - 1]);
        assert forall|k: int| 0 <= k < v.len() implies #[trigger] children_sorted(v)[k] == child_sorted(v[k]) by {
            if k == v.len() - 1 {
                assert(children_sorted(v)[k] == child_sorted(v.last()));
            } else {
                assert(v.drop_last()[k] == v[k]);
            }
        }
    }
}

/// Sorting keeps the children of a level, only in another order.
pub proof fn lemma_insertion_sorted_permutes(v: Seq<(Seq<char>, NodeView)>)
    ensures
        insertion_sorted(v).to_multiset() == v.to_multiset(),
    decreases v.len(),
{
    if v.len() > 0 {
        let w = insertion_sorted(v.drop_last());
        lemma_insertion_sorted_permutes(v.drop_last());
        lemma_insertion_point_bounds(w, v.last());
        let p = insertion_point(w, v.last());
        assert(w.insert(p, v.last()) =~= w.take(p) + (seq![v.last()] + w.skip(p)));
        assert(w =~= w.take(p) + w.skip(p));
        vstd::seq_lib::lemma_multiset_commutative(w.take(p), seq![v.last()] + w.skip(p));
        vstd::seq_lib::lemma_multiset_commutative(seq![v.last()], w.skip(p));
        vstd::seq_lib::lemma_multiset_commutative(w.take(p), w.skip(p));
        vstd::seq_lib::lemma_multiset_commutative(v.drop_last(), seq![v.last()]);
        assert(v =~= v.drop_last() + seq![v.last()]);
        assert(insertion_sorted(v) == w.insert(p, v.last()));
        assert(insertion_sorted(v).to_multiset() =~= v.to_multiset());
    } else {
        assert(v =~= Seq::<(Seq<char>, NodeView)>::empty());
        assert(insertion_sorted(v) =~= Seq::<(Seq<char>, NodeView)>::empty());
    }
}

proof fn lemma_insertion_point_bounds(w: Seq<(Seq<char>, NodeView)>, e: (Seq<char>, NodeView))
    ensures
        0 <= insertion_point(w, e) <= w.len(),
    decreases w.len(),
{
    if w.len() > 0 {
        lemma_insertion_point_bounds(w.drop_last(), e);
    }
}

/// `sorted_deep` stated over indices.
proof fn lemma_sorted_deep_iff(v: Seq<(Seq<char>, NodeView)>)
    ensures
        sorted_deep(v) == (sorted_children(v) && forall|i: int|
            0 <= i < v.len() && #[trigger] v[i].1 is Group ==> sorted_deep(v[i].1->Group_0)),
    decreases v.len(),
{
    if v.len() > 0 {
        let d = v.drop_last();
        lemma_sorted_deep_iff(d);
        if sorted_children(v) {
            assert(sorted_children(d)) by {
                assert forall|i: int| 0 <= i < d.len() - 1 implies #[trigger] name_le(
                    d[i].0,
                    d[i + 1].0,
                ) by {
                    assert(name_le(v[i].0, v[i + 1].0));
                }
            }
        }
        if sorted_children(v) && forall|i: int|
            0 <= i < v.len() && #[trigger] v[i].1 is Group ==> sorted_deep(v[i].1->Group_0) {
            assert forall|i: int| 0 <= i < d.len() && #[trigger] d[i].1 is Group implies sorted_deep(
                d[i].1->Group_0,
            ) by {
                assert(d[i] == v[i]);
            }
            assert(v.last() == v[v.len() - 1]);
        }
        if sorted_deep(v) {
            assert forall|i: int| 0 <= i < v.len() && #[trigger] v[i].1 is Group implies sorted_deep(
                v[i].1->Group_0,
            ) by {
                if i < v.len() - 1 {
                    assert(d[i] == v[i]);
                }
            }
        }
    }
}

/// A node whose own children, if any, are in order at every depth.
pub open spec fn node_sorted(n: NodeView) -> bool {
    match n {
        NodeView::Group(c) => sorted_deep(c),
        NodeView::Leaf(_, _) => true,
    }
}

proof fn lemma_sorted_insert(v: Seq<(Seq<char>, NodeView)>, pos: int, e: (Seq<char>, NodeView))
    requires
        sorted_deep(v),
        0 <= pos <= v.len(),
        pos > 0 ==> name_le(v[pos - 1].0, e.0),
        pos < v.len() ==> name_le(e.0, v[pos].0),
        node_sorted(e.1),
    ensures
        sorted_deep(v.insert(pos, e)),
{
    let w = v.insert(pos, e);
    lemma_sorted_deep_iff(v);
    lemma_sorted_deep_iff(w);
    assert forall|i: int| 0 <= i < w.len() - 1 implies #[trigger] name_le(w[i].0, w[i + 1].0) by {
        if i < pos - 1 {
            assert(name_le(v[i].0, v[i + 1].0));
        } else if i >= pos + 1 {
            let k = i - 1;
            assert(name_le(v[k].0, v[k + 1].0));
            assert(w[i] == v[k] && w[i + 1] == v[k + 1]);
        }
    }
    assert forall|i: int| 0 <= i < w.len() && #[trigger] w[i].1 is Group implies sorted_deep(
        w[i].1->Group_0,
    ) by {
        if i < pos {
            assert(w[i] == v[i]);
        } else if i > pos {
            assert(w[i] == v[i - 1]);
        }
    }
}

proof fn lemma_sorted_update(v: Seq<(Seq<char>, NodeView)>, j: int, e: (Seq<char>, NodeView))
    requires
        sorted_deep(v),
        0 <= j < v.len(),
        e.0 == v[j].0,
        node_sorted(e.1),
    ensures
        sorted_deep(v.update(j, e)),
{
    let w = v.update(j, e);
    lemma_sorted_deep_iff(v);
    lemma_sorted_deep_iff(w);
    assert forall|i: int| 0 <= i < w.len() - 1 implies #[trigger] name_le(w[i].0, w[i + 1].0) by {
        assert(name_le(v[i].0, v[i + 1].0));
    }
    assert forall|i: int| 0 <= i < w.len() && #[trigger] w[i].1 is Group implies sorted_deep(
        w[i].1->Group_0,
    ) by {
        if i != j {
            assert(w[i] == v[i]);
        }
    }
}

/// Every byte string is ordered before or with itself.
pub proof fn lemma_lex_reflexive(a: Seq<u8>)
    ensures
        lex_le(a, a),
    decreases a.len(),
{
    if a.len() > 0 {
        lemma_lex_reflexive(a.drop_first());
    }
}

/// Whether two children lists have the same names and kinds slot by slot,
/// the same settings, and groups that reach the same leaves.
pub open spec fn same_shape(a: Seq<(Seq<char>, NodeView)>, b: Seq<(Seq<char>, NodeView)>) -> bool {
    &&& a.len() == b.len()
    &&& forall|k: int| 0 <= k < a.len() ==> #[trigger] same_slot_leaves(a[k], b[k])
}

/// Whether two children have the same name and kind, the same setting, or
/// groups that reach the same leaves.
pub open spec fn same_slot_leaves(x: (Seq<char>, NodeView), y: (Seq<char>, NodeView)) -> bool {
    x.0 == y.0 && match (x.1, y.1) {
        (NodeView::Leaf(p, i), NodeView::Leaf(q, j)) => p == q && i == j,
        (NodeView::Group(c), NodeView::Group(d)) => forall|path: Seq<Seq<char>>|
            #[trigger] leaf_at(c, path) == leaf_at(d, path),
        _ => false,
    }
}

proof fn lemma_same_shape_find(a: Seq<(Seq<char>, NodeView)>, b: Seq<(Seq<char>, NodeView)>, x: Seq<char>)
    requires
        same_shape(a, b),
    ensures
        find_leaf(a, x) == find_leaf(b, x),
        find_group(a, x) is None <==> find_group(b, x) is None,
        find_group(a, x) matches Some(c) ==> forall|path: Seq<Seq<char>>|
            #[trigger] leaf_at(c, path) == leaf_at(find_group(b, x)->Some_0, path),
    decreases a.len(),
{
    if a.len() > 0 {
        let k = a.len() - 1;
        assert(same_slot_leaves(a[k], b[k]));
        assert(same_shape(a.drop_last(), b.drop_last())) by {
            assert forall|t: int| 0 <= t < a.drop_last().len() implies #[trigger] same_slot_leaves(
                a.drop_last()[t],
                b.drop_last()[t],
            ) by {
                assert(same_slot_leaves(a[t], b[t]));
            }
        }
        lemma_same_shape_find(a.drop_last(), b.drop_last(), x);
    }
}

proof fn lemma_same_shape_leaf_at(a: Seq<(Seq<char>, NodeView)>, b: Seq<(Seq<char>, NodeView)>, path: Seq<Seq<char>>)
    requires
        same_shape(a, b),
    ensures
        leaf_at(a, path) == leaf_at(b, path),
{
    if path.len() >= 1 {
        lemma_same_shape_find(a, b, path[0]);
        if path.len() >= 2 {
            match find_group(a, path[0]) {
                Some(c) => {
                    let d = find_group(b, path[0])->Some_0;
                    assert(leaf_at(c, path.drop_first()) == leaf_at(d, path.drop_first()));
                },
                None => {},
            }
        }
    }
}

/// What the searches give after child `e` is put where no later child has its name.
proof fn lemma_insert_last_of_name(
    v: Seq<(Seq<char>, NodeView)>,
    pos: int,
    e: (Seq<char>, NodeView),
    x: Seq<char>,
)
    requires
        0 <= pos <= v.len(),
        forall|k: int| pos <= k < v.len() ==> #[trigger] v[k].0 != e.0,
    ensures
        find_group(v.insert(pos, e), x) == if x == e.0 && e.1 is Group {
            Some(e.1->Group_0)
        } else {
            find_group(v, x)
        },
        find_leaf(v.insert(pos, e), x) == if x == e.0 && e.1 is Leaf {
            Some((e.1->Leaf_0, e.1->Leaf_1))
        } else {
            find_leaf(v, x)
        },
    decreases v.len(),
{
    let w = v.insert(pos, e);
    if pos == v.len() {
        assert(w.drop_last() =~= v);
    } else {
        assert(w.drop_last() =~= v.drop_last().insert(pos, e));
        assert(w.last() == v.last());
        assert(v[v.len() - 1].0 != e.0);
        lemma_insert_last_of_name(v.drop_last(), pos, e, x);
    }
}

proof fn lemma_children_view_take(v: Seq<(String, ModSettingsNode)>, i: int)
    requires
        0 <= i < v.len(),
    ensures
        children_view(v.take(i + 1)) == children_view(v.take(i)).push((v[i].0@, node_view(v[i].1))),
{
    assert(v.take(i + 1).drop_last() =~= v.take(i));
}

proof fn lemma_with_include_push(v: Seq<(Seq<char>, NodeView)>, x: (Seq<char>, NodeView), included: bool)
    ensures
        with_include(v.push(x), included) == with_include(v, included).push(
            (
                x.0,
                match x.1 {
                    NodeView::Group(c) => NodeView::Group(with_include(c, included)),
                    NodeView::Leaf(p, _) => NodeView::Leaf(p, included),
                },
            ),
        ),
{
    assert(v.push(x).drop_last() =~= v);
}

proof fn lemma_children_view_index(v: Seq<(String, ModSettingsNode)>)
    ensures
        children_view(v).len() == v.len(),
        forall|k: int|
            0 <= k < v.len() ==> #[trigger] children_view(v)[k] == (v[k].0@, node_view(v[k].1)),
    decreases v.len(),
{
    if v.len() > 0 {
        lemma_children_view_index(v.drop_last());
    }
}

/// Children views are taken child by child, so editing the children edits the view alike.
proof fn lemma_children_view_ext(v: Seq<(String, ModSettingsNode)>, w: Seq<(String, ModSettingsNode)>, u: Seq<(Seq<char>, NodeView)>)
    requires
        u.len() == w.len(),
        forall|k: int| 0 <= k < w.len() ==> #[trigger] u[k] == (w[k].0@, node_view(w[k].1)),
    ensures
        children_view(w) == u,
{
    lemma_children_view_index(w);
    assert(children_view(w) =~= u);
}

proof fn lemma_leaf_at_empty(path: Seq<Seq<char>>)
    ensures
        leaf_at(Seq::empty(), path) is None,
{
}

/// Whether two strings are in segment-name order, decided on their UTF-8 bytes.
fn name_le_exec(a: &str, b: &str) -> (r: bool)
    ensures
        r == name_le(a@, b@),
{
    let x = a.as_bytes();
    let y = b.as_bytes();
    let mut i: usize = 0;
    proof {
        assert(x@.skip(0) =~= x@);
        assert(y@.skip(0) =~= y@);
    }
    while i < x.len() && i < y.len() && x[i] == y[i]
        invariant
            i <= x@.len(),
            i <= y@.len(),
            x@ == encode_utf8(a@),
            y@ == encode_utf8(b@),
            lex_le(x@, y@) == lex_le(x@.skip(i as int), y@.skip(i as int)),
        decreases x@.len() - i,
    {
        proof {
            assert(x@.skip(i as int).drop_first() =~= x@.skip(i + 1));
            assert(y@.skip(i as int).drop_first() =~= y@.skip(i + 1));
        }
        i = i + 1;
    }
    if i == x.len() {
        true
    } else if i == y.len() {
        false
    } else {
        x[i] < y[i]
    }
}

/// Splits `key` at every `sep`.
pub fn split_at_char(key: &str, sep: char) -> (r: Vec<String>)
    ensures
        r@.map_values(|s: String| s@) == split_on(key@, sep),
{
    let n = key.unicode_len();
    let mut segments: Vec<String> = Vec::new();
    let mut start: usize = 0;
    let mut i: usize = 0;
    proof {
        assert(key@.take(0) =~= Seq::<char>::empty());
        assert(segments@.map_values(|s: String| s@).push(key@.subrange(0, 0)) =~= seq![
            Seq::<char>::empty(),
        ]);
    }
    while i < n
        invariant
            n == key@.len(),
            start <= i <= n,
            split_on(key@.take(i as int), sep) == segments@.map_values(|s: String| s@).push(
                key@.subrange(start as int, i as int),
            ),
        decreases n - i,
    {
        let c = key.get_char(i);
        let ghost before = segments@.map_values(|s: String| s@);
        proof {
            assert(key@.take(i + 1).drop_last() =~= key@.take(i as int));
            assert(key@.take(i + 1).last() == c);
        }
        if c == sep {
            let segment = key.substring_char(start, i).to_owned();
            segments.push(segment);
            proof {
                assert(segments@.map_values(|s: String| s@) =~= before.push(
                    key@.subrange(start as int, i as int),
                ));
                assert(key@.subrange(i + 1, i + 1) =~= Seq::<char>::empty());
            }
            start = i + 1;
        } else {
            proof {
                assert(key@.subrange(start as int, i + 1) =~= key@.subrange(start as int, i as int).push(c));
                assert(before.push(key@.subrange(start as int, i as int)).update(
                    before.len() as int,
                    key@.subrange(start as int, i as int).push(c),
                ) =~= before.push(key@.subrange(start as int, i + 1)));
            }
        }
        i = i + 1;
    }
    let last = key.substring_char(start, n).to_owned();
    let ghost before = segments@.map_values(|s: String| s@);
    segments.push(last);
    proof {
        assert(key@.take(n as int) =~= key@);
        assert(segments@.map_values(|s: String| s@) =~= before.push(key@.subrange(start as int, n as int)));
    }
    segments
}

/// Splits `key` at every dot.
pub fn split_key(key: &str) -> (r: Vec<String>)
    ensures
        r@.map_values(|s: String| s@) == split_dots(key@),
{
    split_at_char(key, '.')
}

impl ModSettingsGroup {
    /// The index of the last child named `name` that is a group (`group`) or a setting.
    fn last_named(&self, name: &str, group: bool) -> (r: Option<usize>)
        ensures
            match r {
                Some(j) => {
                    &&& j < self@.len()
                    &&& self@[j as int].0 == name@
                    &&& (self@[j as int].1 is Group <==> group)
                    &&& forall|k: int|
                        j < k < self@.len() ==> !(#[trigger] self@[k].0 == name@ && (self@[k].1 is Group
                            <==> group))
                    &&& group ==> find_group(self@, name@) == Some(self@[j as int].1->Group_0)
                    &&& !group ==> find_leaf(self@, name@) == Some(
                        (self@[j as int].1->Leaf_0, self@[j as int].1->Leaf_1),
                    )
                },
                None => {
                    &&& group ==> find_group(self@, name@) is None
                    &&& !group ==> find_leaf(self@, name@) is None
                },
            },
    {
        proof {
            lemma_children_view_index(self.0@);
        }
        let mut i: usize = self.0.len();
        proof {
            assert(self@.take(i as int) =~= self@);
        }
        while i > 0
            invariant
                i <= self@.len(),
                self@.len() == self.0@.len(),
                forall|k: int|
                    0 <= k < self.0@.len() ==> #[trigger] self@[k] == (self.0@[k].0@, node_view(self.0@[k].1)),
                forall|k: int|
                    i <= k < self@.len() ==> !(#[trigger] self@[k].0 == name@ && (self@[k].1 is Group
                        <==> group)),
                group ==> find_group(self@, name@) == find_group(self@.take(i as int), name@),
                !group ==> find_leaf(self@, name@) == find_leaf(self@.take(i as int), name@),
            decreases i,
        {
            let ghost t = self@.take(i as int);
            proof {
                assert(t.drop_last() =~= self@.take(i - 1));
                assert(t.last() == self@[i - 1]);
            }
            let is_group = match &self.0[i - 1].1 {
                ModSettingsNode::Group(_) => true,
                ModSettingsNode::Setting(_) => false,
            };
            if is_group == group && str_eq(self.0[i - 1].0.as_str(), name) {
                return Some(i - 1);
            }
            i = i - 1;
        }
        None
    }

    /// Where a child named `name` goes so that names stay in order: after
    /// every child whose name is not greater.
    fn sorted_position(&self, name: &str) -> (r: usize)
        ensures
            r <= self@.len(),
            r > 0 ==> name_le(self@[r - 1].0, name@),
            r < self@.len() ==> name_le(name@, self@[r as int].0),
    {
        proof {
            lemma_children_view_index(self.0@);
        }
        let mut i: usize = 0;
        while i < self.0.len() && name_le_exec(self.0[i].0.as_str(), name)
            invariant
                i <= self@.len(),
                self@.len() == self.0@.len(),
                forall|k: int|
                    0 <= k < self.0@.len() ==> #[trigger] self@[k] == (self.0@[k].0@, node_view(self.0@[k].1)),
                i > 0 ==> name_le(self@[i - 1].0, name@),
            decreases self@.len() - i,
        {
            i = i + 1;
        }
        proof {
            if i < self@.len() {
                lemma_lex_total(encode_utf8(self@[i as int].0), encode_utf8(name@));
            }
        }
        i
    }

    /// Puts `pair` at the path `segments[i..]` below this group, creating the
    /// groups on the way and replacing a setting already there.
    pub(crate) fn insert_path(
        &mut self,
        segments: &Vec<String>,
        i: usize,
        pair: ModSettingPair,
        Ghost(paths): Ghost<Set<Seq<Seq<char>>>>,
    ) -> (r: (usize, bool))
        requires
            i < segments@.len(),
            sorted_deep(old(self)@),
            tidy(old(self)@, segments@.map_values(|s: String| s@).take(i as int), paths),
            paths.contains(segments@.map_values(|s: String| s@)),
        ensures
            sorted_deep(final(self)@),
            tidy(final(self)@, segments@.map_values(|s: String| s@).take(i as int), paths),
            forall|p: Seq<Seq<char>>| #[trigger]
                leaf_at(final(self)@, p) == if p == segments@.map_values(|s: String| s@).skip(
                    i as int,
                ) {
                    Some((pair@, false))
                } else {
                    leaf_at(old(self)@, p)
                },
            // The child for `segments[i]`: a setting for the last segment, a group before it.
            r.0 < final(self)@.len(),
            final(self)@[r.0 as int].0 == segments@[i as int]@,
            final(self)@[r.0 as int].1 is Group <==> i + 1 < segments@.len(),
            // It is new only where no child of that name and kind was there ...
            r.1 ==> final(self)@ == old(self)@.insert(r.0 as int, final(self)@[r.0 as int]),
            r.1 && i + 1 < segments@.len() ==> find_group(old(self)@, segments@[i as int]@) is None,
            r.1 && i + 1 == segments@.len() ==> find_leaf(old(self)@, segments@[i as int]@) is None,
            // ... and otherwise takes the place of the one that was.
            !r.1 ==> final(self)@ == old(self)@.update(r.0 as int, final(self)@[r.0 as int]),
            !r.1 ==> same_slot(old(self)@[r.0 as int], final(self)@[r.0 as int]),
        decreases segments@.len() - i,
    {
        let ghost segs = segments@.map_values(|s: String| s@);
        let ghost path = segs.skip(i as int);
        let ghost prefix = segs.take(i as int);
        let ghost v0 = self@;
        let name = &segments[i];
        proof {
            lemma_children_view_index(self.0@);
            assert(path[0] == name@);
            assert(segs[i as int] == name@);
            assert(prefix.push(name@) =~= segs.take(i + 1));
        }
        if i == segments.len() - 1 {
            let leaf = ModSettingsNode::Setting(TogglableSetting { pair, included: false });
            let ghost e = (name@, node_view(leaf));
            proof {
                assert(segs.take(i + 1) =~= segs);
                assert(slot_tidy(e, prefix, paths));
            }
            let r = match self.last_named(name.as_str(), false) {
                Some(j) => {
                    self.0.set(j, (name.clone(), leaf));
                    proof {
                        lemma_tidy_update(v0, j as int, e, prefix, paths);
                        lemma_children_view_ext(self.0@, self.0@, v0.update(j as int, e));
                        assert forall|x: Seq<char>| true implies find_group(self@, x) == find_group(v0, x)
                            && find_leaf(self@, x) == (if x == name@ {
                            Some((pair@, false))
                        } else {
                            find_leaf(v0, x)
                        }) by {
                            lemma_update_last(v0, j as int, e, x);
                        }
                        lemma_sorted_update(v0, j as int, e);
                    }
                    (j, false)
                },
                None => {
                    let pos = self.sorted_position(name.as_str());
                    self.0.insert(pos, (name.clone(), leaf));
                    proof {
                        lemma_find_leaf_none(v0, name@);
                        assert forall|k: int| 0 <= k < v0.len() implies !same_slot(#[trigger] v0[k], e) by {
                            assert(!(v0[k].0 == name@ && v0[k].1 is Leaf));
                        }
                        lemma_tidy_insert(v0, pos as int, e, prefix, paths);
                        lemma_children_view_ext(self.0@, self.0@, v0.insert(pos as int, e));
                        assert forall|x: Seq<char>| true implies find_group(self@, x) == find_group(v0, x)
                            && find_leaf(self@, x) == (if x == name@ {
                            Some((pair@, false))
                        } else {
                            find_leaf(v0, x)
                        }) by {
                            lemma_insert_fresh(v0, pos as int, e, x);
                        }
                        lemma_sorted_insert(v0, pos as int, e);
                    }
                    (pos, true)
                },
            };
            proof {
                assert forall|p: Seq<Seq<char>>| #[trigger] leaf_at(self@, p) == if p == path {
                    Some((pair@, false))
                } else {
                    leaf_at(v0, p)
                } by {
                    if p.len() == 1 && p[0] == name@ {
                        assert(p =~= path);
                    }
                }
            }
            r
        } else {
            let found = self.last_named(name.as_str(), true);
            let j = match found {
                Some(j) => j,
                None => {
                    let pos = self.sorted_position(name.as_str());
                    let fresh = ModSettingsNode::Group(ModSettingsGroup(Vec::new()));
                    let ghost e = (name@, node_view(fresh));
                    proof {
                        assert(children_view(Seq::<(String, ModSettingsNode)>::empty()) =~= Seq::<
                            (Seq<char>, NodeView),
                        >::empty());
                    }
                    self.0.insert(pos, (name.clone(), fresh));
                    proof {
                        lemma_children_view_ext(self.0@, self.0@, v0.insert(pos as int, e));
                        lemma_sorted_insert(v0, pos as int, e);
                        assert(segs.take(i + 1) =~= prefix.push(name@));
                        assert(extends(segs, prefix.push(name@)));
                        assert(slot_tidy(e, prefix, paths));
                        lemma_find_group_none(v0, name@);
                        assert forall|k: int| 0 <= k < v0.len() implies !same_slot(#[trigger] v0[k], e) by {
                            assert(!(v0[k].0 == name@ && v0[k].1 is Group));
                        }
                        lemma_tidy_insert(v0, pos as int, e, prefix, paths);
                    }
                    pos
                },
            };
            let ghost v1 = self@;
            let ghost g0 = (name@, NodeView::Group(Seq::<(Seq<char>, NodeView)>::empty()));
            proof {
                match found {
                    Some(_) => {
                        assert(v1 == v0);
                        assert forall|x: Seq<char>|
                            true implies find_leaf(v1, x) == find_leaf(v0, x) && (x != name@
                            ==> find_group(v1, x) == find_group(v0, x)) by {}
                        assert forall|k: int| j < k < v1.len() implies !same_slot(
                            #[trigger] v1[k],
                            g0,
                        ) by {
                            assert(!(v0[k].0 == name@ && (v0[k].1 is Group <==> true)));
                        }
                    },
                    None => {
                        assert forall|x: Seq<char>|
                            true implies find_leaf(v1, x) == find_leaf(v0, x) && find_group(v1, x) == (
                            if x == name@ {
                                Some(Seq::<(Seq<char>, NodeView)>::empty())
                            } else {
                                find_group(v0, x)
                            }) by {
                            lemma_insert_fresh(v0, j as int, g0, x);
                        }
                        lemma_find_group_none(v0, name@);
                        assert forall|k: int| j < k < v1.len() implies !same_slot(
                            #[trigger] v1[k],
                            g0,
                        ) by {
                            assert(v1[k] == v0[k - 1]);
                        }
                    },
                }
                lemma_children_view_index(self.0@);
                lemma_sorted_deep_iff(v1);
                lemma_tidy_iff(v1, prefix, paths);
                assert(slot_tidy(v1[j as int], prefix, paths));
            }
            let ghost c = v1[j as int].1->Group_0;
            let ghost pv = pair@;
            let ghost tail = segments@.map_values(|s: String| s@).skip(i + 1);
            let ghost mut c2: Seq<(Seq<char>, NodeView)> = Seq::empty();
            match &mut self.0[j].1 {
                ModSettingsNode::Group(g) => {
                    proof {
                        assert(g@ == c);
                        assert(decreases_to!(segments@.len() - i => segments@.len() - (i + 1)));
                    }
                    proof {
                        assert(tidy(g@, segs.take(i + 1), paths));
                    }
                    g.insert_path(segments, i + 1, pair, Ghost(paths));
                    proof {
                        c2 = g@;
                        assert(tidy(c2, segs.take(i + 1), paths));
                        assert(forall|q: Seq<Seq<char>>| #[trigger] leaf_at(c2, q) == if q == tail {
                            Some((pv, false))
                        } else {
                            leaf_at(c, q)
                        });
                    }
                },
                ModSettingsNode::Setting(_) => {
                    proof {
                        assert(false);
                    }
                },
            }
            proof {
                let e = (name@, NodeView::Group(c2));
                lemma_children_view_index(self.0@);
                assert(self@[j as int] == e);
                lemma_children_view_ext(self.0@, self.0@, v1.update(j as int, e));
                lemma_sorted_update(v1, j as int, e);
                assert(slot_tidy(e, prefix, paths));
                lemma_tidy_update(v1, j as int, e, prefix, paths);
                match found {
                    Some(_) => {},
                    None => {
                        assert(v1.update(j as int, e) =~= v0.insert(j as int, e));
                    },
                }
                assert(path.drop_first() =~= tail);
                assert forall|p: Seq<Seq<char>>| #[trigger] leaf_at(self@, p) == if p == path {
                    Some((pair@, false))
                } else {
                    leaf_at(v0, p)
                } by {
                    if p.len() >= 2 {
                        lemma_update_last(v1, j as int, e, p[0]);
                        if p[0] == name@ {
                            assert(find_group(self@, name@) == Some(c2));
                            assert(leaf_at(self@, p) == leaf_at(c2, p.drop_first()));
                            lemma_leaf_at_empty(p.drop_first());
                            match found {
                                Some(_) => assert(leaf_at(v0, p) == leaf_at(c, p.drop_first())),
                                None => {
                                    assert(c == Seq::<(Seq<char>, NodeView)>::empty());
                                    assert(leaf_at(v0, p) is None);
                                },
                            }
                            if p.drop_first() == tail {
                                assert forall|k: int| 0 <= k < p.len() implies p[k] == path[k] by {
                                    if k > 0 {
                                        assert(p[k] == p.drop_first()[k - 1]);
                                        assert(path[k] == path.drop_first()[k - 1]);
                                    }
                                }
                                assert(p =~= path);
                            }
                        }
                    } else if p.len() == 1 {
                        lemma_update_last(v1, j as int, e, p[0]);
                    }
                }
            }
            (j, found.is_none())
        }
    }

    /// Puts the children of this group, and of every group below it, in name
    /// order; children of equal name keep their order, so every path still
    /// reaches the same setting.
    pub fn sort(&mut self)
        ensures
            final(self)@ == sorted_view(old(self)@),
            sorted_deep(final(self)@),
            forall|p: Seq<Seq<char>>| #[trigger] leaf_at(final(self)@, p) == leaf_at(old(self)@, p),
        decreases old(self).0@,
    {
        let n = self.0.len();
        let ghost old0 = old(self)@;
        proof {
            lemma_children_view_index(old(self).0@);
        }
        let mut i: usize = 0;
        while i < n
            invariant
                n == old(self).0@.len(),
                self.0@.len() == n,
                i <= n,
                old0 == children_view(old(self).0@),
                old0.len() == n,
                forall|k: int| i <= k < n ==> self.0@[k] == old(self).0@[k],
                forall|k: int|
                    0 <= k < i ==> #[trigger] same_slot_leaves(
                        (self.0@[k].0@, node_view(self.0@[k].1)),
                        old0[k],
                    ) && node_sorted(node_view(self.0@[k].1)),
                forall|k: int|
                    0 <= k < i ==> (self.0@[k].0@, node_view(self.0@[k].1)) == child_sorted(
                        #[trigger] old0[k],
                    ),
            decreases n - i,
        {
            let ghost before = self.0@;
            proof {
                lemma_children_view_index(old(self).0@);
            }
            match &mut self.0[i].1 {
                ModSettingsNode::Group(g) => {
                    proof {
                        assert(decreases_to!(old(self).0@ => old(self).0@[i as int]));
                    }
                    g.sort();
                },
                ModSettingsNode::Setting(_) => {},
            }
            proof {
                assert forall|k: int|
                    0 <= k < i + 1 implies #[trigger] same_slot_leaves(
                    (self.0@[k].0@, node_view(self.0@[k].1)),
                    old0[k],
                ) && node_sorted(node_view(self.0@[k].1)) by {
                    if k < i {
                        assert(self.0@[k] == before[k]);
                    }
                }
                assert forall|k: int|
                    0 <= k < i + 1 implies (self.0@[k].0@, node_view(self.0@[k].1)) == child_sorted(
                    #[trigger] old0[k],
                ) by {
                    reveal(child_sorted);
                    if k < i {
                        assert(self.0@[k] == before[k]);
                    }
                }
            }
            i = i + 1;
        }
        let ghost cur = self@;
        proof {
            lemma_children_view_index(self.0@);
            assert(same_shape(cur, old0)) by {
                assert forall|k: int| 0 <= k < cur.len() implies #[trigger] same_slot_leaves(
                    cur[k],
                    old0[k],
                ) by {
                    assert(cur[k] == (self.0@[k].0@, node_view(self.0@[k].1)));
                }
            }
            lemma_children_sorted_index(old0);
            assert(cur =~= children_sorted(old0)) by {
                assert forall|k: int| 0 <= k < cur.len() implies #[trigger] cur[k] == children_sorted(old0)[k] by {
                    assert(cur[k] == (self.0@[k].0@, node_view(self.0@[k].1)));
                    assert((self.0@[k].0@, node_view(self.0@[k].1)) == child_sorted(old0[k]));
                }
            }
            assert forall|k: int| 0 <= k < cur.len() implies node_sorted(#[trigger] cur[k].1) by {
                assert(cur[k] == (self.0@[k].0@, node_view(self.0@[k].1)));
                assert(same_slot_leaves(
                    (self.0@[k].0@, node_view(self.0@[k].1)),
                    old0[k],
                ) && node_sorted(node_view(self.0@[k].1)));
            }
        }
        let mut items: Vec<(String, ModSettingsNode)> = Vec::new();
        std::mem::swap(&mut self.0, &mut items);
        let mut out: Vec<(String, ModSettingsNode)> = Vec::new();
        let ghost mut c: int = 0;
        proof {
            assert(children_view(out@) =~= Seq::<(Seq<char>, NodeView)>::empty());
        }
        while items.len() > 0
            invariant
                0 <= c <= cur.len(),
                items@.len() == cur.len() - c,
                forall|k: int| 0 <= k < items@.len() ==> (#[trigger] items@[k].0@, node_view(items@[k].1)) == cur[c + k],
                forall|k: int| 0 <= k < cur.len() ==> node_sorted(#[trigger] cur[k].1),
                sorted_deep(children_view(out@)),
                children_view(out@) == insertion_sorted(cur.take(c)),
                forall|x: Seq<char>|
                    #[trigger] find_group(children_view(out@), x) == find_group(cur.take(c), x),
                forall|x: Seq<char>|
                    #[trigger] find_leaf(children_view(out@), x) == find_leaf(cur.take(c), x),
            decreases items@.len(),
        {
            let ghost items0 = items@;
            let item = items.remove(0);
            let ghost e = (item.0@, node_view(item.1));
            proof {
                assert(e == cur[c]);
                assert forall|k: int| 0 <= k < items@.len() implies (#[trigger] items@[k].0@, node_view(items@[k].1)) == cur[c + 1 + k] by {
                    assert(items@[k] == items0[k + 1]);
                }
                lemma_children_view_index(out@);
            }
            let ghost v = children_view(out@);
            let mut pos: usize = out.len();
            proof {
                assert(v.take(v.len() as int) =~= v);
            }
            while pos > 0 && !name_le_exec(out[pos - 1].0.as_str(), item.0.as_str())
                invariant
                    pos <= out@.len(),
                    e == (item.0@, node_view(item.1)),
                    v == children_view(out@),
                    insertion_point(v, e) == insertion_point(v.take(pos as int), e),
                    v.len() == out@.len(),
                    forall|k: int| 0 <= k < out@.len() ==> #[trigger] v[k] == (out@[k].0@, node_view(out@[k].1)),
                    forall|k: int| pos <= k < v.len() ==> !name_le(#[trigger] v[k].0, e.0),
                decreases pos,
            {
                proof {
                    assert(v[pos - 1] == (out@[pos - 1].0@, node_view(out@[pos - 1].1)));
                    assert(!name_le(v[pos - 1].0, e.0));
                    assert(v.take(pos as int).drop_last() =~= v.take(pos - 1));
                }
                pos = pos - 1;
            }
            proof {
                if pos > 0 {
                    assert(v.take(pos as int).last() == v[pos - 1]);
                }
                assert(insertion_point(v, e) == pos);
                lemma_lex_reflexive(encode_utf8(e.0));
                assert forall|k: int| pos <= k < v.len() implies #[trigger] v[k].0 != e.0 by {
                    assert(!name_le(v[k].0, e.0));
                }
                if pos < v.len() {
                    lemma_lex_total(encode_utf8(v[pos as int].0), encode_utf8(e.0));
                }
                assert forall|x: Seq<char>| true implies find_group(v.insert(pos as int, e), x) == (if x == e.0 && e.1 is Group {
                    Some(e.1->Group_0)
                } else {
                    find_group(v, x)
                }) && find_leaf(v.insert(pos as int, e), x) == (if x == e.0 && e.1 is Leaf {
                    Some((e.1->Leaf_0, e.1->Leaf_1))
                } else {
                    find_leaf(v, x)
                }) by {
                    lemma_insert_last_of_name(v, pos as int, e, x);
                }
                lemma_sorted_insert(v, pos as int, e);
                assert(cur.take(c + 1).drop_last() =~= cur.take(c));
                assert(cur.take(c + 1).last() == e);
            }
            out.insert(pos, item);
            proof {
                lemma_children_view_ext(out@, out@, v.insert(pos as int, e));
                c = c + 1;
            }
        }
        proof {
            assert(cur.take(c) =~= cur);
            assert(children_view(out@) == sorted_view(old0));
            let fin = children_view(out@);
            assert forall|p: Seq<Seq<char>>| #[trigger] leaf_at(fin, p) == leaf_at(old0, p) by {
                lemma_same_shape_leaf_at(cur, old0, p);
                if p.len() >= 1 {
                    assert(find_group(fin, p[0]) == find_group(cur, p[0]));
                    assert(find_leaf(fin, p[0]) == find_leaf(cur, p[0]));
                }
            }
        }
        self.0 = out;
    }

    /// Sets the flag of every leaf below this group to `included`.
    pub fn include_all(&mut self, included: bool)
        ensures
            final(self)@ == with_include(old(self)@, included),
        decreases old(self).0@,
    {
        let n = self.0.len();
        let mut i: usize = 0;
        proof {
            assert(self.0@.take(0) =~= Seq::<(String, ModSettingsNode)>::empty());
        }
        while i < n
            invariant
                n == old(self).0@.len(),
                self.0@.len() == n,
                i <= n,
                forall|k: int| i <= k < n ==> self.0@[k] == old(self).0@[k],
                children_view(self.0@.take(i as int)) == with_include(
                    children_view(old(self).0@.take(i as int)),
                    included,
                ),
            decreases n - i,
        {
            let ghost before = self.0@;
            let child = &mut self.0[i];
            match &mut child.1 {
                ModSettingsNode::Group(g) => {
                    proof {
                        assert(decreases_to!(old(self).0@ => old(self).0@[i as int]));
                    }
                    g.include_all(included);
                },
                ModSettingsNode::Setting(s) => {
                    s.included = included;
                },
            }
            proof {
                lemma_children_view_take(self.0@, i as int);
                lemma_children_view_take(old(self).0@, i as int);
                assert(self.0@.take(i as int) =~= before.take(i as int));
                lemma_with_include_push(
                    children_view(old(self).0@.take(i as int)),
                    (old(self).0@[i as int].0@, node_view(old(self).0@[i as int].1)),
                    included,
                );
            }
            i = i + 1;
        }
        proof {
            assert(self.0@.take(n as int) =~= self.0@);
            assert(old(self).0@.take(n as int) =~= old(self).0@);
        }
    }

    /// Whether every leaf below this group is included; an empty group is.
    pub fn all_included(&self) -> (r: bool)
        ensures
            r == all_included(self@),
        decreases self.0@,
    {
        let n = self.0.len();
        let mut acc = true;
        let mut i: usize = 0;
        proof {
            assert(self.0@.take(0) =~= Seq::<(String, ModSettingsNode)>::empty());
        }
        while i < n
            invariant
                n == self.0@.len(),
                i <= n,
                acc == all_included(children_view(self.0@.take(i as int))),
            decreases n - i,
        {
            let child = &self.0[i];
            let here = match &child.1 {
                ModSettingsNode::Group(g) => {
                    proof {
                        assert(decreases_to!(self.0@ => self.0@[i as int]));
                    }
                    g.all_included()
                },
                ModSettingsNode::Setting(s) => s.included,
            };
            proof {
                lemma_children_view_take(self.0@, i as int);
                let v = children_view(self.0@.take(i as int)).push(
                    (child.0@, node_view(child.1)),
                );
                assert(v.drop_last() =~= children_view(self.0@.take(i as int)));
            }
            acc = acc && here;
            i = i + 1;
        }
        proof {
            assert(self.0@.take(n as int) =~= self.0@);
        }
        acc
    }

    /// The full dotted keys of the included leaves below this group, in tree order.
    pub fn to_set(&self) -> (r: Vec<String>)
        ensures
            r@.map_values(|k: String| k@) == included_keys(self@),
        decreases self.0@,
    {
        let n = self.0.len();
        let mut out: Vec<String> = Vec::new();
        let mut i: usize = 0;
        proof {
            assert(self.0@.take(0) =~= Seq::<(String, ModSettingsNode)>::empty());
            assert(out@.map_values(|k: String| k@) =~= Seq::<Seq<char>>::empty());
        }
        while i < n
            invariant
                n == self.0@.len(),
                i <= n,
                out@.map_values(|k: String| k@) == included_keys(
                    children_view(self.0@.take(i as int)),
                ),
            decreases n - i,
        {
            let child = &self.0[i];
            let ghost before = out@.map_values(|k: String| k@);
            let ghost prev = children_view(self.0@.take(i as int));
            let ghost v = prev.push((child.0@, node_view(child.1)));
            proof {
                lemma_children_view_take(self.0@, i as int);
                assert(v.drop_last() =~= prev);
            }
            match &child.1 {
                ModSettingsNode::Group(g) => {
                    proof {
                        assert(decreases_to!(self.0@ => self.0@[i as int]));
                    }
                    let sub = g.to_set();
                    let ghost subv = sub@.map_values(|k: String| k@);
                    let mut j: usize = 0;
                    while j < sub.len()
                        invariant
                            j <= sub@.len(),
                            subv == sub@.map_values(|k: String| k@),
                            out@.map_values(|k: String| k@) == before + subv.take(j as int).map_values(
                                |k: Seq<char>| child.0@ + dot() + k,
                            ),
                        decreases sub@.len() - j,
                    {
                        let key = child.0.clone().concat(".").concat(sub[j].as_str());
                        proof {
                            reveal_strlit(".");
                            assert("."@ =~= dot());
                            assert(key@ == child.0@ + dot() + subv[j as int]);
                        }
                        let ghost old_out = out@;
                        out.push(key);
                        proof {
                            assert(out@.map_values(|k: String| k@) =~= old_out.map_values(|k: String| k@).push(key@));
                            assert(subv.take(j + 1) =~= subv.take(j as int).push(subv[j as int]));
                            assert(subv.take(j + 1).map_values(|k: Seq<char>| child.0@ + dot() + k) =~= subv.take(j as int).map_values(|k: Seq<char>| child.0@ + dot() + k).push(child.0@ + dot() + subv[j as int]));
                            assert(out@.map_values(|k: String| k@) =~= before + subv.take(j + 1).map_values(
                                |k: Seq<char>| child.0@ + dot() + k,
                            ));
                        }
                        j = j + 1;
                    }
                    proof {
                        assert(subv.take(sub@.len() as int) =~= subv);
                    }
                },
                ModSettingsNode::Setting(s) => {
                    if s.included {
                        out.push(child.0.clone());
                        proof {
                            assert(out@.map_values(|k: String| k@) =~= before + seq![child.0@]);
                        }
                    } else {
                        proof {
                            assert(before + Seq::<Seq<char>>::empty() =~= before);
                        }
                    }
                },
            }
            i = i + 1;
        }
        proof {
            assert(self.0@.take(n as int) =~= self.0@);
        }
        out
    }
}

} // verus!
