use vstd::prelude::*;

use crate::strutil::{no_char, split_char_seq, views, split_char};

verus! {

broadcast use
    vstd::seq::axiom_seq_index_decreases,
    vstd::std_specs::vec::axiom_vec_index_decreases,
    vstd::std_specs::vec::axiom_vec_decreases_to_view;

/// The mathematical model of a variable tree: a leaf holds a scalar value,
/// a node holds an ordered sequence of named children.
#[verifier::ext_equal]
pub enum TreeV {
    Leaf(Seq<char>),
    Node(Seq<(Seq<char>, TreeV)>),
}

/// A nested variable tree as built by the namespace merger: leaves hold
/// scalar string values, nodes hold an ordered list of named children.
pub enum VarTree {
    Leaf(String),
    Node(Vec<(String, VarTree)>),
}

/// The model of a variable tree.
pub open spec fn tree_view(t: VarTree) -> TreeV
    decreases t,
{
    match t {
        VarTree::Leaf(s) => TreeV::Leaf(s@),
        VarTree::Node(cs) => TreeV::Node(
            Seq::new(
                cs@.len(),
                |i: int|
                    if 0 <= i < cs@.len() {
                        (cs@[i].0@, tree_view(cs@[i].1))
                    } else {
                        (Seq::empty(), TreeV::Node(Seq::empty()))
                    },
            ),
        ),
    }
}

impl View for VarTree {
    type V = TreeV;

    open spec fn view(&self) -> TreeV {
        tree_view(*self)
    }
}

/// The model of an ordered child list.
pub open spec fn kids_of_vec(cs: Seq<(String, VarTree)>) -> Seq<(Seq<char>, TreeV)> {
    Seq::new(cs.len(), |i: int| (cs[i].0@, cs[i].1@))
}

/// The view of a node is the node of its children's views.
pub proof fn lemma_node_view(cs: &Vec<(String, VarTree)>)
    ensures
        (VarTree::Node(*cs))@ == TreeV::Node(kids_of_vec(cs@)),
{
    assert(kids_of_vec(cs@) =~= kids((VarTree::Node(*cs))@));
    assert((VarTree::Node(*cs))@ =~~= TreeV::Node(kids_of_vec(cs@)));
}

/// The children of a tree; a leaf has none.
pub open spec fn kids(t: TreeV) -> Seq<(Seq<char>, TreeV)> {
    match t {
        TreeV::Leaf(_) => Seq::empty(),
        TreeV::Node(cs) => cs,
    }
}

/// Index of the first child named `key`, or -1 when there is none.
pub open spec fn child_idx(cs: Seq<(Seq<char>, TreeV)>, key: Seq<char>) -> int
    decreases cs.len(),
{
    if cs.len() == 0 {
        -1
    } else if cs[0].0 == key {
        0
    } else {
        let r = child_idx(cs.drop_first(), key);
        if r == -1 {
            -1
        } else {
            r + 1
        }
    }
}

/// The subtree reached from `t` by following the path segments in order;
/// the empty path reaches `t` itself.
pub open spec fn lookup(t: TreeV, path: Seq<Seq<char>>) -> Option<TreeV>
    decreases path.len(),
{
    if path.len() == 0 {
        Some(t)
    } else {
        let cs = kids(t);
        let j = child_idx(cs, path[0]);
        if j < 0 || j >= cs.len() {
            None
        } else {
            lookup(cs[j].1, path.drop_first())
        }
    }
}

/// Well-formedness: children of every node carry pairwise distinct, dot-free
/// names.
pub open spec fn wf(t: TreeV) -> bool
    decreases t,
{
    match t {
        TreeV::Leaf(_) => true,
        TreeV::Node(cs) => {
            (forall|i: int, j: int| 0 <= i < j < cs.len() ==> cs[i].0 != cs[j].0)
            && (forall|i: int| 0 <= i < cs.len() ==> no_char((#[trigger] cs[i]).0, '.'))
            && (forall|i: int| 0 <= i < cs.len() ==> wf((#[trigger] cs[i]).1))
        },
    }
}

/// The result of inserting `value` at the path `segs` below `t`: non-final
/// segments become (or reuse) nested nodes, the final segment holds the
/// scalar, and a conflicting earlier node or leaf is replaced wholesale.
/// A child list position already present is kept; a new name goes last.
pub open spec fn spec_insert(t: TreeV, segs: Seq<Seq<char>>, value: Seq<char>) -> TreeV
    decreases segs.len(),
{
    if segs.len() == 0 {
        TreeV::Leaf(value)
    } else {
        let cs = kids(t);
        let j = child_idx(cs, segs[0]);
        let sub_old = if 0 <= j < cs.len() {
            cs[j].1
        } else {
            TreeV::Node(Seq::empty())
        };
        let sub_new = if segs.len() == 1 {
            TreeV::Leaf(value)
        } else {
            spec_insert(sub_old, segs.drop_first(), value)
        };
        if 0 <= j < cs.len() {
            TreeV::Node(cs.update(j, (segs[0], sub_new)))
        } else {
            TreeV::Node(cs.push((segs[0], sub_new)))
        }
    }
}

/// Folds an ordered sequence of (dotted key, value) pairs into `t`,
/// splitting each key on dots; later pairs win over earlier ones.
pub open spec fn merge_into(t: TreeV, pairs: Seq<(Seq<char>, Seq<char>)>) -> TreeV
    decreases pairs.len(),
{
    if pairs.len() == 0 {
        t
    } else {
        merge_into(spec_insert(t, split_char_seq(pairs[0].0, '.'), pairs[0].1), pairs.drop_first())
    }
}

/// The tree produced by the namespace merger from an ordered pair sequence.
pub open spec fn spec_merge(pairs: Seq<(Seq<char>, Seq<char>)>) -> TreeV {
    merge_into(TreeV::Node(Seq::empty()), pairs)
}

/// The views of a vector of string pairs.
pub open spec fn pair_views(ps: Seq<(String, String)>) -> Seq<(Seq<char>, Seq<char>)> {
    ps.map_values(|p: (String, String)| (p.0@, p.1@))
}

pub proof fn lemma_child_idx_props(cs: Seq<(Seq<char>, TreeV)>, key: Seq<char>)
    ensures
        child_idx(cs, key) == -1 ==> forall|i: int| 0 <= i < cs.len() ==> (#[trigger] cs[i]).0 != key,
        child_idx(cs, key) != -1 ==> 0 <= child_idx(cs, key) < cs.len(),
        child_idx(cs, key) != -1 ==> cs[child_idx(cs, key)].0 == key,
        child_idx(cs, key) != -1 ==> forall|i: int| 0 <= i < child_idx(cs, key) ==> (#[trigger] cs[i]).0 != key,
    decreases cs.len(),
{
    if cs.len() != 0 && cs[0].0 != key {
        let rest = cs.drop_first();
        lemma_child_idx_props(rest, key);
        let f = child_idx(cs, key);
        if child_idx(rest, key) == -1 {
            assert forall|i: int| 0 <= i < cs.len() implies (#[trigger] cs[i]).0 != key by {
                if i > 0 {
                    assert(cs[i] == rest[i - 1]);
                }
            }
        } else {
            assert(cs[f] == rest[f - 1]);
            assert forall|i: int| 0 <= i < f implies (#[trigger] cs[i]).0 != key by {
                if i > 0 {
                    assert(cs[i] == rest[i - 1]);
                }
            }
        }
    }
}

pub proof fn lemma_child_idx_at(cs: Seq<(Seq<char>, TreeV)>, key: Seq<char>, k: int)
    requires
        0 <= k < cs.len(),
        cs[k].0 == key,
        forall|i: int| 0 <= i < k ==> (#[trigger] cs[i]).0 != key,
    ensures
        child_idx(cs, key) == k,
    decreases cs.len(),
{
    if k > 0 {
        let rest = cs.drop_first();
        assert(rest[k - 1] == cs[k]);
        assert forall|i: int| 0 <= i < k - 1 implies (#[trigger] rest[i]).0 != key by {
            assert(rest[i] == cs[i + 1]);
        }
        lemma_child_idx_at(rest, key, k - 1);
    }
}

pub proof fn lemma_child_idx_none(cs: Seq<(Seq<char>, TreeV)>, key: Seq<char>)
    requires
        forall|i: int| 0 <= i < cs.len() ==> (#[trigger] cs[i]).0 != key,
    ensures
        child_idx(cs, key) == -1,
    decreases cs.len(),
{
    if cs.len() != 0 {
        let rest = cs.drop_first();
        assert forall|i: int| 0 <= i < rest.len() implies (#[trigger] rest[i]).0 != key by {
            assert(rest[i] == cs[i + 1]);
        }
        lemma_child_idx_none(rest, key);
    }
}

/// Inserts `value` at the path `segs[i..]` below `t`, consuming `t`.
pub fn insert_path(t: VarTree, segs: &Vec<String>, i: usize, value: String) -> (r: VarTree)
    requires
        i < segs.len(),
    ensures
        r@ == spec_insert(t@, views(segs@).skip(i as int), value@),
    decreases segs.len() - i,
{
    let ghost spath = views(segs@).skip(i as int);
    let ghost t_v = t@;
    let mut cs: Vec<(String, VarTree)> = match t {
        VarTree::Node(cs) => cs,
        VarTree::Leaf(_) => Vec::new(),
    };
    proof {
        assert(spath[0] == segs@[i as int]@);
        assert(kids_of_vec(cs@) =~= kids(t_v));
    }
    let ghost ks = kids_of_vec(cs@);
    // find the first child whose name equals segs[i]
    let mut j: usize = 0;
    while j < cs.len() && !(cs[j].0 == segs[i])
        invariant
            0 <= j <= cs.len(),
            ks == kids_of_vec(cs@),
            forall|k: int| 0 <= k < j ==> (#[trigger] ks[k]).0 != segs@[i as int]@,
            i < segs.len(),
        decreases cs.len() - j,
    {
        proof {
            assert(ks[j as int].0 != segs@[i as int]@);
        }
        j = j + 1;
    }
    let found = j < cs.len();
    proof {
        if found {
            assert(ks[j as int].0 == segs@[i as int]@);
            lemma_child_idx_at(ks, spath[0], j as int);
        } else {
            lemma_child_idx_none(ks, spath[0]);
        }
    }
    let last = i == segs.len() - 1;
    let ghost sub_spec = if last {
        TreeV::Leaf(value@)
    } else {
        spec_insert(
            if found { ks[j as int].1 } else { TreeV::Node(Seq::empty()) },
            spath.drop_first(),
            value@,
        )
    };
    proof {
        if !last {
            assert(views(segs@).skip(i as int + 1) =~= spath.drop_first());
        }
    }
    if found {
        let (name, sub_old) = cs.remove(j);
        let sub_new = if last {
            VarTree::Leaf(value)
        } else {
            insert_path(sub_old, segs, i + 1, value)
        };
        proof {
            assert(sub_old@ == ks[j as int].1);
            assert(sub_new@ == sub_spec);
        }
        cs.insert(j, (name, sub_new));
        proof {
            lemma_node_view(&cs);
            assert(name@ == spath[0]);
            assert(kids_of_vec(cs@) =~= ks.update(j as int, (spath[0], sub_spec)));
        }
        let r = VarTree::Node(cs);
        proof {
            assert(r@ == spec_insert(t_v, spath, value@));
        }
        r
    } else {
        let name = segs[i].clone();
        let sub_new = if last {
            VarTree::Leaf(value)
        } else {
            let empty_cs: Vec<(String, VarTree)> = Vec::new();
            proof {
                lemma_node_view(&empty_cs);
                assert(kids_of_vec(empty_cs@) =~= Seq::<(Seq<char>, TreeV)>::empty());
            }
            let fresh = VarTree::Node(empty_cs);
            insert_path(fresh, segs, i + 1, value)
        };
        proof {
            assert(sub_new@ == sub_spec);
        }
        cs.push((name, sub_new));
        proof {
            lemma_node_view(&cs);
            assert(kids_of_vec(cs@) =~= ks.push((spath[0], sub_spec)));
        }
        let r = VarTree::Node(cs);
        proof {
            assert(r@ == spec_insert(t_v, spath, value@));
        }
        r
    }
}

/// Builds the merged tree of an ordered (dotted key, value) pair sequence,
/// applying pairs in order; later pairs win.
pub fn merge_pairs(pairs: &Vec<(String, String)>) -> (r: VarTree)
    ensures
        r@ == spec_merge(pair_views(pairs@)),
{
    let root_cs: Vec<(String, VarTree)> = Vec::new();
    proof {
        lemma_node_view(&root_cs);
        assert(kids_of_vec(root_cs@) =~= Seq::<(Seq<char>, TreeV)>::empty());
    }
    let mut t = VarTree::Node(root_cs);
    proof {
        assert(pair_views(pairs@).skip(0) =~= pair_views(pairs@));
    }
    let mut idx: usize = 0;
    while idx < pairs.len()
        invariant
            0 <= idx <= pairs.len(),
            spec_merge(pair_views(pairs@)) == merge_into(t@, pair_views(pairs@).skip(idx as int)),
        decreases pairs.len() - idx,
    {
        let segs = split_char(&pairs[idx].0, '.');
        let v = pairs[idx].1.clone();
        proof {
            let ps = pair_views(pairs@);
            assert(ps.skip(idx as int)[0] == ps[idx as int]);
            assert(ps.skip(idx as int).drop_first() =~= ps.skip(idx as int + 1));
            assert(views(segs@).skip(0) =~= views(segs@));
        }
        t = insert_path(t, &segs, 0, v);
        idx = idx + 1;
    }
    proof {
        assert(pair_views(pairs@).skip(pairs@.len() as int) =~= Seq::<(Seq<char>, Seq<char>)>::empty());
    }
    t
}


/// `a` is a (not necessarily strict) prefix of the segment path `b`.
pub open spec fn seg_prefix(a: Seq<Seq<char>>, b: Seq<Seq<char>>) -> bool {
    a.len() <= b.len() && forall|i: int| 0 <= i < a.len() ==> a[i] == b[i]
}

/// Two segment paths name overlapping positions: one is a prefix of the other.
pub open spec fn path_related(a: Seq<Seq<char>>, b: Seq<Seq<char>>) -> bool {
    seg_prefix(a, b) || seg_prefix(b, a)
}

/// Splitting never yields an empty segment list.
pub proof fn lemma_split_nonempty(s: Seq<char>, c: char)
    ensures
        split_char_seq(s, c).len() >= 1,
{
}

/// After inserting `value` at `segs`, following `segs` reaches that value.
pub proof fn lemma_insert_lookup(t: TreeV, segs: Seq<Seq<char>>, v: Seq<char>)
    requires
        segs.len() > 0,
    ensures
        lookup(spec_insert(t, segs, v), segs) == Some(TreeV::Leaf(v)),
    decreases segs.len(),
{
    let cs = kids(t);
    let key = segs[0];
    let j = child_idx(cs, key);
    lemma_child_idx_props(cs, key);
    let sub_old = if 0 <= j < cs.len() { cs[j].1 } else { TreeV::Node(Seq::empty()) };
    let sub_new = if segs.len() == 1 { TreeV::Leaf(v) } else { spec_insert(sub_old, segs.drop_first(), v) };
    if 0 <= j < cs.len() {
        let cs2 = cs.update(j, (key, sub_new));
        assert forall|m: int| 0 <= m < j implies (#[trigger] cs2[m]).0 != key by {
            assert(cs2[m] == cs[m]);
        }
        lemma_child_idx_at(cs2, key, j);
        if segs.len() > 1 {
            lemma_insert_lookup(sub_old, segs.drop_first(), v);
        }
    } else {
        let cs2 = cs.push((key, sub_new));
        assert forall|m: int| 0 <= m < cs.len() implies (#[trigger] cs2[m]).0 != key by {
            assert(cs2[m] == cs[m]);
        }
        lemma_child_idx_at(cs2, key, cs.len() as int);
        if segs.len() > 1 {
            lemma_insert_lookup(sub_old, segs.drop_first(), v);
        }
    }
}

/// Inserting at `segs` leaves every path unrelated to `segs` unchanged.
pub proof fn lemma_insert_frame(t: TreeV, segs: Seq<Seq<char>>, v: Seq<char>, p: Seq<Seq<char>>)
    requires
        segs.len() > 0,
        p.len() > 0,
        !path_related(segs, p),
    ensures
        lookup(spec_insert(t, segs, v), p) == lookup(t, p),
    decreases segs.len(),
{
    let cs = kids(t);
    let key = segs[0];
    let j = child_idx(cs, key);
    lemma_child_idx_props(cs, key);
    let sub_old = if 0 <= j < cs.len() { cs[j].1 } else { TreeV::Node(Seq::empty()) };
    let sub_new = if segs.len() == 1 { TreeV::Leaf(v) } else { spec_insert(sub_old, segs.drop_first(), v) };
    let cs2 = if 0 <= j < cs.len() { cs.update(j, (key, sub_new)) } else { cs.push((key, sub_new)) };
    let r = spec_insert(t, segs, v);
    assert(kids(r) == cs2);
    if p[0] != key {
        // the scan for p's head is unaffected
        let pj = child_idx(cs, p[0]);
        lemma_child_idx_props(cs, p[0]);
        if pj == -1 {
            assert forall|m: int| 0 <= m < cs2.len() implies (#[trigger] cs2[m]).0 != p[0] by {
                if 0 <= j < cs.len() {
                    if m != j {
                        assert(cs2[m] == cs[m]);
                    }
                } else {
                    if m < cs.len() {
                        assert(cs2[m] == cs[m]);
                    }
                }
            }
            lemma_child_idx_none(cs2, p[0]);
        } else {
            assert(pj != j);
            assert(cs2[pj] == cs[pj]);
            assert forall|m: int| 0 <= m < pj implies (#[trigger] cs2[m]).0 != p[0] by {
                if m != j {
                    assert(cs2[m] == cs[m]);
                }
            }
            lemma_child_idx_at(cs2, p[0], pj);
        }
    } else {
        // both paths descend through the same child; they diverge deeper down
        if p.len() == 1 {
            assert(seg_prefix(p, segs));
        }
        if segs.len() == 1 {
            assert(seg_prefix(segs, p));
        }
        assert(p.len() > 1 && segs.len() > 1);
        let sd = segs.drop_first();
        let pd = p.drop_first();
        assert(!path_related(sd, pd)) by {
            if seg_prefix(sd, pd) {
                assert forall|i: int| 0 <= i < segs.len() implies segs[i] == p[i] by {
                    if i > 0 {
                        assert(sd[i - 1] == pd[i - 1]);
                    }
                }
                assert(seg_prefix(segs, p));
            }
            if seg_prefix(pd, sd) {
                assert forall|i: int| 0 <= i < p.len() implies p[i] == segs[i] by {
                    if i > 0 {
                        assert(pd[i - 1] == sd[i - 1]);
                    }
                }
                assert(seg_prefix(p, segs));
            }
        }
        lemma_insert_frame(sub_old, sd, v, pd);
        let j2 = child_idx(cs2, key);
        if 0 <= j < cs.len() {
            assert forall|m: int| 0 <= m < j implies (#[trigger] cs2[m]).0 != key by {
                assert(cs2[m] == cs[m]);
            }
            lemma_child_idx_at(cs2, key, j);
            assert(lookup(r, p) == lookup(sub_new, pd));
            assert(lookup(t, p) == lookup(sub_old, pd));
        } else {
            assert forall|m: int| 0 <= m < cs.len() implies (#[trigger] cs2[m]).0 != key by {
                assert(cs2[m] == cs[m]);
            }
            lemma_child_idx_at(cs2, key, cs.len() as int);
            assert(lookup(r, p) == lookup(sub_new, pd));
            // p is absent from t and from the fresh empty node alike
            assert(lookup(t, p) == None::<TreeV>);
            assert(lookup(TreeV::Node(Seq::empty()), pd) == None::<TreeV>) by {
                lemma_child_idx_none(Seq::empty(), pd[0]);
            }
        }
    }
}

/// Merging pairs leaves every path unrelated to all their keys unchanged.
pub proof fn lemma_merge_frame(t: TreeV, pairs: Seq<(Seq<char>, Seq<char>)>, p: Seq<Seq<char>>)
    requires
        p.len() > 0,
        forall|m: int| 0 <= m < pairs.len()
            ==> !path_related(split_char_seq((#[trigger] pairs[m]).0, '.'), p),
    ensures
        lookup(merge_into(t, pairs), p) == lookup(t, p),
    decreases pairs.len(),
{
    if pairs.len() > 0 {
        let segs = split_char_seq(pairs[0].0, '.');
        lemma_split_nonempty(pairs[0].0, '.');
        lemma_insert_frame(t, segs, pairs[0].1, p);
        let t1 = spec_insert(t, segs, pairs[0].1);
        assert forall|m: int| 0 <= m < pairs.drop_first().len()
            implies !path_related(split_char_seq((#[trigger] pairs.drop_first()[m]).0, '.'), p) by {
            assert(pairs.drop_first()[m] == pairs[m + 1]);
        }
        lemma_merge_frame(t1, pairs.drop_first(), p);
    }
}

/// The value found under a key is the one of its last insertion, provided no
/// later pair overlaps that key's path: later pairs win over earlier ones.
pub proof fn lemma_merge_last_wins(t: TreeV, pairs: Seq<(Seq<char>, Seq<char>)>, l: int)
    requires
        0 <= l < pairs.len(),
        forall|m: int| l < m < pairs.len()
            ==> !path_related(split_char_seq((#[trigger] pairs[m]).0, '.'), split_char_seq(pairs[l].0, '.')),
    ensures
        lookup(merge_into(t, pairs), split_char_seq(pairs[l].0, '.'))
            == Some(TreeV::Leaf(pairs[l].1)),
    decreases pairs.len(),
{
    let segs = split_char_seq(pairs[0].0, '.');
    lemma_split_nonempty(pairs[0].0, '.');
    let t1 = spec_insert(t, segs, pairs[0].1);
    let rest = pairs.drop_first();
    if l == 0 {
        lemma_insert_lookup(t, segs, pairs[0].1);
        lemma_split_nonempty(pairs[l].0, '.');
        assert forall|m: int| 0 <= m < rest.len()
            implies !path_related(split_char_seq((#[trigger] rest[m]).0, '.'), segs) by {
            assert(rest[m] == pairs[m + 1]);
        }
        lemma_merge_frame(t1, rest, segs);
    } else {
        assert forall|m: int| l - 1 < m < rest.len()
            implies !path_related(
                split_char_seq((#[trigger] rest[m]).0, '.'),
                split_char_seq(rest[l - 1].0, '.'),
            ) by {
            assert(rest[m] == pairs[m + 1]);
            assert(rest[l - 1] == pairs[l]);
        }
        lemma_merge_last_wins(t1, rest, l - 1);
        assert(rest[l - 1] == pairs[l]);
    }
}

/// For pairs whose keys are pairwise non-overlapping as segment paths, every
/// pair's value is reachable in the merged tree by following its key's
/// segments.
pub proof fn lemma_merge_reachable(pairs: Seq<(Seq<char>, Seq<char>)>)
    requires
        forall|a: int, b: int|
            0 <= a < pairs.len() && 0 <= b < pairs.len() && a != b
                ==> !path_related(
                    split_char_seq((#[trigger] pairs[a]).0, '.'),
                    split_char_seq((#[trigger] pairs[b]).0, '.'),
                ),
    ensures
        forall|i: int| 0 <= i < pairs.len()
            ==> lookup(spec_merge(pairs), split_char_seq((#[trigger] pairs[i]).0, '.'))
                == Some(TreeV::Leaf(pairs[i].1)),
{
    assert forall|i: int| 0 <= i < pairs.len()
        implies lookup(spec_merge(pairs), split_char_seq((#[trigger] pairs[i]).0, '.'))
            == Some(TreeV::Leaf(pairs[i].1)) by {
        lemma_merge_last_wins(TreeV::Node(Seq::empty()), pairs, i);
    }
}


/// The dotted key of a child under prefix `pre`.
pub open spec fn child_pre(pre: Seq<char>, k: Seq<char>) -> Seq<char> {
    if pre.len() == 0 {
        k
    } else {
        pre + seq!['.'] + k
    }
}

/// The (dotted key, value) pairs of all leaves below `t`, depth first in
/// sibling order, each key extending the dotted prefix `pre`.
pub open spec fn spec_flatten(t: TreeV, pre: Seq<char>) -> Seq<(Seq<char>, Seq<char>)>
    decreases t, 0nat,
{
    match t {
        TreeV::Leaf(v) => seq![(pre, v)],
        TreeV::Node(cs) => flatten_upto(cs, pre, cs.len() as int),
    }
}

/// The flattened pairs of the first `n` children.
pub open spec fn flatten_upto(cs: Seq<(Seq<char>, TreeV)>, pre: Seq<char>, n: int) -> Seq<(Seq<char>, Seq<char>)>
    decreases cs, n as nat,
{
    if n <= 0 || n > cs.len() {
        Seq::empty()
    } else {
        flatten_upto(cs, pre, n - 1) + spec_flatten(cs[n - 1].1, child_pre(pre, cs[n - 1].0))
    }
}


/// No two distinct keys name overlapping tree positions.
pub open spec fn keys_unrelated(ps: Seq<(Seq<char>, Seq<char>)>) -> bool {
    forall|a: int, b: int|
        0 <= a < ps.len() && 0 <= b < ps.len() && a != b
            ==> !path_related(
                split_char_seq((#[trigger] ps[a]).0, '.'),
                split_char_seq((#[trigger] ps[b]).0, '.'),
            )
}

/// Inserting a dot-free path keeps a tree well-formed.
pub proof fn lemma_insert_wf(t: TreeV, segs: Seq<Seq<char>>, v: Seq<char>)
    requires
        wf(t),
        segs.len() > 0,
        forall|i: int| 0 <= i < segs.len() ==> no_char(#[trigger] segs[i], '.'),
    ensures
        wf(spec_insert(t, segs, v)),
    decreases segs.len(),
{
    let cs = kids(t);
    let key = segs[0];
    let j = child_idx(cs, key);
    lemma_child_idx_props(cs, key);
    let sub_old = if 0 <= j < cs.len() { cs[j].1 } else { TreeV::Node(Seq::empty()) };
    let sub_new = if segs.len() == 1 { TreeV::Leaf(v) } else { spec_insert(sub_old, segs.drop_first(), v) };
    if segs.len() > 1 {
        assert forall|i: int| 0 <= i < segs.drop_first().len()
            implies no_char(#[trigger] segs.drop_first()[i], '.') by {
            assert(segs.drop_first()[i] == segs[i + 1]);
        }
        if 0 <= j < cs.len() {
            lemma_insert_wf(sub_old, segs.drop_first(), v);
        } else {
            lemma_insert_wf(TreeV::Node(Seq::empty()), segs.drop_first(), v);
        }
    }
    let cs2 = kids(spec_insert(t, segs, v));
    assert forall|a: int, b: int| 0 <= a < b < cs2.len() implies cs2[a].0 != cs2[b].0 by {
        if 0 <= j < cs.len() {
            if a != j {
                assert(cs2[a] == cs[a]);
            }
            if b != j {
                assert(cs2[b] == cs[b]);
            }
        } else {
            if a < cs.len() {
                assert(cs2[a] == cs[a]);
            }
            if b < cs.len() {
                assert(cs2[b] == cs[b]);
            }
        }
    }
    assert forall|a: int| 0 <= a < cs2.len() implies no_char((#[trigger] cs2[a]).0, '.')
        && wf((#[trigger] cs2[a]).1) by {
        if 0 <= j < cs.len() {
            if a != j {
                assert(cs2[a] == cs[a]);
            } else {
                assert(cs2[a] == (key, sub_new));
            }
        } else {
            if a < cs.len() {
                assert(cs2[a] == cs[a]);
            } else {
                assert(cs2[a] == (key, sub_new));
            }
        }
    }
}

/// Merging dotted pairs keeps a tree well-formed.
pub proof fn lemma_merge_wf(t: TreeV, pairs: Seq<(Seq<char>, Seq<char>)>)
    requires
        wf(t),
    ensures
        wf(merge_into(t, pairs)),
    decreases pairs.len(),
{
    if pairs.len() > 0 {
        let segs = split_char_seq(pairs[0].0, '.');
        lemma_split_nonempty(pairs[0].0, '.');
        crate::strutil::lemma_split_parts_free(pairs[0].0, '.');
        lemma_insert_wf(t, segs, pairs[0].1);
        lemma_merge_wf(spec_insert(t, segs, pairs[0].1), pairs.drop_first());
    }
}

/// Every key of a flattened well-formed tree extends the prefix, and no two
/// keys name overlapping positions.
pub proof fn lemma_flatten_keys(t: TreeV, pre: Seq<char>)
    requires
        wf(t),
        pre.len() > 0,
    ensures
        forall|a: int| 0 <= a < spec_flatten(t, pre).len()
            ==> seg_prefix(
                split_char_seq(pre, '.'),
                split_char_seq((#[trigger] spec_flatten(t, pre)[a]).0, '.'),
            ),
        keys_unrelated(spec_flatten(t, pre)),
    decreases t, 0nat,
{
    match t {
        TreeV::Leaf(_) => {
        },
        TreeV::Node(cs) => {
            lemma_flatten_upto_keys(cs, pre, cs.len() as int);
            let fl = spec_flatten(t, pre);
            let pp = split_char_seq(pre, '.');
            assert forall|a: int| 0 <= a < fl.len()
                implies seg_prefix(pp, split_char_seq((#[trigger] fl[a]).0, '.')) by {
                let i = choose|i: int|
                    0 <= i < cs.len() && seg_prefix(
                        pp.push(cs[i].0),
                        split_char_seq(fl[a].0, '.'),
                    );
                assert(seg_prefix(pp.push(cs[i].0), split_char_seq(fl[a].0, '.')));
                assert forall|m: int| 0 <= m < pp.len() implies pp[m]
                    == split_char_seq(fl[a].0, '.')[m] by {
                    assert(pp.push(cs[i].0)[m] == pp[m]);
                }
            }
        },
    }
}

/// As `lemma_flatten_keys`, over the first `n` children of a node: every key
/// extends the prefix by one of those children's names.
pub proof fn lemma_flatten_upto_keys(cs: Seq<(Seq<char>, TreeV)>, pre: Seq<char>, n: int)
    requires
        n <= cs.len(),
        pre.len() > 0,
        forall|i: int, j: int| 0 <= i < j < cs.len() ==> cs[i].0 != cs[j].0,
        forall|i: int| 0 <= i < cs.len() ==> no_char((#[trigger] cs[i]).0, '.'),
        forall|i: int| 0 <= i < cs.len() ==> wf((#[trigger] cs[i]).1),
    ensures
        forall|a: int| 0 <= a < flatten_upto(cs, pre, n).len()
            ==> exists|i: int|
                0 <= i < n && seg_prefix(
                    split_char_seq(pre, '.').push(cs[i].0),
                    split_char_seq((#[trigger] flatten_upto(cs, pre, n)[a]).0, '.'),
                ),
        keys_unrelated(flatten_upto(cs, pre, n)),
    decreases cs, n as nat,
{
    if n > 0 {
        lemma_flatten_upto_keys(cs, pre, n - 1);
        let pp = split_char_seq(pre, '.');
        let k = cs[n - 1].0;
        let pc = child_pre(pre, k);
        assert(pc == pre + seq!['.'] + k);
        crate::strutil::lemma_split_append(pre, k, '.');
        crate::strutil::lemma_split_single(k, '.');
        assert(split_char_seq(pc, '.') =~= pp.push(k));
        lemma_flatten_keys(cs[n - 1].1, pc);
        let prev = flatten_upto(cs, pre, n - 1);
        let ch = spec_flatten(cs[n - 1].1, pc);
        let fl = flatten_upto(cs, pre, n);
        assert(fl == prev + ch);
        // every key extends the prefix by one of the first n names
        assert forall|a: int| 0 <= a < fl.len()
            implies exists|i: int|
                0 <= i < n && seg_prefix(
                    pp.push(cs[i].0),
                    split_char_seq((#[trigger] fl[a]).0, '.'),
                ) by {
            if a < prev.len() {
                assert(fl[a] == prev[a]);
                let i = choose|i: int|
                    0 <= i < n - 1 && seg_prefix(pp.push(cs[i].0), split_char_seq(prev[a].0, '.'));
                assert(0 <= i < n && seg_prefix(pp.push(cs[i].0), split_char_seq(fl[a].0, '.')));
            } else {
                assert(fl[a] == ch[a - prev.len()]);
                assert(seg_prefix(pp.push(k), split_char_seq(fl[a].0, '.')));
                assert(0 <= n - 1 < n && seg_prefix(
                    pp.push(cs[n - 1].0),
                    split_char_seq(fl[a].0, '.'),
                ));
            }
        }
        // no two keys overlap
        assert forall|a: int, b: int|
            0 <= a < fl.len() && 0 <= b < fl.len() && a != b
            implies !path_related(
                split_char_seq((#[trigger] fl[a]).0, '.'),
                split_char_seq((#[trigger] fl[b]).0, '.'),
            ) by {
            let sa = split_char_seq(fl[a].0, '.');
            let sb = split_char_seq(fl[b].0, '.');
            if a < prev.len() && b < prev.len() {
                assert(fl[a] == prev[a]);
                assert(fl[b] == prev[b]);
            } else if a >= prev.len() && b >= prev.len() {
                assert(fl[a] == ch[a - prev.len()]);
                assert(fl[b] == ch[b - prev.len()]);
            } else {
                let (x, y) = if a < prev.len() { (a, b) } else { (b, a) };
                // x lies in an earlier child's pairs, y in the last child's
                assert(fl[x] == prev[x]);
                assert(fl[y] == ch[y - prev.len()]);
                let sx = split_char_seq(fl[x].0, '.');
                let sy = split_char_seq(fl[y].0, '.');
                let i = choose|i: int|
                    0 <= i < n - 1 && seg_prefix(pp.push(cs[i].0), split_char_seq(prev[x].0, '.'));
                assert(seg_prefix(pp.push(cs[i].0), sx));
                assert(seg_prefix(pp.push(k), sy));
                assert(cs[i].0 != k);
                assert(sx[pp.len() as int] == cs[i].0);
                assert(sy[pp.len() as int] == k);
                assert(sx.len() > pp.len() && sy.len() > pp.len());
                assert(!path_related(sx, sy));
            }
        }
    }
}


/// The scalar at `path` in `t`, when `path` reaches a leaf.
pub open spec fn leaf_at(t: TreeV, path: Seq<Seq<char>>) -> Option<Seq<char>> {
    match lookup(t, path) {
        Some(TreeV::Leaf(v)) => Some(v),
        _ => None,
    }
}

/// The height of a tree: leaves have height zero.
pub open spec fn theight(t: TreeV) -> nat
    decreases t, 0nat,
{
    match t {
        TreeV::Leaf(_) => 0,
        TreeV::Node(cs) => 1 + kheight(cs, cs.len() as int),
    }
}

/// The largest height among the first `n` children.
pub open spec fn kheight(cs: Seq<(Seq<char>, TreeV)>, n: int) -> nat
    decreases cs, n as nat,
{
    if n <= 0 || n > cs.len() {
        0
    } else if kheight(cs, n - 1) >= theight(cs[n - 1].1) {
        kheight(cs, n - 1)
    } else {
        theight(cs[n - 1].1)
    }
}

/// Every child is lower than the bound of its first `n` siblings.
pub proof fn lemma_kheight_elem(cs: Seq<(Seq<char>, TreeV)>, n: int, i: int)
    requires
        0 <= i < n <= cs.len(),
    ensures
        theight(cs[i].1) <= kheight(cs, n),
    decreases n,
{
    if i < n - 1 {
        lemma_kheight_elem(cs, n - 1, i);
    }
}

/// Flattens the leaves below `t` to (dotted key, value) pairs, every key
/// extending the dotted prefix `pre`.
#[verifier::loop_isolation(false)]
pub fn flatten_tree(t: &VarTree, pre: &String) -> (r: Vec<(String, String)>)
    ensures
        pair_views(r@) == spec_flatten(t@, pre@),
    decreases theight(t@),
{
    let ghost t_v = t@;
    match t {
        VarTree::Leaf(v) => {
            let r = vec![(pre.clone(), v.clone())];
            proof {
                assert(pair_views(r@) =~= spec_flatten(t_v, pre@));
            }
            r
        },
        VarTree::Node(cs) => {
            proof {
                assert(kids_of_vec(cs@) =~= kids(t_v));
            }
            let ghost ks = kids_of_vec(cs@);
            let mut out: Vec<(String, String)> = Vec::new();
            let mut j: usize = 0;
            proof {
                assert(pair_views(out@) =~= flatten_upto(ks, pre@, 0));
            }
            while j < cs.len()
                invariant
                    0 <= j <= cs.len(),
                    ks == kids_of_vec(cs@),
                    ks == kids(t_v),
                    pair_views(out@) == flatten_upto(ks, pre@, j as int),
                decreases cs.len() - j,
            {
                let name = &cs[j].0;
                let sub_pre = if pre.as_str().unicode_len() == 0 {
                    name.clone()
                } else {
                    let mut p = pre.clone();
                    p.append(".");
                    p.append(name.as_str());
                    p
                };
                proof {
                    reveal_strlit(".");
                    assert(sub_pre@ == child_pre(pre@, ks[j as int].0));
                }
                proof {
                    assert(cs@[j as int].1@ == ks[j as int].1);
                    lemma_kheight_elem(ks, ks.len() as int, j as int);
                    assert(theight(cs@[j as int].1@) < theight(t_v));
                }
                let mut sub = flatten_tree(&cs[j].1, &sub_pre);
                proof {
                    assert(cs@[j as int].1@ == ks[j as int].1);
                    assert(pair_views(out@ + sub@) =~= pair_views(out@) + pair_views(sub@));
                }
                out.append(&mut sub);
                j = j + 1;
            }
            out
        },
    }
}

/// Looks up the scalar stored under a dotted key, following the key's
/// segments from the root.
#[verifier::loop_isolation(false)]
pub fn lookup_value(t: &VarTree, dotted: &str) -> (r: Option<String>)
    ensures
        r is Some <==> leaf_at(t@, split_char_seq(dotted@, '.')) is Some,
        r matches Some(s) ==> leaf_at(t@, split_char_seq(dotted@, '.')) == Some(s@),
{
    let segs = split_char(dotted, '.');
    let ghost path = split_char_seq(dotted@, '.');
    let mut cur: &VarTree = t;
    let mut i: usize = 0;
    proof {
        assert(path.skip(0) =~= path);
    }
    while i < segs.len()
        invariant
            0 <= i <= segs.len(),
            views(segs@) == path,
            lookup(t@, path) == lookup(cur@, path.skip(i as int)),
        decreases segs.len() - i,
    {
        let ghost rest = path.skip(i as int);
        proof {
            assert(rest[0] == path[i as int]);
            assert(rest.drop_first() =~= path.skip(i as int + 1));
        }
        match cur {
            VarTree::Leaf(_) => {
                proof {
                    assert(kids(cur@) =~= Seq::<(Seq<char>, TreeV)>::empty());
                    lemma_child_idx_none(kids(cur@), rest[0]);
                    assert(lookup(cur@, rest) is None);
                }
                return None;
            },
            VarTree::Node(cs) => {
                proof {
                    assert(kids_of_vec(cs@) =~= kids(cur@));
                }
                let ghost ks = kids_of_vec(cs@);
                let mut j: usize = 0;
                while j < cs.len() && !(cs[j].0 == segs[i])
                    invariant
                        0 <= j <= cs.len(),
                        ks == kids_of_vec(cs@),
                        forall|k: int| 0 <= k < j ==> (#[trigger] ks[k]).0 != segs@[i as int]@,
                        i < segs.len(),
                    decreases cs.len() - j,
                {
                    proof {
                        assert(ks[j as int].0 != segs@[i as int]@);
                    }
                    j = j + 1;
                }
                if j >= cs.len() {
                    proof {
                        lemma_child_idx_none(ks, rest[0]);
                        assert(lookup(cur@, rest) is None);
                    }
                    return None;
                }
                proof {
                    assert(ks[j as int].0 == segs@[i as int]@);
                    lemma_child_idx_at(ks, rest[0], j as int);
                    assert(ks[j as int].1 == cs@[j as int].1@);
                }
                cur = &cs[j].1;
            },
        }
        i = i + 1;
    }
    proof {
        assert(path.skip(segs@.len() as int) =~= Seq::<Seq<char>>::empty());
        assert(lookup(t@, path) == Some(cur@));
    }
    match cur {
        VarTree::Leaf(v) => Some(v.clone()),
        VarTree::Node(_) => None,
    }
}

} // verus!
