use vstd::prelude::*;

use crate::blueprint::{Blueprint, spec_defaults, var_views};
use crate::strutil::split_char_seq;
use crate::vartree::{
    VarTree, TreeV, pair_views, spec_merge, merge_pairs, wf, lemma_merge_wf, lookup,
    path_related, lemma_merge_last_wins,
};

verus! {

/// The ordered pair sequence the resolver merges: blueprint defaults in
/// declaration order, then file-sourced overrides, then flag overrides, so
/// that later sources win over earlier ones.
pub open spec fn resolved_pairs(
    vars: Seq<(Seq<char>, Option<Seq<char>>)>,
    file_pairs: Seq<(Seq<char>, Seq<char>)>,
    flag_pairs: Seq<(Seq<char>, Seq<char>)>,
) -> Seq<(Seq<char>, Seq<char>)> {
    spec_defaults(vars) + file_pairs + flag_pairs
}

/// Builds the resolved variable tree: defaults first, then file overrides,
/// then flag overrides, merged in order so later entries take precedence.
pub fn resolve(
    bp: &Blueprint,
    file_pairs: &Vec<(String, String)>,
    flag_pairs: &Vec<(String, String)>,
) -> (r: VarTree)
    ensures
        r@ == spec_merge(resolved_pairs(var_views(bp.variables@), pair_views(file_pairs@), pair_views(flag_pairs@))),
        wf(r@),
{
    let mut all = bp.defaults();
    let ghost defs = pair_views(all@);
    let mut i: usize = 0;
    while i < file_pairs.len()
        invariant
            0 <= i <= file_pairs.len(),
            pair_views(all@) == defs + pair_views(file_pairs@).take(i as int),
        decreases file_pairs.len() - i,
    {
        let k = file_pairs[i].0.clone();
        let v = file_pairs[i].1.clone();
        proof {
            assert(pair_views(all@.push((k, v))) =~= pair_views(all@) + seq![(k@, v@)]);
            assert(pair_views(file_pairs@).take(i as int + 1)
                =~= pair_views(file_pairs@).take(i as int).push((k@, v@)));
            assert((defs + pair_views(file_pairs@).take(i as int)) + seq![(k@, v@)]
                =~= defs + pair_views(file_pairs@).take(i as int).push((k@, v@)));
        }
        all.push((k, v));
        i = i + 1;
    }
    proof {
        assert(pair_views(file_pairs@).take(file_pairs@.len() as int) =~= pair_views(file_pairs@));
    }
    let ghost with_file = pair_views(all@);
    let mut j: usize = 0;
    while j < flag_pairs.len()
        invariant
            0 <= j <= flag_pairs.len(),
            pair_views(all@) == with_file + pair_views(flag_pairs@).take(j as int),
        decreases flag_pairs.len() - j,
    {
        let k = flag_pairs[j].0.clone();
        let v = flag_pairs[j].1.clone();
        proof {
            assert(pair_views(all@.push((k, v))) =~= pair_views(all@) + seq![(k@, v@)]);
            assert(pair_views(flag_pairs@).take(j as int + 1)
                =~= pair_views(flag_pairs@).take(j as int).push((k@, v@)));
            assert((with_file + pair_views(flag_pairs@).take(j as int)) + seq![(k@, v@)]
                =~= with_file + pair_views(flag_pairs@).take(j as int).push((k@, v@)));
        }
        all.push((k, v));
        j = j + 1;
    }
    proof {
        assert(pair_views(flag_pairs@).take(flag_pairs@.len() as int) =~= pair_views(flag_pairs@));
        assert(pair_views(all@) =~= resolved_pairs(
            var_views(bp.variables@),
            pair_views(file_pairs@),
            pair_views(flag_pairs@),
        ));
    }
    let r = merge_pairs(&all);
    proof {
        lemma_merge_wf(TreeV::Node(Seq::empty()), pair_views(all@));
    }
    r
}

/// A flag override wins over every earlier source: if no later flag names an
/// overlapping key, the resolved tree holds the flag's value at its key.
pub proof fn lemma_flags_win(
    vars: Seq<(Seq<char>, Option<Seq<char>>)>,
    file_pairs: Seq<(Seq<char>, Seq<char>)>,
    flag_pairs: Seq<(Seq<char>, Seq<char>)>,
    i: int,
)
    requires
        0 <= i < flag_pairs.len(),
        forall|m: int| i < m < flag_pairs.len()
            ==> !path_related(
                split_char_seq((#[trigger] flag_pairs[m]).0, '.'),
                split_char_seq(flag_pairs[i].0, '.'),
            ),
    ensures
        lookup(
            spec_merge(resolved_pairs(vars, file_pairs, flag_pairs)),
            split_char_seq(flag_pairs[i].0, '.'),
        ) == Some(TreeV::Leaf(flag_pairs[i].1)),
{
    let all = resolved_pairs(vars, file_pairs, flag_pairs);
    let l = spec_defaults(vars).len() + file_pairs.len() + i;
    assert(all[l] == flag_pairs[i]);
    assert forall|m: int| l < m < all.len()
        implies !path_related(
            split_char_seq((#[trigger] all[m]).0, '.'),
            split_char_seq(all[l].0, '.'),
        ) by {
        assert(all[m] == flag_pairs[m - spec_defaults(vars).len() - file_pairs.len()]);
    }
    lemma_merge_last_wins(TreeV::Node(Seq::empty()), all, l);
}

/// An override wins over a blueprint default: if no later pair of either
/// override source names an overlapping key, the resolved tree holds the
/// file override's value at its key, whatever default the blueprint gave it.
pub proof fn lemma_override_wins_default(
    vars: Seq<(Seq<char>, Option<Seq<char>>)>,
    file_pairs: Seq<(Seq<char>, Seq<char>)>,
    flag_pairs: Seq<(Seq<char>, Seq<char>)>,
    i: int,
)
    requires
        0 <= i < file_pairs.len(),
        forall|m: int| i < m < file_pairs.len()
            ==> !path_related(
                split_char_seq((#[trigger] file_pairs[m]).0, '.'),
                split_char_seq(file_pairs[i].0, '.'),
            ),
        forall|m: int| 0 <= m < flag_pairs.len()
            ==> !path_related(
                split_char_seq((#[trigger] flag_pairs[m]).0, '.'),
                split_char_seq(file_pairs[i].0, '.'),
            ),
    ensures
        lookup(
            spec_merge(resolved_pairs(vars, file_pairs, flag_pairs)),
            split_char_seq(file_pairs[i].0, '.'),
        ) == Some(TreeV::Leaf(file_pairs[i].1)),
{
    let all = resolved_pairs(vars, file_pairs, flag_pairs);
    let l = spec_defaults(vars).len() + i;
    assert(all[l] == file_pairs[i]);
    assert forall|m: int| l < m < all.len()
        implies !path_related(
            split_char_seq((#[trigger] all[m]).0, '.'),
            split_char_seq(all[l].0, '.'),
        ) by {
        if m < spec_defaults(vars).len() + file_pairs.len() {
            assert(all[m] == file_pairs[m - spec_defaults(vars).len()]);
        } else {
            assert(all[m] == flag_pairs[m - spec_defaults(vars).len() - file_pairs.len()]);
        }
    }
    lemma_merge_last_wins(TreeV::Node(Seq::empty()), all, l);
}

} // verus!
