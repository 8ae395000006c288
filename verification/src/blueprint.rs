use vstd::prelude::*;

use crate::vartree::pair_views;

verus! {

/// A template blueprint: a version tag, variable declarations with optional
/// default values in declaration order, and named shell-command helpers.
/// Loaded from the descriptor file at the template source root, or empty
/// when that file is absent.
pub struct Blueprint {
    pub version: String,
    pub variables: Vec<(String, Option<String>)>,
    pub helpers: Vec<(String, String)>,
}

/// The views of declared variables.
pub open spec fn var_views(vs: Seq<(String, Option<String>)>) -> Seq<(Seq<char>, Option<Seq<char>>)> {
    vs.map_values(
        |p: (String, Option<String>)|
            (
                p.0@,
                match p.1 {
                    Some(d) => Some(d@),
                    None => None,
                },
            ),
    )
}

/// The (name, default) pairs of the variables that carry a default, in
/// declaration order; a variable without a default contributes nothing.
pub open spec fn spec_defaults(vs: Seq<(Seq<char>, Option<Seq<char>>)>) -> Seq<(Seq<char>, Seq<char>)>
    decreases vs.len(),
{
    if vs.len() == 0 {
        Seq::empty()
    } else {
        let rest = spec_defaults(vs.drop_first());
        match vs[0].1 {
            Some(d) => seq![(vs[0].0, d)] + rest,
            None => rest,
        }
    }
}

impl Blueprint {
    /// The blueprint of a template source without a descriptor file: no
    /// declared variables and no helpers.
    pub fn empty() -> (r: Blueprint)
        ensures
            r.version@ == Seq::<char>::empty(),
            r.variables@.len() == 0,
            r.helpers@.len() == 0,
    {
        Blueprint { version: String::new(), variables: Vec::new(), helpers: Vec::new() }
    }

    /// The defaulted (name, value) pairs of this blueprint, in declaration
    /// order.
    pub fn defaults(&self) -> (r: Vec<(String, String)>)
        ensures
            pair_views(r@) == spec_defaults(var_views(self.variables@)),
    {
        let ghost vv = var_views(self.variables@);
        let mut r: Vec<(String, String)> = Vec::new();
        let mut i: usize = 0;
        proof {
            assert(vv.skip(0) =~= vv);
            assert(pair_views(r@) =~= Seq::<(Seq<char>, Seq<char>)>::empty());
        }
        while i < self.variables.len()
            invariant
                0 <= i <= self.variables.len(),
                vv == var_views(self.variables@),
                spec_defaults(vv) == pair_views(r@) + spec_defaults(vv.skip(i as int)),
            decreases self.variables.len() - i,
        {
            let ghost rem = vv.skip(i as int);
            proof {
                assert(rem[0] == vv[i as int]);
                assert(rem.drop_first() =~= vv.skip(i as int + 1));
            }
            match &self.variables[i].1 {
                Some(d) => {
                    let k = self.variables[i].0.clone();
                    let v = d.clone();
                    proof {
                        assert(pair_views(r@.push((k, v))) =~= pair_views(r@) + seq![(k@, v@)]);
                        assert(pair_views(r@) + (seq![(k@, v@)] + spec_defaults(vv.skip(i as int + 1)))
                            =~= (pair_views(r@) + seq![(k@, v@)]) + spec_defaults(vv.skip(i as int + 1)));
                    }
                    r.push((k, v));
                },
                None => {
                },
            }
            i = i + 1;
        }
        proof {
            assert(vv.skip(self.variables@.len() as int) =~= Seq::<(Seq<char>, Option<Seq<char>>)>::empty());
            assert(pair_views(r@) + spec_defaults(Seq::<(Seq<char>, Option<Seq<char>>)>::empty())
                =~= pair_views(r@));
        }
        r
    }
}

} // verus!
