use vstd::prelude::*;

use crate::Error;
use crate::strutil::{split_char_seq, split_kv, split_char, split_first_eq, views};
use crate::vartree::pair_views;

verus! {

/// Parses override lines in order: an empty line is skipped, any other line
/// is split at its first `=`; a line without `=` makes the whole input
/// malformed.
pub open spec fn parse_lines(lines: Seq<Seq<char>>) -> Option<Seq<(Seq<char>, Seq<char>)>>
    decreases lines.len(),
{
    if lines.len() == 0 {
        Some(Seq::empty())
    } else {
        let rest = parse_lines(lines.drop_first());
        if lines[0].len() == 0 {
            rest
        } else {
            match split_kv(lines[0]) {
                None => None,
                Some(p) => match rest {
                    None => None,
                    Some(ps) => Some(seq![p] + ps),
                },
            }
        }
    }
}

/// The (key, value) pairs of a newline-separated override file, in file
/// order, or None when a non-empty line lacks `=`.
pub open spec fn spec_parse_overrides(text: Seq<char>) -> Option<Seq<(Seq<char>, Seq<char>)>> {
    parse_lines(split_char_seq(text, '\n'))
}

/// Parses the text of an override file into ordered (key, value) pairs,
/// splitting each non-empty line at its first `=`; a non-empty line without
/// `=` is rejected before anything is rendered.
pub fn parse_override_text(text: &str) -> (r: Result<Vec<(String, String)>, Error>)
    ensures
        r is Ok <==> spec_parse_overrides(text@) is Some,
        r matches Ok(v) ==> spec_parse_overrides(text@) == Some(pair_views(v@)),
        r matches Err(e) ==> e is Argument,
{
    let lines = split_char(text, '\n');
    let ghost lv = views(lines@);
    let mut acc: Vec<(String, String)> = Vec::new();
    let mut i: usize = 0;
    proof {
        assert(lv.skip(0) =~= lv);
        assert(pair_views(acc@) =~= Seq::<(Seq<char>, Seq<char>)>::empty());
    }
    while i < lines.len()
        invariant
            0 <= i <= lines.len(),
            lv == views(lines@),
            spec_parse_overrides(text@) == parse_lines(lv),
            parse_lines(lv) is Some <==> parse_lines(lv.skip(i as int)) is Some,
            parse_lines(lv) matches Some(all)
                ==> parse_lines(lv.skip(i as int)) matches Some(rest)
                    && all == pair_views(acc@) + rest,
        decreases lines.len() - i,
    {
        let ghost rem = lv.skip(i as int);
        proof {
            assert(rem[0] == lv[i as int]);
            assert(rem.drop_first() =~= lv.skip(i as int + 1));
        }
        let line = &lines[i];
        if line.as_str().unicode_len() == 0 {
            proof {
                assert(parse_lines(rem) == parse_lines(lv.skip(i as int + 1)));
            }
        } else {
            match split_first_eq(line.as_str()) {
                Some((k, v)) => {
                    proof {
                        assert(split_kv(rem[0]) == Some((k@, v@)));
                        if parse_lines(lv) is Some {
                            let rest = parse_lines(rem)->Some_0;
                            let rest2 = parse_lines(lv.skip(i as int + 1))->Some_0;
                            assert(rest == seq![(k@, v@)] + rest2);
                            assert(pair_views(acc@.push((k, v))) =~= pair_views(acc@) + seq![(k@, v@)]);
                            assert(pair_views(acc@) + (seq![(k@, v@)] + rest2)
                                =~= (pair_views(acc@) + seq![(k@, v@)]) + rest2);
                        }
                    }
                    acc.push((k, v));
                },
                None => {
                    proof {
                        assert(split_kv(rem[0]) is None);
                        assert(parse_lines(rem) is None);
                    }
                    return Err(Error::Argument(String::from_str("override entry missing '=' delimiter")));
                },
            }
        }
        i = i + 1;
    }
    proof {
        assert(lv.skip(lines@.len() as int) =~= Seq::<Seq<char>>::empty());
        assert(parse_lines(Seq::<Seq<char>>::empty()) == Some(Seq::<(Seq<char>, Seq<char>)>::empty()));
        if parse_lines(lv) is Some {
            assert(parse_lines(lv)->Some_0 =~= pair_views(acc@));
        }
    }
    Ok(acc)
}

} // verus!
