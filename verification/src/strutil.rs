use vstd::prelude::*;

verus! {

/// True when `c` occurs nowhere in `s`.
pub open spec fn no_char(s: Seq<char>, c: char) -> bool {
    forall|i: int| 0 <= i < s.len() ==> s[i] != c
}

/// Index of the first occurrence of `c` in `s`, or -1 when absent.
pub open spec fn find_char(s: Seq<char>, c: char) -> int
    decreases s.len(),
{
    if s.len() == 0 {
        -1
    } else if s[0] == c {
        0
    } else {
        let r = find_char(s.drop_first(), c);
        if r == -1 {
            -1
        } else {
            r + 1
        }
    }
}

/// The segments of `s` delimited by `c`; always at least one segment.
pub open spec fn split_char_seq(s: Seq<char>, c: char) -> Seq<Seq<char>>
    decreases s.len(),
{
    let i = find_char(s, c);
    if i < 0 || i >= s.len() {
        seq![s]
    } else {
        seq![s.take(i)] + split_char_seq(s.skip(i + 1), c)
    }
}

/// The key/value split of a line at its first `=`, or None when it has none.
pub open spec fn split_kv(line: Seq<char>) -> Option<(Seq<char>, Seq<char>)> {
    let i = find_char(line, '=');
    if i == -1 {
        None
    } else {
        Some((line.take(i), line.skip(i + 1)))
    }
}

/// The views of a vector of strings.
pub open spec fn views(v: Seq<String>) -> Seq<Seq<char>> {
    v.map_values(|s: String| s@)
}

pub proof fn lemma_find_char_props(s: Seq<char>, c: char)
    ensures
        find_char(s, c) == -1 ==> no_char(s, c),
        find_char(s, c) != -1 ==> 0 <= find_char(s, c) < s.len(),
        find_char(s, c) != -1 ==> s[find_char(s, c)] == c,
        find_char(s, c) != -1 ==> forall|j: int| 0 <= j < find_char(s, c) ==> s[j] != c,
    decreases s.len(),
{
    if s.len() != 0 && s[0] != c {
        let rest = s.drop_first();
        lemma_find_char_props(rest, c);
        let f = find_char(s, c);
        if find_char(rest, c) == -1 {
            assert forall|j: int| 0 <= j < s.len() implies s[j] != c by {
                if j > 0 {
                    assert(s[j] == rest[j - 1]);
                }
            }
        } else {
            assert(f == find_char(rest, c) + 1);
            assert(s[f] == rest[f - 1]);
            assert forall|j: int| 0 <= j < f implies s[j] != c by {
                if j > 0 {
                    assert(s[j] == rest[j - 1]);
                }
            }
        }
    }
}

/// `find_char` is determined by the position of the first occurrence.
pub proof fn lemma_find_char_at(s: Seq<char>, c: char, k: int)
    requires
        0 <= k < s.len(),
        s[k] == c,
        forall|j: int| 0 <= j < k ==> s[j] != c,
    ensures
        find_char(s, c) == k,
    decreases s.len(),
{
    if k > 0 {
        lemma_find_char_at(s.drop_first(), c, k - 1);
    }
}

pub proof fn lemma_find_char_none(s: Seq<char>, c: char)
    requires
        no_char(s, c),
    ensures
        find_char(s, c) == -1,
    decreases s.len(),
{
    if s.len() != 0 {
        lemma_find_char_none(s.drop_first(), c);
    }
}

/// Splits `s` into its `sep`-delimited segments, in order.
pub fn split_char(s: &str, sep: char) -> (r: Vec<String>)
    ensures
        views(r@) == split_char_seq(s@, sep),
        r@.len() >= 1,
{
    let n: usize = s.unicode_len();
    let mut r: Vec<String> = Vec::new();
    let mut start: usize = 0;
    let mut i: usize = 0;
    proof {
        assert(s@.skip(0) =~= s@);
        assert(views(r@) + split_char_seq(s@, sep) =~= split_char_seq(s@, sep));
    }
    while i < n
        invariant
            0 <= start <= i <= n == s@.len(),
            forall|j: int| start <= j < i ==> s@[j] != sep,
            split_char_seq(s@, sep) == views(r@) + split_char_seq(s@.skip(start as int), sep),
        decreases n - i,
    {
        let ch = s.get_char(i);
        if ch == sep {
            let seg = s.substring_char(start, i).to_owned();
            proof {
                let rest = s@.skip(start as int);
                lemma_find_char_at(rest, sep, i - start);
                assert(rest.take(i - start) =~= s@.subrange(start as int, i as int));
                assert(rest.skip(i - start + 1) =~= s@.skip(i as int + 1));
                assert(views(r@.push(seg)) =~= views(r@) + seq![seg@]);
                assert(views(r@) + (seq![seg@] + split_char_seq(s@.skip(i as int + 1), sep))
                    =~= (views(r@) + seq![seg@]) + split_char_seq(s@.skip(i as int + 1), sep));
            }
            r.push(seg);
            start = i + 1;
        }
        i = i + 1;
    }
    let seg = s.substring_char(start, n).to_owned();
    proof {
        let rest = s@.skip(start as int);
        lemma_find_char_none(rest, sep);
        assert(rest =~= s@.subrange(start as int, n as int));
        assert(views(r@.push(seg)) =~= views(r@) + seq![seg@]);
        assert(views(r@) + seq![seg@] =~= views(r@) + split_char_seq(s@.skip(start as int), sep));
    }
    r.push(seg);
    r
}

/// Splits `s` at its first `=` into key and value; None when `s` has no `=`.
pub fn split_first_eq(s: &str) -> (r: Option<(String, String)>)
    ensures
        r is Some <==> split_kv(s@) is Some,
        r matches Some(p) ==> split_kv(s@) == Some((p.0@, p.1@)),
{
    let n: usize = s.unicode_len();
    let mut i: usize = 0;
    while i < n
        invariant
            0 <= i <= n == s@.len(),
            forall|j: int| 0 <= j < i ==> s@[j] != '=',
        decreases n - i,
    {
        let ch = s.get_char(i);
        if ch == '=' {
            let k = s.substring_char(0, i).to_owned();
            let v = s.substring_char(i + 1, n).to_owned();
            proof {
                lemma_find_char_at(s@, '=', i as int);
                assert(s@.subrange(0, i as int) =~= s@.take(i as int));
                assert(s@.subrange(i as int + 1, n as int) =~= s@.skip(i as int + 1));
            }
            return Some((k, v));
        }
        i = i + 1;
    }
    proof {
        lemma_find_char_none(s@, '=');
    }
    None
}

/// A string without the separator splits into itself alone.
pub proof fn lemma_split_single(k: Seq<char>, c: char)
    requires
        no_char(k, c),
    ensures
        split_char_seq(k, c) == seq![k],
{
    lemma_find_char_none(k, c);
}

/// Every segment of a split is free of the separator.
pub proof fn lemma_split_parts_free(s: Seq<char>, c: char)
    ensures
        forall|i: int| 0 <= i < split_char_seq(s, c).len()
            ==> no_char(#[trigger] split_char_seq(s, c)[i], c),
    decreases s.len(),
{
    let f = find_char(s, c);
    lemma_find_char_props(s, c);
    if 0 <= f < s.len() {
        lemma_split_parts_free(s.skip(f + 1), c);
        let parts = split_char_seq(s, c);
        let rest = split_char_seq(s.skip(f + 1), c);
        assert forall|i: int| 0 <= i < parts.len() implies no_char(#[trigger] parts[i], c) by {
            if i == 0 {
                assert(parts[0] == s.take(f));
            } else {
                assert(parts[i] == rest[i - 1]);
            }
        }
    }
}

/// Splitting distributes over concatenation at a separator.
pub proof fn lemma_split_append(a: Seq<char>, b: Seq<char>, c: char)
    ensures
        split_char_seq(a + seq![c] + b, c) == split_char_seq(a, c) + split_char_seq(b, c),
    decreases a.len(),
{
    let whole = a + seq![c] + b;
    let f = find_char(a, c);
    lemma_find_char_props(a, c);
    if f == -1 {
        assert(whole[a.len() as int] == c);
        assert forall|j: int| 0 <= j < a.len() implies whole[j] != c by {
            assert(whole[j] == a[j]);
        }
        lemma_find_char_at(whole, c, a.len() as int);
        assert(whole.take(a.len() as int) =~= a);
        assert(whole.skip(a.len() as int + 1) =~= b);
        assert(split_char_seq(a, c) + split_char_seq(b, c)
            =~= seq![a] + split_char_seq(b, c));
    } else {
        assert(whole[f] == a[f]);
        assert forall|j: int| 0 <= j < f implies whole[j] != c by {
            assert(whole[j] == a[j]);
        }
        lemma_find_char_at(whole, c, f);
        assert(whole.take(f) =~= a.take(f));
        assert(whole.skip(f + 1) =~= a.skip(f + 1) + seq![c] + b);
        lemma_split_append(a.skip(f + 1), b, c);
        assert(split_char_seq(whole, c)
            == seq![a.take(f)] + (split_char_seq(a.skip(f + 1), c) + split_char_seq(b, c)));
        assert(seq![a.take(f)] + (split_char_seq(a.skip(f + 1), c) + split_char_seq(b, c))
            =~= (seq![a.take(f)] + split_char_seq(a.skip(f + 1), c)) + split_char_seq(b, c));
    }
}

} // verus!
