use vstd::prelude::*;

use crate::engine::{descend, lookup_from, query, slice_from, slice_item, star};
use crate::path::{colon, has_sign, is_digit, parse_int, split, split_from};
use crate::value::Tree;

verus! {

/// The node reached by following `keys` as mapping keys from `t`.
pub open spec fn navigate(t: Tree, keys: Seq<Seq<char>>) -> Option<Tree>
    decreases keys.len(),
{
    if keys.len() == 0 {
        Some(t)
    } else {
        match t {
            Tree::Mapping(m) => match lookup_from(m, keys[0], 0) {
                Some(v) => navigate(v, keys.drop_first()),
                None => None,
            },
            _ => None,
        }
    }
}

/// A literal key: neither empty nor the wildcard.
pub open spec fn is_literal(k: Seq<char>) -> bool {
    k.len() > 0 && k != star()
}

proof fn lemma_split_from_nonempty(s: Seq<char>, d: Seq<char>, start: int, i: int)
    ensures
        split_from(s, d, start, i).len() >= 1,
    decreases s.len() - i,
{
    if !(d.len() == 0 || i < 0 || i + d.len() > s.len()) && s.subrange(i, i + d.len()) != d {
        lemma_split_from_nonempty(s, d, start, i + 1);
    }
}

proof fn lemma_query_literal(t: Tree, keys: Seq<Seq<char>>)
    requires
        keys.len() > 0,
        forall|i: int| 0 <= i < keys.len() ==> is_literal(#[trigger] keys[i]),
        navigate(t, keys) is Some,
    ensures
        query(t, keys) == Ok::<Option<Tree>, crate::path::QueryError>(navigate(t, keys)),
    decreases keys.len(),
{
    let rest = keys.drop_first();
    assert(is_literal(keys[0]));
    if rest.len() > 0 {
        let m = t->Mapping_0;
        let v = lookup_from(m, keys[0], 0)->0;
        assert forall|i: int| 0 <= i < rest.len() implies is_literal(#[trigger] rest[i]) by {
            assert(rest[i] == keys[i + 1]);
        }
        lemma_query_literal(v, rest);
        assert(descend(v, rest) == query(v, rest));
    }
}

/// A path whose tokens are all literal keys and lead through mappings to a
/// node gives exactly that node.
pub proof fn law_literal_path(t: Tree, path: Seq<char>, d: Seq<char>)
    requires
        forall|i: int|
            0 <= i < split(path, d).len() ==> is_literal(#[trigger] split(path, d)[i]),
        navigate(t, split(path, d)) is Some,
    ensures
        query(t, split(path, d)) == Ok::<Option<Tree>, crate::path::QueryError>(
            navigate(t, split(path, d)),
        ),
{
    if d.len() > 0 {
        lemma_split_from_nonempty(path, d, 0, 0);
    }
    lemma_query_literal(t, split(path, d));
}

/// At a sequence of length `n`, the index `i` and the index `i - n` select
/// the same element, whatever tokens follow.
pub proof fn law_negative_index(
    s: Seq<Tree>,
    i: int,
    t1: Seq<char>,
    t2: Seq<char>,
    rest: Seq<Seq<char>>,
)
    requires
        0 <= i < s.len(),
        parse_int(t1) == Some(i),
        parse_int(t2) == Some(i - s.len()),
    ensures
        query(Tree::Sequence(s), seq![t1] + rest) == query(Tree::Sequence(s), seq![t2] + rest),
        query(Tree::Sequence(s), seq![t1] + rest) == descend(s[i], rest),
{
    assert((seq![t1] + rest).drop_first() =~= rest);
    assert((seq![t2] + rest).drop_first() =~= rest);
    assert((seq![t1] + rest)[0] == t1);
    assert((seq![t2] + rest)[0] == t2);
}

/// An integer index outside the sequence gives no result, never an error.
pub proof fn law_out_of_range_index(s: Seq<Tree>, i: int, t: Seq<char>, rest: Seq<Seq<char>>)
    requires
        parse_int(t) == Some(i),
        i >= s.len() || i < -s.len(),
    ensures
        query(Tree::Sequence(s), seq![t] + rest) == Ok::<Option<Tree>, crate::path::QueryError>(
            None,
        ),
{
    assert((seq![t] + rest)[0] == t);
}

proof fn lemma_full_slice_from(s: Seq<Tree>, k: int)
    requires
        0 <= k <= s.len(),
    ensures
        slice_from(s, seq![], 0, s.len() as int, 1, k) == Ok::<
            Seq<Tree>,
            crate::path::QueryError,
        >(s.subrange(k, s.len() as int)),
    decreases s.len() - k,
{
    if k < s.len() {
        lemma_full_slice_from(s, k + 1);
        assert(k % 1 == 0);
        assert(slice_item(s[k], seq![]) == Ok::<Tree, crate::path::QueryError>(s[k]));
        assert(seq![s[k]] + s.subrange(k + 1, s.len() as int) =~= s.subrange(k, s.len() as int));
    } else {
        assert(s.subrange(k, s.len() as int) =~= Seq::<Tree>::empty());
    }
}

/// The slice `:` gives every element of a sequence, in order.
pub proof fn law_full_slice(s: Seq<Tree>)
    ensures
        query(Tree::Sequence(s), seq![seq![':']]) == Ok::<
            Option<Tree>,
            crate::path::QueryError,
        >(Some(Tree::Sequence(s))),
{
    let t = seq![':'];
    assert(!is_digit(t[0]));
    assert(parse_int(t) is None);
    assert(t.subrange(0, 1) =~= colon());
    assert(t.subrange(0, 0) =~= Seq::<char>::empty());
    assert(t.subrange(1, 1) =~= Seq::<char>::empty());
    assert(split_from(t, colon(), 1, 1) == seq![t.subrange(1, 1)]);
    assert(split_from(t, colon(), 0, 0) == seq![t.subrange(0, 0)] + split_from(t, colon(), 1, 1));
    assert(split(t, colon()) =~= seq![Seq::<char>::empty(), Seq::<char>::empty()]);
    assert(seq![t].drop_first() =~= Seq::<Seq<char>>::empty());
    lemma_full_slice_from(s, 0);
    assert(s.subrange(0, s.len() as int) =~= s);
}

/// The wildcard as the last token gives the mapping or sequence itself.
pub proof fn law_wildcard_last(t: Tree)
    requires
        t is Mapping || t is Sequence,
    ensures
        query(t, seq![star()]) == Ok::<Option<Tree>, crate::path::QueryError>(Some(t)),
{
    let w = star();
    assert(!is_digit(w[0]));
    assert(parse_int(w) is None);
    assert(w.subrange(0, 1) =~= w);
    assert(w != colon()) by {
        assert(w[0] != colon()[0]);
    }
    assert(w.subrange(0, 1) != colon());
    assert(split_from(w, colon(), 0, 1) == seq![w.subrange(0, 1)]);
    assert(split_from(w, colon(), 0, 0) == split_from(w, colon(), 0, 1));
    assert(split(w, colon()) =~= seq![w]);
    assert(seq![w].drop_first() =~= Seq::<Seq<char>>::empty());
}

proof fn lemma_skip_plain(s: Seq<char>, start: int, i: int, j: int)
    requires
        0 <= i <= j <= s.len(),
        forall|k: int| i <= k < j ==> s[k] != ':',
    ensures
        split_from(s, colon(), start, i) == split_from(s, colon(), start, j),
    decreases j - i,
{
    if i < j {
        assert(s.subrange(i, i + 1) != colon()) by {
            assert(s.subrange(i, i + 1)[0] == s[i]);
        }
        lemma_skip_plain(s, start, i + 1, j);
    }
}

/// A slice token whose step is zero is a malformed path, whatever its start
/// and end and whatever tokens follow.
pub proof fn law_zero_step(
    s: Seq<Tree>,
    a: Seq<char>,
    b: Seq<char>,
    z: Seq<char>,
    rest: Seq<Seq<char>>,
)
    requires
        forall|k: int| 0 <= k < a.len() ==> a[k] != ':',
        forall|k: int| 0 <= k < b.len() ==> b[k] != ':',
        forall|k: int| 0 <= k < z.len() ==> z[k] != ':',
        parse_int(z) == Some(0int),
    ensures
        query(Tree::Sequence(s), seq![a + colon() + b + colon() + z] + rest) is Err,
{
    let t = a + colon() + b + colon() + z;
    let n = t.len() as int;
    let p1 = a.len() as int;
    let p2 = p1 + 1 + b.len();
    assert(n == p2 + 1 + z.len());
    assert forall|k: int| 0 <= k < p1 implies t[k] != ':' by {
        assert(t[k] == a[k]);
    }
    assert forall|k: int| p1 + 1 <= k < p2 implies t[k] != ':' by {
        assert(t[k] == b[k - p1 - 1]);
    }
    assert forall|k: int| p2 + 1 <= k < n implies t[k] != ':' by {
        assert(t[k] == z[k - p2 - 1]);
    }
    assert(t[p1] == ':');
    assert(t[p2] == ':');
    lemma_skip_plain(t, 0, 0, p1);
    assert(t.subrange(p1, p1 + 1) =~= colon());
    lemma_skip_plain(t, p1 + 1, p1 + 1, p2);
    assert(t.subrange(p2, p2 + 1) =~= colon());
    lemma_skip_plain(t, p2 + 1, p2 + 1, n);
    assert(t.subrange(0, p1) =~= a);
    assert(t.subrange(p1 + 1, p2) =~= b);
    assert(t.subrange(p2 + 1, n) =~= z);
    assert(split(t, colon()) =~= seq![a, b, z]);
    assert(!is_digit(t[p1]));
    if has_sign(t) {
        assert(p1 >= 1);
        assert(t.subrange(1, n)[p1 - 1] == t[p1]);
    }
    assert(parse_int(t) is None);
    assert(z.len() > 0);
    assert((seq![t] + rest)[0] == t);
}

} // verus!
