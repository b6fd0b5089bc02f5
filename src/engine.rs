use vstd::prelude::*;

use crate::path::{
    bounds_of, chars_of, is_slice_token, parse_i64, parse_int, slice_bounds, slice_parts,
    token_views, QueryError,
};
use crate::value::{entries_of, lemma_entries_of, lemma_trees_of, trees_of, Tree, Value};

verus! {

pub open spec fn star() -> Seq<char> {
    seq!['*']
}

/// A result, no result, or a malformed-path error.
pub type Outcome = Result<Option<Tree>, QueryError>;

/// The model of what an executable query returns.
pub open spec fn outcome(r: Result<Option<Value>, QueryError>) -> Outcome {
    match r {
        Ok(Some(v)) => Ok(Some(v@)),
        Ok(None) => Ok(None),
        Err(e) => Err(e),
    }
}

/// The tokens from position `pos` on.
pub open spec fn rest_of(toks: Seq<String>, pos: int) -> Seq<Seq<char>> {
    token_views(toks).subrange(pos, toks.len() as int)
}

/// The tokens `toks` applied to the node `t`: a mapping or a sequence
/// dispatches on its first token; a scalar is its own result when no token
/// is left and gives no result otherwise.
pub open spec fn query(t: Tree, toks: Seq<Seq<char>>) -> Outcome
    decreases toks.len(), 3int, 0int,
{
    match t {
        Tree::Mapping(m) => at_mapping(m, toks),
        Tree::Sequence(s) => at_sequence(s, toks),
        _ => if toks.len() == 0 {
            Ok(Some(t))
        } else {
            Ok(None)
        },
    }
}

/// What follows a node reached by consuming a token: the node itself when no
/// token is left, else the rest applied to it.
pub open spec fn descend(v: Tree, rest: Seq<Seq<char>>) -> Outcome
    decreases rest.len(), 4int, 0int,
{
    if rest.len() == 0 {
        Ok(Some(v))
    } else {
        query(v, rest)
    }
}

/// The value of the first entry of `m`, from index `j` on, whose key is `k`.
pub open spec fn lookup_from(m: Seq<(Seq<char>, Tree)>, k: Seq<char>, j: int) -> Option<Tree>
    decreases m.len() - j,
{
    if j < 0 || j >= m.len() {
        None
    } else if m[j].0 == k {
        Some(m[j].1)
    } else {
        lookup_from(m, k, j + 1)
    }
}

/// Tokens at a mapping: an empty token gives no result; `*` as the last
/// token gives the mapping itself, otherwise the first mapping-valued entry
/// that resolves the rest; any other token is a key.
pub open spec fn at_mapping(m: Seq<(Seq<char>, Tree)>, toks: Seq<Seq<char>>) -> Outcome
    decreases toks.len(), 1int, 0int,
{
    if toks.len() == 0 || toks[0].len() == 0 {
        Ok(None)
    } else if toks[0] == star() {
        if toks.len() == 1 {
            Ok(Some(Tree::Mapping(m)))
        } else {
            first_match(m, toks.drop_first(), 0)
        }
    } else {
        match lookup_from(m, toks[0], 0) {
            None => Ok(None),
            Some(v) => descend(v, toks.drop_first()),
        }
    }
}

/// The first entry of `m`, from index `j` on, whose value is a mapping at
/// which `rest` gives a result or an error.
pub open spec fn first_match(m: Seq<(Seq<char>, Tree)>, rest: Seq<Seq<char>>, j: int) -> Outcome
    decreases rest.len(), 2int, m.len() - j,
{
    if j < 0 || j >= m.len() {
        Ok(None)
    } else {
        match m[j].1 {
            Tree::Mapping(c) => {
                let r = at_mapping(c, rest);
                if r == Ok::<Option<Tree>, QueryError>(None) {
                    first_match(m, rest, j + 1)
                } else {
                    r
                }
            },
            _ => first_match(m, rest, j + 1),
        }
    }
}

pub open spec fn prepend(front: Seq<Tree>, r: Result<Seq<Tree>, QueryError>) -> Result<
    Seq<Tree>,
    QueryError,
> {
    match r {
        Ok(t) => Ok(front + t),
        Err(e) => Err(e),
    }
}

/// The position in a sequence of length `len` that a slice with step `c`
/// visits `k`-th: ascending for a positive step, descending otherwise.
pub open spec fn slice_index(len: int, c: int, k: int) -> int {
    if c > 0 {
        k
    } else {
        len - 1 - k
    }
}

/// Whether the slice `a:b:c` takes position `idx`: a positive step takes
/// the positions that it divides, a negative one those whose distance from
/// `a` it divides.
pub open spec fn slice_takes(idx: int, a: int, b: int, c: int) -> bool {
    &&& a <= idx < b
    &&& if c > 0 {
        idx % c == 0
    } else {
        (idx - a) % (-c) == 0
    }
}

/// One slice element: the element itself, or the rest applied to it, with
/// `Null` in place of no result.
pub open spec fn slice_item(v: Tree, rest: Seq<Seq<char>>) -> Result<Tree, QueryError>
    decreases rest.len(), 5int, 0int,
{
    match descend(v, rest) {
        Ok(Some(x)) => Ok(x),
        Ok(None) => Ok(Tree::Null),
        Err(e) => Err(e),
    }
}

/// The elements that the slice `a:b:c` takes, visited from the `k`-th on.
pub open spec fn slice_from(
    s: Seq<Tree>,
    rest: Seq<Seq<char>>,
    a: int,
    b: int,
    c: int,
    k: int,
) -> Result<Seq<Tree>, QueryError>
    decreases rest.len(), 6int, s.len() - k,
{
    if k < 0 || k >= s.len() {
        Ok(seq![])
    } else {
        let idx = slice_index(s.len() as int, c, k);
        if slice_takes(idx, a, b, c) {
            match slice_item(s[idx], rest) {
                Err(e) => Err(e),
                Ok(x) => prepend(seq![x], slice_from(s, rest, a, b, c, k + 1)),
            }
        } else {
            slice_from(s, rest, a, b, c, k + 1)
        }
    }
}

/// The results of `rest` at each mapping element of `s` from index `k` on
/// that gives one.
pub open spec fn collect_from(s: Seq<Tree>, rest: Seq<Seq<char>>, k: int) -> Result<
    Seq<Tree>,
    QueryError,
>
    decreases rest.len(), 6int, s.len() - k,
{
    if k < 0 || k >= s.len() {
        Ok(seq![])
    } else {
        match s[k] {
            Tree::Mapping(c) => match at_mapping(c, rest) {
                Err(e) => Err(e),
                Ok(Some(x)) => prepend(seq![x], collect_from(s, rest, k + 1)),
                Ok(None) => collect_from(s, rest, k + 1),
            },
            _ => collect_from(s, rest, k + 1),
        }
    }
}

pub open spec fn as_sequence(r: Result<Seq<Tree>, QueryError>) -> Outcome {
    match r {
        Ok(t) => Ok(Some(Tree::Sequence(t))),
        Err(e) => Err(e),
    }
}

/// Tokens at a sequence: an integer indexes (negative from the end); a slice
/// token gives a new sequence; `*` as the last token gives the sequence
/// itself, otherwise the results at its mapping elements; anything else gives
/// no result.
pub open spec fn at_sequence(s: Seq<Tree>, toks: Seq<Seq<char>>) -> Outcome
    decreases toks.len(), 1int, 0int,
{
    if toks.len() == 0 {
        Ok(None)
    } else {
        let t = toks[0];
        let rest = toks.drop_first();
        match parse_int(t) {
            Some(i) => {
                let idx = if i >= 0 {
                    i
                } else {
                    s.len() + i
                };
                if 0 <= idx < s.len() {
                    descend(s[idx], rest)
                } else {
                    Ok(None)
                }
            },
            None => if is_slice_token(t) {
                match slice_bounds(t, s.len() as int) {
                    Err(e) => Err(e),
                    Ok((a, b, c)) => as_sequence(slice_from(s, rest, a, b, c, 0)),
                }
            } else if t == star() {
                if rest.len() == 0 {
                    Ok(Some(Tree::Sequence(s)))
                } else {
                    as_sequence(collect_from(s, rest, 0))
                }
            } else {
                Ok(None)
            },
        }
    }
}

proof fn lemma_rest_of(toks: Seq<String>, pos: int)
    requires
        0 <= pos < toks.len(),
    ensures
        rest_of(toks, pos).len() == toks.len() - pos,
        rest_of(toks, pos)[0] == toks[pos]@,
        rest_of(toks, pos).drop_first() == rest_of(toks, pos + 1),
{
    assert(rest_of(toks, pos).drop_first() =~= rest_of(toks, pos + 1));
}

proof fn lemma_prepend_prepend(a: Seq<Tree>, b: Seq<Tree>, r: Result<Seq<Tree>, QueryError>)
    ensures
        prepend(a, prepend(b, r)) == prepend(a + b, r),
{
    match r {
        Ok(t) => {
            assert(a + (b + t) =~= (a + b) + t);
        },
        Err(e) => {},
    }
}

proof fn lemma_trees_push(s: Seq<Value>, x: Value)
    ensures
        trees_of(s.push(x)) == trees_of(s).push(x@),
{
    assert(s.push(x).subrange(0, s.len() as int) =~= s);
}

/// The node `v` reached by consuming the token before `pos`.
fn descend_exec(v: &Value, toks: &Vec<String>, pos: usize) -> (r: Result<Option<Value>, QueryError>)
    requires
        pos <= toks.len(),
    ensures
        outcome(r) == descend(v@, rest_of(toks@, pos as int)),
    decreases toks.len() - pos, 3int,
{
    if pos == toks.len() {
        Ok(Some(v.deep_copy()))
    } else {
        query_at(v, toks, pos)
    }
}

/// The tokens from `pos` on applied to `node`.
pub fn query_at(node: &Value, toks: &Vec<String>, pos: usize) -> (r: Result<Option<Value>, QueryError>)
    requires
        pos <= toks.len(),
    ensures
        outcome(r) == query(node@, rest_of(toks@, pos as int)),
    decreases toks.len() - pos, 2int,
{
    match node {
        Value::Mapping(_) => mapping_step(node, toks, pos),
        Value::Sequence(_) => sequence_step(node, toks, pos),
        _ => if pos == toks.len() {
            Ok(Some(node.deep_copy()))
        } else {
            Ok(None)
        },
    }
}

fn is_star(t: &Vec<char>) -> (r: bool)
    ensures
        r == (t@ == star()),
{
    if t.len() == 1 && t[0] == '*' {
        assert(t@ =~= star());
        true
    } else {
        false
    }
}

/// The tokens from `pos` on applied to the mapping `node`.
fn mapping_step(node: &Value, toks: &Vec<String>, pos: usize) -> (r: Result<Option<Value>, QueryError>)
    requires
        pos <= toks.len(),
        node is Mapping,
    ensures
        outcome(r) == query(node@, rest_of(toks@, pos as int)),
    decreases toks.len() - pos, 1int,
{
    let entries = match node {
        Value::Mapping(entries) => entries,
        _ => {
            return Ok(None);
        },
    };
    let ghost m = entries_of(entries@);
    let ghost ts = rest_of(toks@, pos as int);
    proof {
        lemma_entries_of(entries@);
    }
    if pos >= toks.len() {
        return Ok(None);
    }
    let t = chars_of(toks[pos].as_str());
    proof {
        lemma_rest_of(toks@, pos as int);
    }
    if t.len() == 0 {
        return Ok(None);
    }
    if is_star(&t) {
        if pos + 1 == toks.len() {
            return Ok(Some(node.deep_copy()));
        }
        let ghost rest = rest_of(toks@, pos + 1);
        assert(query(node@, ts) == first_match(m, rest, 0));
        let mut j: usize = 0;
        while j < entries.len()
            invariant
                j <= entries.len(),
                pos + 1 < toks.len(),
                query(node@, ts) == first_match(m, rest, 0),
                ts == rest_of(toks@, pos as int),
                m == entries_of(entries@),
                m.len() == entries.len(),
                forall|i: int| 0 <= i < m.len() ==> #[trigger] m[i] == (entries@[i].0@, entries@[i].1@),
                rest == rest_of(toks@, pos + 1),
                first_match(m, rest, 0) == first_match(m, rest, j as int),
            decreases entries.len() - j,
        {
            let child = &entries[j].1;
            if let Value::Mapping(_) = child {
                let r = mapping_step(child, toks, pos + 1);
                match r {
                    Ok(None) => {},
                    _ => {
                        return r;
                    },
                }
            }
            j = j + 1;
        }
        return Ok(None);
    }
    proof {
        if lookup_from(m, t@, 0) is Some {
            assert(query(node@, ts) == descend(lookup_from(m, t@, 0)->0, rest_of(toks@, pos + 1)));
        }
    }
    let mut j: usize = 0;
    while j < entries.len()
        invariant
            j <= entries.len(),
            pos < toks.len(),
            lookup_from(m, t@, 0) is None ==> query(node@, ts) == Ok::<Option<Tree>, QueryError>(
                None,
            ),
            ts == rest_of(toks@, pos as int),
            lookup_from(m, t@, 0) is Some ==> query(node@, ts) == descend(
                lookup_from(m, t@, 0)->0,
                rest_of(toks@, pos + 1),
            ),
            t@ == toks@[pos as int]@,
            m == entries_of(entries@),
            m.len() == entries.len(),
            forall|i: int| 0 <= i < m.len() ==> #[trigger] m[i] == (entries@[i].0@, entries@[i].1@),
            lookup_from(m, t@, 0) == lookup_from(m, t@, j as int),
        decreases entries.len() - j,
    {
        if entries[j].0.eq(&toks[pos]) {
            return descend_exec(&entries[j].1, toks, pos + 1);
        }
        j = j + 1;
    }
    Ok(None)
}

/// The tokens from `pos` on applied to the sequence `node`.
fn sequence_step(node: &Value, toks: &Vec<String>, pos: usize) -> (r: Result<Option<Value>, QueryError>)
    requires
        pos <= toks.len(),
        node is Sequence,
    ensures
        outcome(r) == query(node@, rest_of(toks@, pos as int)),
    decreases toks.len() - pos, 1int,
{
    let items = match node {
        Value::Sequence(items) => items,
        _ => {
            return Ok(None);
        },
    };
    let ghost s = trees_of(items@);
    let ghost ts = rest_of(toks@, pos as int);
    proof {
        lemma_trees_of(items@);
    }
    if pos >= toks.len() {
        return Ok(None);
    }
    let t = chars_of(toks[pos].as_str());
    proof {
        lemma_rest_of(toks@, pos as int);
    }
    let ghost rest = rest_of(toks@, pos + 1);
    let n = items.len();
    match parse_i64(&t) {
        Some(i) => {
            let idx: i128 = if i >= 0 {
                i as i128
            } else {
                n as i128 + i as i128
            };
            if 0 <= idx && idx < n as i128 {
                return descend_exec(&items[idx as usize], toks, pos + 1);
            }
            return Ok(None);
        },
        None => {},
    }
    let parts = slice_parts(toks[pos].as_str());
    if parts.len() == 2 || parts.len() == 3 {
        let (a, b, c) = match bounds_of(&parts, n) {
            Ok(bounds) => bounds,
            Err(e) => {
                return Err(e);
            },
        };
        assert(query(node@, ts) == as_sequence(slice_from(s, rest, a as int, b as int, c as int, 0)));
        let mut out: Vec<Value> = Vec::new();
        let mut k: usize = 0;
        while k < n
            invariant
                n == items.len(),
                k <= n,
                pos < toks.len(),
                query(node@, ts) == as_sequence(slice_from(s, rest, a as int, b as int, c as int, 0)),
                ts == rest_of(toks@, pos as int),
                s == trees_of(items@),
                s.len() == n,
                forall|i: int| 0 <= i < n ==> #[trigger] s[i] == items@[i]@,
                rest == rest_of(toks@, pos + 1),
                i64::MIN <= a <= i64::MAX,
                i64::MIN <= c <= i64::MAX,
                c != 0,
                slice_from(s, rest, a as int, b as int, c as int, 0) == prepend(
                    trees_of(out@),
                    slice_from(s, rest, a as int, b as int, c as int, k as int),
                ),
            decreases n - k,
        {
            let idx: usize = if c > 0 {
                k
            } else {
                n - 1 - k
            };
            let takes = a as i128 <= idx as i128 && (idx as i128) < b && if c > 0 {
                (idx as u128) % (c as u128) == 0
            } else {
                ((idx as i128 - a as i128) as u128) % ((0 - c as i128) as u128) == 0
            };
            assert(takes == slice_takes(idx as int, a as int, b as int, c as int));
            proof {
                assert(slice_index(n as int, c as int, k as int) == idx as int);
                assert(s[idx as int] == items@[idx as int]@);
            }
            if takes {
                let d = descend_exec(&items[idx], toks, pos + 1);
                assert(slice_from(s, rest, a as int, b as int, c as int, k as int) == match slice_item(s[idx as int], rest) {
                    Err(e) => Err(e),
                    Ok(x) => prepend(seq![x], slice_from(s, rest, a as int, b as int, c as int, k + 1)),
                });
                let x = match d {
                    Ok(Some(x)) => x,
                    Ok(None) => Value::Null,
                    Err(e) => {
                        return Err(e);
                    },
                };
                proof {
                    lemma_trees_push(out@, x);
                    lemma_prepend_prepend(
                        trees_of(out@),
                        seq![x@],
                        slice_from(s, rest, a as int, b as int, c as int, k + 1),
                    );
                    assert(trees_of(out@) + seq![x@] =~= trees_of(out@).push(x@));
                }
                out.push(x);
            }
            k = k + 1;
        }
        proof {
            assert(trees_of(out@) + seq![] =~= trees_of(out@));
        }
        return Ok(Some(Value::Sequence(out)));
    }
    if !is_star(&t) {
        return Ok(None);
    }
    if pos + 1 == toks.len() {
        return Ok(Some(node.deep_copy()));
    }
    assert(query(node@, ts) == as_sequence(collect_from(s, rest, 0)));
    let mut out: Vec<Value> = Vec::new();
    let mut k: usize = 0;
    while k < n
        invariant
            n == items.len(),
            k <= n,
            pos + 1 < toks.len(),
            query(node@, ts) == as_sequence(collect_from(s, rest, 0)),
            ts == rest_of(toks@, pos as int),
            s == trees_of(items@),
            s.len() == n,
            forall|i: int| 0 <= i < n ==> #[trigger] s[i] == items@[i]@,
            rest == rest_of(toks@, pos + 1),
            collect_from(s, rest, 0) == prepend(trees_of(out@), collect_from(s, rest, k as int)),
        decreases n - k,
    {
        let child = &items[k];
        if let Value::Mapping(_) = child {
            match mapping_step(child, toks, pos + 1) {
                Ok(Some(x)) => {
                    proof {
                        lemma_trees_push(out@, x);
                        lemma_prepend_prepend(
                            trees_of(out@),
                            seq![x@],
                            collect_from(s, rest, k + 1),
                        );
                        assert(trees_of(out@) + seq![x@] =~= trees_of(out@).push(x@));
                    }
                    out.push(x);
                },
                Ok(None) => {},
                Err(e) => {
                    return Err(e);
                },
            }
        }
        k = k + 1;
    }
    proof {
        assert(trees_of(out@) + seq![] =~= trees_of(out@));
    }
    Ok(Some(Value::Sequence(out)))
}

} // verus!
