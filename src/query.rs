use vstd::prelude::*;

use crate::engine::{outcome, query, query_at, rest_of};
use crate::path::{split, token_views, tokenize, QueryError};
use crate::value::{trees_of, Tree, Value};

verus! {

pub open spec fn slash() -> Seq<char> {
    seq!['/']
}

/// The delimiter that a path is split on: `/` unless another is given.
pub open spec fn delimiter_of(delimiter: Option<&str>) -> Seq<char> {
    match delimiter {
        Some(d) => d@,
        None => slash(),
    }
}

pub open spec fn query_views(qs: Seq<Vec<String>>) -> Seq<Seq<Seq<char>>> {
    qs.map_values(|q: Vec<String>| token_views(q@))
}

/// The results of the queries `qs` at `t` that give one, in order.
pub open spec fn compact(t: Tree, qs: Seq<Seq<Seq<char>>>) -> Seq<Tree>
    decreases qs.len(),
{
    if qs.len() == 0 {
        seq![]
    } else {
        let before = compact(t, qs.subrange(0, qs.len() - 1));
        match query(t, qs[qs.len() - 1]) {
            Ok(Some(v)) => before.push(v),
            _ => before,
        }
    }
}

/// The tokens `tokens` applied to `root`.
pub fn query_single(root: &Value, tokens: &Vec<String>) -> (r: Result<Option<Value>, QueryError>)
    ensures
        outcome(r) == query(root@, token_views(tokens@)),
{
    assert(rest_of(tokens@, 0) =~= token_views(tokens@));
    query_at(root, tokens, 0)
}

/// `path`, split on `delimiter` (default `/`), applied to `root`.
pub fn query_by_path(root: &Value, path: &str, delimiter: Option<&str>) -> (r: Result<
    Option<Value>,
    QueryError,
>)
    ensures
        outcome(r) == query(root@, split(path@, delimiter_of(delimiter))),
{
    let d = match delimiter {
        Some(d) => d,
        None => {
            let slash_str = "/";
            proof {
                reveal_strlit("/");
                assert(slash_str@ =~= slash());
            }
            slash_str
        },
    };
    let tokens = tokenize(path, d);
    query_single(root, &tokens)
}

/// The results of each query that gives one, in order; queries that give no
/// result or a malformed-path error are left out.
pub fn query_batch_compact(root: &Value, queries: &Vec<Vec<String>>) -> (r: Vec<Value>)
    ensures
        trees_of(r@) == compact(root@, query_views(queries@)),
        r.len() <= queries.len(),
{
    let ghost qs = query_views(queries@);
    let mut out: Vec<Value> = Vec::new();
    let mut i: usize = 0;
    while i < queries.len()
        invariant
            i <= queries.len(),
            qs == query_views(queries@),
            out.len() <= i,
            trees_of(out@) == compact(root@, qs.subrange(0, i as int)),
        decreases queries.len() - i,
    {
        let r = query_single(root, &queries[i]);
        proof {
            assert(qs.subrange(0, i + 1).subrange(0, i as int) =~= qs.subrange(0, i as int));
            assert(qs.subrange(0, i + 1)[i as int] == token_views(queries@[i as int]@));
        }
        match r {
            Ok(Some(v)) => {
                proof {
                    assert(out@.push(v).subrange(0, out@.len() as int) =~= out@);
                }
                out.push(v);
            },
            _ => {},
        }
        i = i + 1;
    }
    assert(qs.subrange(0, queries.len() as int) =~= qs);
    out
}

/// One entry per path, in order: the result of the path split on
/// `delimiter` (default `/`), no result, or its malformed-path error.
pub fn query_by_paths(root: &Value, paths: &Vec<String>, delimiter: Option<&str>) -> (r: Vec<
    Result<Option<Value>, QueryError>,
>)
    ensures
        r.len() == paths.len(),
        forall|i: int|
            0 <= i < paths.len() ==> outcome(#[trigger] r@[i]) == query(
                root@,
                split(paths@[i]@, delimiter_of(delimiter)),
            ),
{
    let mut out: Vec<Result<Option<Value>, QueryError>> = Vec::new();
    let mut i: usize = 0;
    while i < paths.len()
        invariant
            i <= paths.len(),
            out.len() == i,
            forall|j: int|
                0 <= j < i ==> outcome(#[trigger] out@[j]) == query(
                    root@,
                    split(paths@[j]@, delimiter_of(delimiter)),
                ),
        decreases paths.len() - i,
    {
        let r = query_by_path(root, paths[i].as_str(), delimiter);
        out.push(r);
        i = i + 1;
    }
    out
}

} // verus!
