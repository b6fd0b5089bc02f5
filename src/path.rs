use vstd::prelude::*;

verus! {

/// Pieces of `s` between occurrences of the non-empty delimiter `d`, scanning
/// from `i`, where the current piece began at `start`.
pub open spec fn split_from(s: Seq<char>, d: Seq<char>, start: int, i: int) -> Seq<Seq<char>>
    decreases s.len() - i,
{
    if d.len() == 0 || i < 0 || i + d.len() > s.len() {
        seq![s.subrange(start, s.len() as int)]
    } else if s.subrange(i, i + d.len()) == d {
        seq![s.subrange(start, i)] + split_from(s, d, i + d.len(), i + d.len())
    } else {
        split_from(s, d, start, i + 1)
    }
}

/// `s` split on `d`: with a non-empty `d`, the pieces between its
/// non-overlapping occurrences from the left; with an empty `d`, an empty
/// piece, then each character on its own, then an empty piece.
pub open spec fn split(s: Seq<char>, d: Seq<char>) -> Seq<Seq<char>> {
    if d.len() == 0 {
        seq![Seq::<char>::empty()] + Seq::new(s.len(), |i: int| seq![s[i]]) + seq![
            Seq::<char>::empty(),
        ]
    } else {
        split_from(s, d, 0, 0)
    }
}

pub open spec fn token_views(toks: Seq<String>) -> Seq<Seq<char>> {
    toks.map_values(|t: String| t@)
}

pub open spec fn is_digit(c: char) -> bool {
    48 <= (c as u32) <= 57
}

pub open spec fn digits_value(s: Seq<char>) -> int
    decreases s.len(),
{
    if s.len() == 0 {
        0
    } else {
        digits_value(s.subrange(0, s.len() - 1)) * 10 + ((s[s.len() - 1] as u32) - 48)
    }
}

pub open spec fn is_numeral(s: Seq<char>) -> bool {
    s.len() > 0 && forall|i: int| 0 <= i < s.len() ==> is_digit(#[trigger] s[i])
}

pub open spec fn has_sign(s: Seq<char>) -> bool {
    s.len() > 0 && (s[0] == '-' || s[0] == '+')
}

/// The integer that `s` writes in decimal, with an optional sign, when it
/// lies in the range of `i64`.
pub open spec fn parse_int(s: Seq<char>) -> Option<int> {
    let body = if has_sign(s) {
        s.subrange(1, s.len() as int)
    } else {
        s
    };
    let n = if has_sign(s) && s[0] == '-' {
        -digits_value(body)
    } else {
        digits_value(body)
    };
    if is_numeral(body) && i64::MIN <= n <= i64::MAX {
        Some(n)
    } else {
        None
    }
}

/// Errors that mark a path as malformed.
#[derive(Debug, PartialEq, Eq, Clone, Copy)]
pub enum QueryError {
    /// A slice token whose step is zero.
    ZeroStep,
    /// A slice token with a part that is neither empty nor an integer.
    BadSliceBound,
}

pub open spec fn colon() -> Seq<char> {
    seq![':']
}

/// A slice token has one or two `:`.
pub open spec fn is_slice_token(t: Seq<char>) -> bool {
    let n = split(t, colon()).len();
    n == 2 || n == 3
}

pub open spec fn part_or(p: Seq<char>, default: int) -> Option<int> {
    if p.len() == 0 {
        Some(default)
    } else {
        parse_int(p)
    }
}

/// Start, end and step of a slice token split on `:` into `p`, over a
/// sequence of length `len`: start defaults to 0, end to `len`, step to 1.
pub open spec fn bounds_of_parts(p: Seq<Seq<char>>, len: int) -> Result<(int, int, int), QueryError> {
    let a = part_or(p[0], 0);
    let b = part_or(p[1], len);
    let c = if p.len() < 3 {
        Some(1)
    } else {
        part_or(p[2], 1)
    };
    if a is None || b is None || c is None {
        Err(QueryError::BadSliceBound)
    } else if c->0 == 0 {
        Err(QueryError::ZeroStep)
    } else {
        Ok((a->0, b->0, c->0))
    }
}

pub open spec fn slice_bounds(t: Seq<char>, len: int) -> Result<(int, int, int), QueryError> {
    bounds_of_parts(split(t, colon()), len)
}

/// The characters of `s`.
pub fn chars_of(s: &str) -> (r: Vec<char>)
    ensures
        r@ == s@,
{
    let n = s.unicode_len();
    let mut r: Vec<char> = Vec::new();
    let mut i: usize = 0;
    while i < n
        invariant
            n == s@.len(),
            i <= n,
            r@ == s@.subrange(0, i as int),
        decreases n - i,
    {
        r.push(s.get_char(i));
        i = i + 1;
    }
    assert(r@ =~= s@);
    r
}

fn matches_at(s: &Vec<char>, d: &Vec<char>, i: usize) -> (r: bool)
    requires
        i + d.len() <= s.len(),
    ensures
        r == (s@.subrange(i as int, i + d.len()) == d@),
{
    let mut j: usize = 0;
    while j < d.len()
        invariant
            i + d.len() <= s.len(),
            j <= d.len(),
            forall|k: int| 0 <= k < j ==> s@[i + k] == d@[k],
        decreases d.len() - j,
    {
        if s[i + j] != d[j] {
            assert(s@.subrange(i as int, i + d.len())[j as int] != d@[j as int]);
            return false;
        }
        j = j + 1;
    }
    assert(s@.subrange(i as int, i + d.len()) =~= d@);
    true
}

/// Splits `path` on each occurrence of `delimiter`; no escaping, no trimming.
pub fn tokenize(path: &str, delimiter: &str) -> (r: Vec<String>)
    ensures
        token_views(r@) == split(path@, delimiter@),
{
    let s = chars_of(path);
    let d = chars_of(delimiter);
    let n = s.len();
    let mut out: Vec<String> = Vec::new();
    if d.len() == 0 {
        out.push(String::new());
        let mut i: usize = 0;
        while i < n
            invariant
                n == s.len(),
                s@ == path@,
                i <= n,
                token_views(out@) == seq![Seq::<char>::empty()] + Seq::new(
                    i as nat,
                    |k: int| seq![path@[k]],
                ),
            decreases n - i,
        {
            let piece = path.substring_char(i, i + 1).to_owned();
            let ghost before = out@;
            proof {
                assert(piece@ =~= seq![path@[i as int]]);
            }
            out.push(piece);
            proof {
                assert(token_views(out@) =~= token_views(before).push(piece@));
                assert(token_views(out@) =~= seq![Seq::<char>::empty()] + Seq::new(
                    (i + 1) as nat,
                    |k: int| seq![path@[k]],
                ));
            }
            i = i + 1;
        }
        let ghost before = out@;
        out.push(String::new());
        assert(token_views(out@) =~= token_views(before).push(Seq::<char>::empty()));
        assert(token_views(out@) =~= split(path@, delimiter@));
        return out;
    }
    let mut start: usize = 0;
    let mut i: usize = 0;
    while i < n && d.len() <= n - i
        invariant
            n == s.len(),
            s@ == path@,
            d@ == delimiter@,
            d.len() > 0,
            start <= i <= n,
            token_views(out@) + split_from(s@, d@, start as int, i as int) == split(
                path@,
                delimiter@,
            ),
        decreases n - i,
    {
        if matches_at(&s, &d, i) {
            let piece = path.substring_char(start, i).to_owned();
            proof {
                assert(token_views(out@.push(piece)) =~= token_views(out@).push(piece@));
                assert(token_views(out@).push(piece@) + split_from(
                    s@,
                    d@,
                    (i + d.len()) as int,
                    (i + d.len()) as int,
                ) =~= token_views(out@) + split_from(s@, d@, start as int, i as int));
            }
            out.push(piece);
            i = i + d.len();
            start = i;
        } else {
            i = i + 1;
        }
    }
    let piece = path.substring_char(start, n).to_owned();
    proof {
        assert(token_views(out@.push(piece)) =~= token_views(out@).push(piece@));
        assert(token_views(out@).push(piece@) =~= token_views(out@) + split_from(
            s@,
            d@,
            start as int,
            i as int,
        ));
    }
    out.push(piece);
    out
}

proof fn lemma_digits_step(s: Seq<char>, k: int)
    requires
        0 <= k < s.len(),
    ensures
        digits_value(s.subrange(0, k + 1)) == digits_value(s.subrange(0, k)) * 10 + ((s[k] as u32)
            - 48),
{
    assert(s.subrange(0, k + 1).subrange(0, k) =~= s.subrange(0, k));
}

proof fn lemma_digits_nonneg(s: Seq<char>)
    requires
        forall|i: int| 0 <= i < s.len() ==> is_digit(#[trigger] s[i]),
    ensures
        digits_value(s) >= 0,
    decreases s.len(),
{
    if s.len() > 0 {
        let p = s.subrange(0, s.len() - 1);
        assert forall|i: int| 0 <= i < p.len() implies is_digit(#[trigger] p[i]) by {
            assert(p[i] == s[i]);
        }
        lemma_digits_nonneg(p);
        assert(is_digit(s[s.len() - 1]));
    }
}

/// The integer that `t` writes in decimal, as `parse_int` states.
pub fn parse_i64(t: &Vec<char>) -> (r: Option<i64>)
    ensures
        match r {
            Some(n) => parse_int(t@) == Some(n as int),
            None => parse_int(t@) is None,
        },
{
    let n = t.len();
    let signed = n > 0 && (t[0] == '-' || t[0] == '+');
    let negative = signed && t[0] == '-';
    let b: usize = if signed {
        1
    } else {
        0
    };
    let ghost body = if signed {
        t@.subrange(1, n as int)
    } else {
        t@
    };
    assert(signed == has_sign(t@));
    if b >= n {
        return None;
    }
    let cap: u128 = 9223372036854775809;
    let mut acc: u128 = 0;
    let mut k: usize = b;
    assert(body.subrange(0, 0) =~= Seq::<char>::empty());
    while k < n
        invariant
            b <= k <= n,
            n == t.len(),
            b < n,
            b == (if signed { 1int } else { 0int }),
            signed == has_sign(t@),
            cap == 9223372036854775809,
            acc <= cap,
            body == t@.subrange(b as int, n as int),
            forall|j: int| 0 <= j < k - b ==> is_digit(#[trigger] body[j]),
            acc == (if digits_value(body.subrange(0, k - b)) < cap {
                digits_value(body.subrange(0, k - b))
            } else {
                cap as int
            }),
        decreases n - k,
    {
        let c = t[k];
        if (c as u32) < 48 || (c as u32) > 57 {
            proof {
                assert(body[k - b] == c);
                assert(!is_digit(body[k - b]));
                assert(!is_numeral(body));
                if signed {
                    assert(has_sign(t@));
                }
            }
            return None;
        }
        let d: u128 = ((c as u32) - 48) as u128;
        proof {
            assert(body[k - b] == c);
            lemma_digits_step(body, k - b);
            let pre = body.subrange(0, k - b);
            assert forall|i: int| 0 <= i < pre.len() implies is_digit(#[trigger] pre[i]) by {
                assert(pre[i] == body[i]);
            }
            lemma_digits_nonneg(pre);
        }
        assert(d <= 9);
        if acc >= cap {
            acc = cap;
        } else {
            assert(acc < cap);
            let next = acc * 10 + d;
            acc = if next >= cap {
                cap
            } else {
                next
            };
        }
        k = k + 1;
    }
    assert(body.subrange(0, n - b) =~= body);
    assert(is_numeral(body));
    if negative {
        if acc <= 9223372036854775808 {
            Some((0 - (acc as i128)) as i64)
        } else {
            None
        }
    } else {
        if acc <= 9223372036854775807 {
            Some(acc as i64)
        } else {
            None
        }
    }
}

fn part_value(p: &String, default: i128) -> (r: Option<i128>)
    ensures
        match r {
            Some(x) => part_or(p@, default as int) == Some(x as int),
            None => part_or(p@, default as int) is None,
        },
{
    let cs = chars_of(p.as_str());
    if cs.len() == 0 {
        return Some(default);
    }
    match parse_i64(&cs) {
        Some(x) => Some(x as i128),
        None => None,
    }
}

/// The pieces of `t` between its `:` characters.
pub fn slice_parts(t: &str) -> (r: Vec<String>)
    ensures
        token_views(r@) == split(t@, colon()),
{
    let sep = ":";
    proof {
        reveal_strlit(":");
        assert(sep@ =~= colon());
    }
    tokenize(t, sep)
}

/// Start, end and step of a slice token split on `:` into `parts`.
pub fn bounds_of(parts: &Vec<String>, len: usize) -> (r: Result<(i128, i128, i128), QueryError>)
    requires
        parts.len() >= 2,
    ensures
        match r {
            Ok((a, b, c)) => bounds_of_parts(token_views(parts@), len as int) == Ok::<
                (int, int, int),
                QueryError,
            >((a as int, b as int, c as int)),
            Err(e) => bounds_of_parts(token_views(parts@), len as int) == Err::<
                (int, int, int),
                QueryError,
            >(e),
        },
{
    let a = part_value(&parts[0], 0);
    let b = part_value(&parts[1], len as i128);
    let c = if parts.len() < 3 {
        Some(1i128)
    } else {
        part_value(&parts[2], 1)
    };
    match (a, b, c) {
        (Some(a), Some(b), Some(c)) => {
            if c == 0 {
                Err(QueryError::ZeroStep)
            } else {
                Ok((a, b, c))
            }
        },
        _ => Err(QueryError::BadSliceBound),
    }
}

} // verus!
