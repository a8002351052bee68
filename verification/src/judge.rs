//! The data interface of the benchmark judge: the verdict of one benchmark
//! comparison, and the small string readers its hooks use on attested
//! result files. The statistics behind the verdicts live outside the
//! library.

use vstd::prelude::*;

use crate::strutil;

verus! {

/// The outcome of comparing one benchmark against its baseline.
#[derive(Debug, Clone, Copy, PartialEq, Eq, Structural)]
pub enum Verdict {
    Pass,
    Faster,
    Fail,
}

impl Verdict {
    pub fn is_fail(&self) -> (r: bool)
        ensures
            r == (*self is Fail),
    {
        matches!(self, Verdict::Fail)
    }

    /// The verdict as display text.
    pub fn label(&self) -> (r: String)
        ensures
            (*self is Pass) ==> r@ == "pass"@,
            (*self is Faster) ==> r@ == "faster"@,
            (*self is Fail) ==> r@ == "FAIL"@,
    {
        match self {
            Verdict::Pass => String::from_str("pass"),
            Verdict::Faster => String::from_str("faster"),
            Verdict::Fail => String::from_str("FAIL"),
        }
    }
}

/// `pat` occurs in `s` at position `i`.
pub open spec fn matches_at(s: Seq<char>, pat: Seq<char>, i: int) -> bool {
    0 <= i && i + pat.len() <= s.len() && s.subrange(i, i + pat.len()) == pat
}

/// `pat` occurs at `i` and nowhere earlier (at or after `from`).
pub open spec fn is_first_match(s: Seq<char>, pat: Seq<char>, from: int, i: int) -> bool {
    from <= i && matches_at(s, pat, i) && forall|j: int| from <= j < i ==> !matches_at(s, pat, j)
}

/// `c` stands at `q`, and nowhere earlier at or after `from`.
pub open spec fn is_first_char(s: Seq<char>, c: char, from: int, q: int) -> bool {
    from <= q < s.len() && s[q] == c && forall|j: int| from <= j < q ==> s[j] != c
}

/// The first occurrence of `pat` in `s` at or after `from`.
fn find_substr(s: &str, pat: &str, from: usize) -> (r: Option<usize>)
    requires
        from <= s@.len(),
    ensures
        match r {
            Some(i) => is_first_match(s@, pat@, from as int, i as int),
            None => forall|j: int| from <= j < s@.len() ==> !matches_at(s@, pat@, j),
        },
{
    let n = s.unicode_len();
    let pn = pat.unicode_len();
    if pn == 0 {
        proof {
            assert(s@.subrange(from as int, from as int) =~= pat@);
        }
        return Some(from);
    }
    if pn > n {
        proof {
            assert forall|j: int| from <= j < s@.len() implies !matches_at(s@, pat@, j) by {
                assert(j + pat@.len() > s@.len());
            }
        }
        return None;
    }
    let limit = n - pn;
    if from > limit {
        proof {
            assert forall|j: int| from <= j < s@.len() implies !matches_at(s@, pat@, j) by {
                assert(j + pat@.len() > s@.len());
            }
        }
        return None;
    }
    let mut i: usize = from;
    while i <= limit
        invariant
            n == s@.len(),
            pn == pat@.len(),
            pn >= 1,
            limit == n - pn,
            from <= i,
            i <= limit + 1,
            forall|j: int| from <= j < i ==> !matches_at(s@, pat@, j),
        decreases limit + 1 - i,
    {
        let piece = s.substring_char(i, i + pn);
        if strutil::str_eq(piece, pat) {
            proof {
                assert(matches_at(s@, pat@, i as int));
            }
            return Some(i);
        }
        proof {
            assert(!matches_at(s@, pat@, i as int));
        }
        i = i + 1;
    }
    proof {
        assert forall|j: int| from <= j < s@.len() implies !matches_at(s@, pat@, j) by {
            if j < i {
            } else {
                assert(j + pat@.len() > s@.len());
            }
        }
    }
    None
}

/// What [`extract_json_string`] returns: the text between the first pair of
/// quotes that follows the first quoted occurrence of the key, read without
/// parsing the document.
pub open spec fn json_extract_ok(json: Seq<char>, key: Seq<char>, r: Option<Seq<char>>) -> bool {
    let pat = seq!['"'] + key + seq!['"'];
    match r {
        Some(v) => exists|p: int, q1: int, q2: int|
            {
                &&& #[trigger] is_first_match(json, pat, 0, p)
                &&& #[trigger] is_first_char(json, '"', p + pat.len(), q1)
                &&& #[trigger] is_first_char(json, '"', q1 + 1, q2)
                &&& v == json.subrange(q1 + 1, q2)
            },
        None => {
            ||| (forall|j: int| 0 <= j < json.len() ==> !matches_at(json, pat, j))
            ||| (exists|p: int|
                #[trigger] is_first_match(json, pat, 0, p) && forall|j: int|
                    p + pat.len() <= j < json.len() ==> json[j] != '"')
            ||| (exists|p: int, q1: int|
                #[trigger] is_first_match(json, pat, 0, p) && #[trigger] is_first_char(
                    json,
                    '"',
                    p + pat.len(),
                    q1,
                ) && forall|j: int| q1 + 1 <= j < json.len() ==> json[j] != '"')
        },
    }
}

/// Extract the string value of `key` from a JSON document without parsing
/// it: the text between the first pair of quotes after the first quoted
/// occurrence of the key.
pub fn extract_json_string(json: &str, key: &str) -> (r: Option<String>)
    ensures
        json_extract_ok(json@, key@, match r {
            Some(v) => Some(v@),
            None => None,
        }),
{
    let jn = json.unicode_len();
    let pat = strutil::concat3("\"", key, "\"");
    proof {
        reveal_strlit("\"");
        assert(pat@ =~= seq!['"'] + key@ + seq!['"']);
    }
    let p = match find_substr(json, pat.as_str(), 0) {
        Some(p) => p,
        None => {
            return None;
        },
    };
    proof {
        assert(p + pat@.len() <= jn);
    }
    let after = p + pat.unicode_len();
    let q1 = match strutil::index_of_from(json, '"', after) {
        Some(q) => q,
        None => {
            return None;
        },
    };
    proof {
        assert((q1 as int) < jn);
    }
    let q2 = match strutil::index_of_from(json, '"', q1 + 1) {
        Some(q) => q,
        None => {
            proof {
                assert(is_first_match(json@, pat@, 0, p as int));
                assert(is_first_char(json@, '"', p + pat@.len(), q1 as int));
            }
            return None;
        },
    };
    let v = String::from_str(json.substring_char(q1 + 1, q2));
    proof {
        assert(is_first_char(json@, '"', after as int, q1 as int));
        assert(is_first_char(json@, '"', q1 + 1, q2 as int));
        assert(v@ == json@.subrange(q1 + 1, q2 as int));
    }
    Some(v)
}

/// What [`extract_bench_name`] returns: the text after the first
/// `criterion/` with trailing separators removed, or the text after the
/// last separator, or the whole path.
pub open spec fn bench_name_ok(path: Seq<char>, r: Seq<char>) -> bool {
    let pat = "criterion/"@;
    if exists|j: int| 0 <= j < path.len() && #[trigger] matches_at(path, pat, j) {
        exists|p: int, e: int|
            #![trigger is_first_match(path, pat, 0, p), path.subrange(p + pat.len(), e)]
            {
                &&& is_first_match(path, pat, 0, p)
                &&& p + pat.len() <= e <= path.len()
                &&& (forall|j: int| e <= j < path.len() ==> path[j] == '/')
                &&& (e > p + pat.len() ==> path[e - 1] != '/')
                &&& r == path.subrange(p + pat.len(), e)
            }
    } else if exists|j: int| 0 <= j < path.len() && path[j] == '/' {
        r == path.subrange(crate::builder::last_occurrence(path, '/') + 1, path.len() as int)
    } else {
        r == path
    }
}

/// The benchmark name of a criterion output directory: the part after
/// `criterion/` without trailing separators, or the last path component.
pub fn extract_bench_name(path: &str) -> (r: String)
    ensures
        bench_name_ok(path@, r@),
{
    let pat = "criterion/";
    proof {
        reveal_strlit("criterion/");
    }
    match find_substr(path, pat, 0) {
        Some(p) => {
            proof {
                assert(p + "criterion/"@.len() <= path@.len());
            }
            let n = path.unicode_len();
            let start = p + pat.unicode_len();
            let mut e: usize = n;
            while e > start && path.get_char(e - 1) == '/'
                invariant
                    n == path@.len(),
                    start <= e,
                    e <= n,
                    start == p + "criterion/"@.len(),
                    forall|j: int| e <= j < n ==> path@[j] == '/',
                decreases e,
            {
                e = e - 1;
            }
            let r = String::from_str(path.substring_char(start, e));
            proof {
                assert(matches_at(path@, "criterion/"@, p as int));
            }
            r
        },
        None => {
            match strutil::last_index_of(path, '/') {
                Some(i) => {
                    proof {
                        assert(crate::builder::last_occurrence(path@, '/') == i as int) by {
                            let j = crate::builder::last_occurrence(path@, '/');
                            assert(0 <= j < path@.len() && path@[j] == '/' && forall|k: int|
                                j < k < path@.len() ==> path@[k] != '/');
                            if j < i {
                                assert(path@[i as int] != '/');
                            }
                            if j > i {
                                assert(path@[j] != '/');
                            }
                        }
                    }
                    let n = path.unicode_len();
                    String::from_str(path.substring_char(i + 1, n))
                },
                None => String::from_str(path),
            }
        },
    }
}

/// The last occurrence of `pat` in `s`, if any.
pub fn last_substr(s: &str, pat: &str) -> (r: Option<usize>)
    ensures
        match r {
            Some(i) => matches_at(s@, pat@, i as int) && forall|j: int|
                (i as int) < j ==> !matches_at(s@, pat@, j),
            None => forall|j: int| !matches_at(s@, pat@, j),
        },
{
    let n = s.unicode_len();
    let pn = pat.unicode_len();
    if pn > n {
        proof {
            assert forall|j: int| !matches_at(s@, pat@, j) by {
                if 0 <= j && j + pat@.len() <= s@.len() {
                    assert(false);
                }
            }
        }
        return None;
    }
    let limit = n - pn;
    let mut i: usize = limit;
    loop
        invariant
            n == s@.len(),
            pn == pat@.len(),
            pn <= n,
            limit == n - pn,
            i <= limit,
            forall|j: int| (i as int) < j ==> !matches_at(s@, pat@, j),
        decreases i + 1,
    {
        let piece = s.substring_char(i, i + pn);
        if strutil::str_eq(piece, pat) {
            proof {
                assert(matches_at(s@, pat@, i as int));
            }
            return Some(i);
        }
        proof {
            assert(!matches_at(s@, pat@, i as int));
        }
        if i == 0 {
            return None;
        }
        i = i - 1;
    }
}

} // verus!
