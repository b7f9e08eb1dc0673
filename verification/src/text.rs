//! Character-level text utilities shared by the row-ingestion reader and the
//! query classifier: character extraction, ASCII lowercasing, and substring
//! search.

use vstd::prelude::*;
use vstd::string::StrSliceExecFns;

verus! {

/// The characters of `s` as a vector.
pub fn chars_of(s: &str) -> (r: Vec<char>)
    ensures
        r@ == s@,
{
    let n = s.unicode_len();
    let mut out: Vec<char> = Vec::new();
    let mut i: usize = 0;
    while i < n
        invariant
            i <= n == s@.len(),
            out@ == s@.subrange(0, i as int),
        decreases n - i,
    {
        out.push(s.get_char(i));
        proof {
            assert(out@ =~= s@.subrange(0, i + 1));
        }
        i = i + 1;
    }
    proof {
        assert(out@ =~= s@);
    }
    out
}

/// A string holding exactly the given characters.
/// Relies on `String`'s `FromIterator<char>` (`collect`): the collected string
/// consists of the iterated characters in order.
#[verifier::external_body]
pub fn string_from_chars(v: &Vec<char>) -> (r: String)
    ensures
        r@ == v@,
{
    v.iter().collect()
}

/// ASCII lowercasing of one character; other characters are unchanged.
pub open spec fn lower_char(c: char) -> char {
    if 'A' <= c && c <= 'Z' {
        (((c as u8) + 32) as char)
    } else {
        c
    }
}

/// Pointwise ASCII lowercasing.
pub open spec fn lower_seq(s: Seq<char>) -> Seq<char> {
    Seq::new(s.len(), |i: int| lower_char(s[i]))
}

/// Lowercased copy of `v` (ASCII case folding).
pub fn lower_chars(v: &Vec<char>) -> (r: Vec<char>)
    ensures
        r@ == lower_seq(v@),
{
    let mut out: Vec<char> = Vec::new();
    let mut i: usize = 0;
    while i < v.len()
        invariant
            i <= v@.len(),
            out@.len() == i,
            forall|j: int| 0 <= j < i ==> out@[j] == lower_char(v@[j]),
        decreases v@.len() - i,
    {
        let c = v[i];
        if 'A' <= c && c <= 'Z' {
            out.push(((c as u8) + 32) as char);
        } else {
            out.push(c);
        }
        i = i + 1;
    }
    proof {
        assert(out@ =~= lower_seq(v@));
    }
    out
}

/// `pat` occurs in `s` starting at index `i`.
pub open spec fn match_at(s: Seq<char>, i: int, pat: Seq<char>) -> bool {
    &&& 0 <= i
    &&& i + pat.len() <= s.len()
    &&& forall|j: int| 0 <= j < pat.len() ==> s[i + j] == #[trigger] pat[j]
}

/// `pat` occurs somewhere in `s`.
pub open spec fn contains_seq(s: Seq<char>, pat: Seq<char>) -> bool {
    exists|i: int| match_at(s, i, pat)
}

/// Whether `pat` occurs in `hay` starting at `i`.
pub fn matches_at(hay: &Vec<char>, pat: &Vec<char>, i: usize) -> (r: bool)
    requires
        i + pat@.len() <= hay@.len(),
    ensures
        r == match_at(hay@, i as int, pat@),
{
    let hlen = hay.len();
    let mut k: usize = 0;
    while k < pat.len()
        invariant
            k <= pat@.len(),
            hlen == hay@.len(),
            i + pat@.len() <= hay@.len(),
            forall|q: int| 0 <= q < k ==> hay@[i + q] == #[trigger] pat@[q],
        decreases pat@.len() - k,
    {
        if hay[i + k] != pat[k] {
            proof {
                assert(!match_at(hay@, i as int, pat@));
            }
            return false;
        }
        k = k + 1;
    }
    true
}

/// Index of the first occurrence of `pat` in `hay`, or `None` when `pat` does
/// not occur.
pub fn find_first(hay: &Vec<char>, pat: &Vec<char>) -> (r: Option<usize>)
    ensures
        r matches Some(idx) ==> match_at(hay@, idx as int, pat@) && forall|j: int|
            0 <= j < idx ==> !match_at(hay@, j, pat@),
        r is None ==> forall|j: int| !match_at(hay@, j, pat@),
{
    if pat.len() > hay.len() {
        return None;
    }
    let limit = hay.len() - pat.len();
    let mut i: usize = 0;
    loop
        invariant
            i <= limit,
            limit == hay@.len() - pat@.len(),
            pat@.len() <= hay@.len(),
            forall|j: int| 0 <= j < i ==> !match_at(hay@, j, pat@),
        decreases limit - i,
    {
        if matches_at(hay, pat, i) {
            return Some(i);
        }
        if i == limit {
            return None;
        }
        i = i + 1;
    }
}

/// Whether `pat` occurs in `hay`.
pub fn contains_pat(hay: &Vec<char>, pat: &Vec<char>) -> (r: bool)
    ensures
        r == contains_seq(hay@, pat@),
{
    match find_first(hay, pat) {
        Some(_) => true,
        None => false,
    }
}

} // verus!
