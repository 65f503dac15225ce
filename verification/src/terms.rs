//! Splitting paths into terms.

use vstd::prelude::*;
use vstd::string::*;

verus! {

/// The position of the first `/` in `s`, or `s.len()` where it has none.
pub open spec fn first_slash(s: Seq<char>) -> int
    decreases s.len(),
{
    if s.len() == 0 || s[0] == '/' {
        0
    } else {
        1 + first_slash(s.drop_first())
    }
}

/// The components of a path: the pieces between its `/` characters, in order.
/// A path without `/` is one component; empty components are kept.
pub open spec fn path_terms(s: Seq<char>) -> Seq<Seq<char>>
    decreases s.len(),
{
    let i = first_slash(s);
    if 0 <= i < s.len() {
        seq![s.take(i)] + path_terms(s.skip(i + 1))
    } else {
        seq![s]
    }
}

/// The views of a sequence of strings.
pub open spec fn views(v: Seq<String>) -> Seq<Seq<char>> {
    Seq::new(v.len(), |i: int| v[i]@)
}

/// The terms of a file listing: the components of each path, path after path.
pub open spec fn listing_terms(files: Seq<Seq<char>>) -> Seq<Seq<char>>
    decreases files.len(),
{
    if files.len() == 0 {
        Seq::empty()
    } else {
        listing_terms(files.drop_last()) + path_terms(files.last())
    }
}

/// Where no `/` stands before position `j`, and `j` is the end or holds one,
/// `j` is the first slash.
pub proof fn lemma_first_slash(s: Seq<char>, j: int)
    requires
        0 <= j <= s.len(),
        forall|k: int| 0 <= k < j ==> s[k] != '/',
        j < s.len() ==> s[j] == '/',
    ensures
        first_slash(s) == j,
    decreases j,
{
    if j > 0 {
        let t = s.drop_first();
        assert forall|k: int| 0 <= k < j - 1 implies t[k] != '/' by {
            assert(t[k] == s[k + 1]);
        }
        lemma_first_slash(t, j - 1);
    }
}

/// Splits a path at each `/`.
pub fn split_path(path: &str) -> (terms: Vec<String>)
    ensures
        views(terms@) == path_terms(path@),
{
    let n: usize = path.unicode_len();
    let mut out: Vec<String> = Vec::new();
    let mut start: usize = 0;
    let mut i: usize = 0;
    assert(path@.skip(0) =~= path@);
    assert(views(out@) + path_terms(path@) =~= path_terms(path@));
    while i < n
        invariant
            n == path@.len(),
            start <= i <= n,
            views(out@) + path_terms(path@.skip(start as int)) == path_terms(path@),
            forall|k: int| start <= k < i ==> path@[k] != '/',
        decreases n - i,
    {
        if path.get_char(i) == '/' {
            let piece = String::from_str(path.substring_char(start, i));
            proof {
                let rest = path@.skip(start as int);
                lemma_first_slash(rest, i - start);
                assert(rest.take(i - start) =~= path@.subrange(start as int, i as int));
                assert(rest.skip(i - start + 1) =~= path@.skip(i + 1));
                assert(views(out@.push(piece)) =~= views(out@) + seq![piece@]);
                assert(views(out@.push(piece)) + path_terms(path@.skip(i + 1)) =~= views(out@)
                    + path_terms(rest));
            }
            out.push(piece);
            start = i + 1;
        }
        i += 1;
    }
    let piece = String::from_str(path.substring_char(start, n));
    proof {
        let rest = path@.skip(start as int);
        lemma_first_slash(rest, n - start);
        assert(rest =~= path@.subrange(start as int, n as int));
        assert(views(out@.push(piece)) =~= views(out@) + path_terms(rest));
    }
    out.push(piece);
    out
}

/// Splits every path of a listing and gathers the terms in order.
pub fn extract_terms(files: &Vec<String>) -> (terms: Vec<String>)
    ensures
        views(terms@) == listing_terms(views(files@)),
{
    let mut out: Vec<String> = Vec::new();
    let mut i: usize = 0;
    assert(views(files@).take(0) =~= Seq::<Seq<char>>::empty());
    assert(views(out@) =~= listing_terms(views(files@).take(0)));
    while i < files.len()
        invariant
            i <= files.len(),
            views(out@) == listing_terms(views(files@).take(i as int)),
        decreases files.len() - i,
    {
        let mut parts = split_path(files[i].as_str());
        proof {
            let upto = views(files@).take(i + 1);
            assert(upto.drop_last() =~= views(files@).take(i as int));
            assert(upto.last() == files@[i as int]@);
            assert(views(out@ + parts@) =~= views(out@) + views(parts@));
        }
        out.append(&mut parts);
        i += 1;
    }
    assert(views(files@).take(files.len() as int) =~= views(files@));
    out
}

} // verus!
