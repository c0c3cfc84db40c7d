//! Text utilities: moving between `String` and its characters, comparing
//! strings, and joining command words with single spaces.

use vstd::prelude::*;
use vstd::string::StrSliceExecFns;
use vstd::string::StringExecFns;

verus! {

/// Relies on `String` collecting an iterator of `char`: the result holds
/// exactly the characters of `v`, in order.
#[verifier::external_body]
pub(crate) fn string_from_chars(v: &Vec<char>) -> (r: String)
    ensures
        r@ == v@,
{
    v.iter().collect()
}

/// The characters of a string slice, as a vector.
pub fn chars_vec(s: &str) -> (r: Vec<char>)
    ensures
        r@ == s@,
{
    let n = s.unicode_len();
    let mut v: Vec<char> = Vec::new();
    let mut i: usize = 0;
    proof {
        assert(v@ =~= s@.subrange(0, 0));
    }
    while i < n
        invariant
            i <= n,
            n == s@.len(),
            v@ == s@.subrange(0, i as int),
        decreases n - i,
    {
        v.push(s.get_char(i));
        i = i + 1;
        proof {
            assert(v@ =~= s@.subrange(0, i as int));
        }
    }
    proof {
        assert(s@.subrange(0, n as int) =~= s@);
    }
    v
}

/// Whether two string slices hold the same characters.
pub fn str_eq(a: &str, b: &str) -> (r: bool)
    ensures
        r == (a@ == b@),
{
    let an = a.unicode_len();
    let bn = b.unicode_len();
    if an != bn {
        return false;
    }
    let mut i: usize = 0;
    while i < an
        invariant
            i <= an,
            an == a@.len(),
            an == b@.len(),
            forall|k: int| 0 <= k < i ==> a@[k] == b@[k],
        decreases an - i,
    {
        if a.get_char(i) != b.get_char(i) {
            return false;
        }
        i = i + 1;
    }
    proof {
        assert(a@ =~= b@);
    }
    true
}

/// The given word sequences joined with single spaces, in order.
pub open spec fn spec_join(ws: Seq<Seq<char>>) -> Seq<char>
    decreases ws.len(),
{
    if ws.len() == 0 {
        Seq::empty()
    } else if ws.len() == 1 {
        ws[0]
    } else {
        spec_join(ws.drop_last()) + seq![' '] + ws.last()
    }
}

/// The values of a sequence of strings.
pub open spec fn string_views(ss: Seq<String>) -> Seq<Seq<char>> {
    ss.map_values(|s: String| s@)
}

/// Joins the words from position `start` on with single spaces, as a
/// description is built from the words of an `add` command.
pub fn join_words(words: &Vec<String>, start: usize) -> (r: String)
    requires
        start <= words@.len(),
    ensures
        r@ == spec_join(string_views(words@).subrange(start as int, words@.len() as int)),
{
    let ghost ws = string_views(words@);
    let mut r = String::new();
    let mut k: usize = start;
    proof {
        assert(ws.subrange(start as int, start as int) =~= Seq::<Seq<char>>::empty());
    }
    while k < words.len()
        invariant
            start <= k <= words@.len(),
            ws == string_views(words@),
            ws.len() == words@.len(),
            r@ == spec_join(ws.subrange(start as int, k as int)),
        decreases words@.len() - k,
    {
        if k > start {
            r.append(" ");
        }
        r.append(words[k].as_str());
        k = k + 1;
        proof {
            reveal_strlit(" ");
            assert(" "@ =~= seq![' ']);
            let cur = ws.subrange(start as int, k as int);
            assert(cur.drop_last() =~= ws.subrange(start as int, k - 1));
            assert(cur.last() == ws[k - 1]);
            assert(ws[k - 1] == words@[k - 1]@);
            if k - 1 == start {
                assert(cur.len() == 1);
                assert(r@ =~= cur[0]);
            } else {
                assert(r@ =~= spec_join(cur.drop_last()) + seq![' '] + cur.last());
            }
        }
    }
    proof {
        assert(ws.subrange(start as int, words@.len() as int) == ws.subrange(
            start as int,
            k as int,
        ));
    }
    r
}

} // verus!
