//! Case-insensitive substring matching on file names.
//!
//! A term matches a file name when the lower-cased name contains the
//! lower-cased term as a contiguous subsequence. Lower-casing is done by
//! the standard library; everything around it is verified.

use vstd::prelude::*;

verus! {

/// The lower-cased form of a character sequence, as `str::to_lowercase`
/// computes it.
pub uninterp spec fn lower_of(s: Seq<char>) -> Seq<char>;

/// Relies on `str::to_lowercase`: the result depends on the characters
/// alone, and an empty string stays empty.
#[verifier::external_body]
fn lowercase(s: &str) -> (r: String)
    ensures
        r@ == lower_of(s@),
        s@.len() == 0 ==> r@.len() == 0,
{
    s.to_lowercase()
}

/// `needle` occurs in `hay` starting at position `i`.
pub open spec fn contains_at(hay: Seq<char>, needle: Seq<char>, i: int) -> bool {
    &&& 0 <= i
    &&& i + needle.len() <= hay.len()
    &&& hay.subrange(i, i + needle.len() as int) == needle
}

/// `needle` occurs somewhere in `hay`. An empty needle is contained in
/// every sequence.
pub open spec fn seq_contains(hay: Seq<char>, needle: Seq<char>) -> bool {
    exists|i: int| contains_at(hay, needle, i)
}

/// `term` matches `name` when the lower-cased name contains the
/// lower-cased term as a substring.
pub open spec fn name_matches(term: Seq<char>, name: Seq<char>) -> bool {
    seq_contains(lower_of(name), lower_of(term))
}

/// Law: an empty needle is contained in every sequence, so an empty
/// (lower-cased) term matches every file name.
pub proof fn lemma_empty_needle_contained(hay: Seq<char>)
    ensures
        seq_contains(hay, Seq::<char>::empty()),
{
    assert(contains_at(hay, Seq::<char>::empty(), 0)) by {
        assert(hay.subrange(0, 0) =~= Seq::<char>::empty());
    };
}

/// The characters of a string, collected into a vector.
fn chars_of(s: &str) -> (r: Vec<char>)
    ensures
        r@ == s@,
{
    let len: usize = s.unicode_len();
    let mut v: Vec<char> = Vec::new();
    let mut i: usize = 0;
    while i < len
        invariant
            i <= len,
            len == s@.len(),
            v@ == s@.take(i as int),
        decreases len - i,
    {
        let c: char = s.get_char(i);
        v.push(c);
        proof {
            assert(s@.take(i + 1) =~= s@.take(i as int).push(s@[i as int]));
        }
        i = i + 1;
    }
    proof {
        assert(s@.take(len as int) =~= s@);
    }
    v
}

/// Whether `needle` occurs in `hay` at position `i` exactly.
fn match_at(hay: &Vec<char>, needle: &Vec<char>, i: usize) -> (r: bool)
    requires
        i + needle@.len() <= hay@.len(),
    ensures
        r == contains_at(hay@, needle@, i as int),
{
    let hl: usize = hay.len();
    let n: usize = needle.len();
    let mut j: usize = 0;
    while j < n
        invariant
            j <= n,
            n == needle@.len(),
            hl == hay@.len(),
            i + n <= hay@.len(),
            forall|k: int| 0 <= k < j ==> hay@[i + k] == needle@[k],
        decreases n - j,
    {
        if hay[i + j] != needle[j] {
            proof {
                assert(hay@.subrange(i as int, i + n) != needle@) by {
                    assert(hay@.subrange(i as int, i + n)[j as int] == hay@[i + j]);
                };
            }
            return false;
        }
        j = j + 1;
    }
    proof {
        assert(hay@.subrange(i as int, i + n) =~= needle@);
    }
    true
}

/// Whether `needle` occurs anywhere in `hay`.
fn find_sub(hay: &Vec<char>, needle: &Vec<char>) -> (r: bool)
    ensures
        r == seq_contains(hay@, needle@),
{
    let h: usize = hay.len();
    let n: usize = needle.len();
    if n == 0 {
        proof {
            lemma_empty_needle_contained(hay@);
            assert(needle@ =~= Seq::<char>::empty());
        }
        return true;
    }
    if n > h {
        proof {
            assert(forall|k: int| !contains_at(hay@, needle@, k));
        }
        return false;
    }
    let mut i: usize = 0;
    while i <= h - n
        invariant
            1 <= n <= h,
            h == hay@.len(),
            n == needle@.len(),
            i <= h - n + 1,
            forall|k: int| 0 <= k < i ==> !contains_at(hay@, needle@, k),
        decreases h - n + 1 - i,
    {
        if match_at(hay, needle, i) {
            return true;
        }
        i = i + 1;
    }
    proof {
        assert(forall|k: int| !contains_at(hay@, needle@, k));
    }
    false
}

/// Case-insensitive test that `term` appears anywhere within `name`.
/// An empty term matches every name.
pub fn file_name_matches(term: &str, name: &str) -> (r: bool)
    ensures
        r == name_matches(term@, name@),
        term@.len() == 0 ==> r,
{
    let lt: String = lowercase(term);
    let ln: String = lowercase(name);
    let tv: Vec<char> = chars_of(lt.as_str());
    let nv: Vec<char> = chars_of(ln.as_str());
    let r: bool = find_sub(&nv, &tv);
    proof {
        if term@.len() == 0 {
            assert(lower_of(term@) =~= Seq::<char>::empty());
            lemma_empty_needle_contained(lower_of(name@));
            assert(contains_at(lower_of(name@), lower_of(term@), 0)) by {
                assert(lower_of(name@).subrange(0, 0) =~= lower_of(term@));
            };
        }
    }
    r
}

} // verus!
