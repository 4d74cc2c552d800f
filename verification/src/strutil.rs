//! Small verified helpers on character sequences, and the one trusted
//! wrapper this crate needs to build a `String` character by character.

use vstd::prelude::*;
use vstd::string::*;

verus! {

/// Relies on std's String::push: appends the given character to the end
/// of the string.
#[verifier::external_body]
pub(crate) fn push_char(s: &mut String, c: char)
    ensures
        final(s)@ == old(s)@.push(c),
{
    s.push(c);
}

/// The characters of `s`, as a vector.
pub(crate) fn chars_vec(s: &str) -> (r: Vec<char>)
    ensures
        r@ == s@,
{
    let n = s.unicode_len();
    let mut r: Vec<char> = Vec::new();
    let mut i: usize = 0;
    while i < n
        invariant
            n == s@.len(),
            i <= n,
            r@ == s@.subrange(0, i as int),
        decreases n - i,
    {
        let c = s.get_char(i);
        r.push(c);
        i = i + 1;
        proof {
            assert(r@ =~= s@.subrange(0, i as int));
        }
    }
    proof {
        assert(r@ =~= s@);
    }
    r
}

/// A `String` holding exactly the characters of `v`.
pub(crate) fn chars_to_string(v: &Vec<char>) -> (r: String)
    ensures
        r@ == v@,
{
    let mut r = String::new();
    let mut i: usize = 0;
    while i < v.len()
        invariant
            i <= v@.len(),
            r@ == v@.subrange(0, i as int),
        decreases v@.len() - i,
    {
        push_char(&mut r, v[i]);
        i = i + 1;
        proof {
            assert(r@ =~= v@.subrange(0, i as int));
        }
    }
    proof {
        assert(r@ =~= v@);
    }
    r
}

/// Appends every character of `src` to `dst`.
pub(crate) fn extend_chars(dst: &mut Vec<char>, src: &Vec<char>)
    ensures
        final(dst)@ == old(dst)@ + src@,
{
    let mut i: usize = 0;
    while i < src.len()
        invariant
            i <= src@.len(),
            dst@ == old(dst)@ + src@.subrange(0, i as int),
        decreases src@.len() - i,
    {
        dst.push(src[i]);
        i = i + 1;
        proof {
            assert(dst@ =~= old(dst)@ + src@.subrange(0, i as int));
        }
    }
    proof {
        assert(dst@ =~= old(dst)@ + src@);
    }
}

/// A sequence of characters with no newline.
pub open spec fn no_nl(s: Seq<char>) -> bool {
    forall|k: int| 0 <= k < s.len() ==> s[k] != '\n'
}

/// `p` is an initial segment of `s`.
pub open spec fn has_prefix(s: Seq<char>, p: Seq<char>) -> bool {
    p.len() <= s.len() && s.subrange(0, p.len() as int) == p
}

/// Whether the characters of `v`, from position `from` on, start with the
/// characters of `p`.
pub(crate) fn vec_has_prefix_at(v: &Vec<char>, from: usize, p: &str) -> (r: bool)
    requires
        from <= v@.len(),
    ensures
        r == has_prefix(v@.skip(from as int), p@),
{
    let pn = p.unicode_len();
    let vn = v.len();
    if vn - from < pn {
        return false;
    }
    let mut i: usize = 0;
    while i < pn
        invariant
            pn == p@.len(),
            vn == v@.len(),
            from + pn <= vn,
            i <= pn,
            v@.subrange(from as int, from + i) == p@.subrange(0, i as int),
        decreases pn - i,
    {
        if v[from + i] != p.get_char(i) {
            proof {
                assert(v@.skip(from as int)[i as int] == v@[from + i]);
                assert(!has_prefix(v@.skip(from as int), p@)) by {
                    if has_prefix(v@.skip(from as int), p@) {
                        assert(v@.skip(from as int).subrange(0, p@.len() as int)[i as int]
                            == p@[i as int]);
                    }
                }
            }
            return false;
        }
        i = i + 1;
        proof {
            assert(v@.subrange(from as int, from + i) =~= p@.subrange(0, i as int));
        }
    }
    proof {
        assert(v@.skip(from as int).subrange(0, pn as int) =~= v@.subrange(
            from as int,
            from + pn,
        ));
        assert(p@.subrange(0, pn as int) =~= p@);
    }
    true
}

/// Whether `s` starts with `p`.
pub(crate) fn str_has_prefix(s: &str, p: &str) -> (r: bool)
    ensures
        r == has_prefix(s@, p@),
{
    let v = chars_vec(s);
    proof {
        assert(v@.skip(0) =~= s@);
    }
    vec_has_prefix_at(&v, 0, p)
}

/// Position of the last occurrence of `c` in `v[from..upto]`, if any.
pub(crate) fn rfind_char_range(v: &Vec<char>, from: usize, upto: usize, c: char) -> (r: Option<
    usize,
>)
    requires
        from <= upto <= v@.len(),
    ensures
        match r {
            Some(k) => from <= k < upto && v@[k as int] == c && (forall|t: int|
                k < t < upto ==> v@[t] != c),
            None => forall|t: int| from <= t < upto ==> v@[t] != c,
        },
{
    let mut i: usize = upto;
    while i > from
        invariant
            from <= i <= upto <= v@.len(),
            forall|t: int| i <= t < upto ==> v@[t] != c,
        decreases i,
    {
        if v[i - 1] == c {
            return Some(i - 1);
        }
        i = i - 1;
    }
    None
}

/// Position of the first occurrence of `c` in `v[from..]`, if any.
pub(crate) fn find_char_from(v: &Vec<char>, from: usize, c: char) -> (r: Option<usize>)
    requires
        from <= v@.len(),
    ensures
        match r {
            Some(k) => from <= k < v@.len() && v@[k as int] == c && (forall|t: int|
                from <= t < k ==> v@[t] != c),
            None => forall|t: int| from <= t < v@.len() ==> v@[t] != c,
        },
{
    let n = v.len();
    let mut i: usize = from;
    while i < n
        invariant
            from <= i <= n,
            n == v@.len(),
            forall|t: int| from <= t < i ==> v@[t] != c,
        decreases n - i,
    {
        if v[i] == c {
            return Some(i);
        }
        i = i + 1;
    }
    None
}

/// Index of the first element of `s` satisfying `p`, or `-1`.
pub open spec fn find_idx<T>(s: Seq<T>, p: spec_fn(T) -> bool) -> int
    decreases s.len(),
{
    if s.len() == 0 {
        -1
    } else if p(s[0]) {
        0
    } else {
        let r = find_idx(s.drop_first(), p);
        if r == -1 {
            -1
        } else {
            r + 1
        }
    }
}

/// What `find_idx` returns: the least index whose element satisfies `p`,
/// or `-1` when none does.
pub proof fn lemma_find_idx<T>(s: Seq<T>, p: spec_fn(T) -> bool)
    ensures
        find_idx(s, p) == -1 ==> forall|k: int| 0 <= k < s.len() ==> !p(s[k]),
        find_idx(s, p) != -1 ==> {
            &&& 0 <= find_idx(s, p) < s.len()
            &&& p(s[find_idx(s, p)])
            &&& forall|k: int| 0 <= k < find_idx(s, p) ==> !p(s[k])
        },
    decreases s.len(),
{
    if s.len() > 0 && !p(s[0]) {
        lemma_find_idx(s.drop_first(), p);
        let r = find_idx(s.drop_first(), p);
        if r == -1 {
            assert forall|k: int| 0 <= k < s.len() implies !p(s[k]) by {
                if k > 0 {
                    assert(s.drop_first()[k - 1] == s[k]);
                    assert(!p(s.drop_first()[k - 1]));
                }
            }
        } else {
            assert(s.drop_first()[r] == s[r + 1]);
            assert forall|k: int| 0 <= k < r + 1 implies !p(s[k]) by {
                if k > 0 {
                    assert(s.drop_first()[k - 1] == s[k]);
                    assert(!p(s.drop_first()[k - 1]));
                }
            }
        }
    }
}

/// `find_idx` of a known first hit.
pub proof fn lemma_find_idx_is<T>(s: Seq<T>, p: spec_fn(T) -> bool, i: int)
    requires
        0 <= i < s.len(),
        p(s[i]),
        forall|k: int| 0 <= k < i ==> !p(s[k]),
    ensures
        find_idx(s, p) == i,
{
    lemma_find_idx(s, p);
    if find_idx(s, p) == -1 {
        assert(!p(s[i]));
    } else if find_idx(s, p) < i {
        assert(!p(s[find_idx(s, p)]));
    } else if find_idx(s, p) > i {
        assert(!p(s[i]));
    }
}

/// Index of the last element of `s` satisfying `p`, or `-1`.
pub open spec fn rfind_idx<T>(s: Seq<T>, p: spec_fn(T) -> bool) -> int
    decreases s.len(),
{
    if s.len() == 0 {
        -1
    } else if p(s.last()) {
        s.len() - 1
    } else {
        rfind_idx(s.drop_last(), p)
    }
}

/// What `rfind_idx` returns: the greatest index whose element satisfies
/// `p`, or `-1` when none does.
pub proof fn lemma_rfind_idx<T>(s: Seq<T>, p: spec_fn(T) -> bool)
    ensures
        rfind_idx(s, p) == -1 ==> forall|k: int| 0 <= k < s.len() ==> !p(s[k]),
        rfind_idx(s, p) != -1 ==> {
            &&& 0 <= rfind_idx(s, p) < s.len()
            &&& p(s[rfind_idx(s, p)])
            &&& forall|k: int| rfind_idx(s, p) < k < s.len() ==> !p(s[k])
        },
    decreases s.len(),
{
    if s.len() > 0 && !p(s.last()) {
        lemma_rfind_idx(s.drop_last(), p);
        assert(forall|k: int| 0 <= k < s.len() - 1 ==> s.drop_last()[k] == s[k]);
    }
}

/// `rfind_idx` of a known last hit.
pub proof fn lemma_rfind_idx_is<T>(s: Seq<T>, p: spec_fn(T) -> bool, i: int)
    requires
        0 <= i < s.len(),
        p(s[i]),
        forall|k: int| i < k < s.len() ==> !p(s[k]),
    ensures
        rfind_idx(s, p) == i,
{
    lemma_rfind_idx(s, p);
    if rfind_idx(s, p) == -1 {
        assert(!p(s[i]));
    } else if rfind_idx(s, p) < i {
        assert(!p(s[i]));
    } else if rfind_idx(s, p) > i {
        assert(!p(s[rfind_idx(s, p)]));
    }
}

/// `rfind_idx` when no element satisfies `p`.
pub proof fn lemma_rfind_idx_none<T>(s: Seq<T>, p: spec_fn(T) -> bool)
    requires
        forall|k: int| 0 <= k < s.len() ==> !p(s[k]),
    ensures
        rfind_idx(s, p) == -1,
{
    lemma_rfind_idx(s, p);
    if rfind_idx(s, p) != -1 {
        assert(!p(s[rfind_idx(s, p)]));
    }
}

/// Whether `a` and `b` hold the same characters.
pub(crate) fn str_eq(a: &str, b: &str) -> (r: bool)
    ensures
        r == (a@ == b@),
{
    let n = a.unicode_len();
    let m = b.unicode_len();
    if n != m {
        return false;
    }
    let mut i: usize = 0;
    while i < n
        invariant
            i <= n,
            n == a@.len(),
            n == b@.len(),
            forall|k: int| 0 <= k < i ==> a@[k] == b@[k],
        decreases n - i,
    {
        if a.get_char(i) != b.get_char(i) {
            return false;
        }
        i = i + 1;
    }
    proof {
        assert(a@ =~= b@);
    }
    true
}

/// Filtering keeps everything when the predicate holds of each element.
pub proof fn lemma_filter_all_true<T>(s: Seq<T>, p: spec_fn(T) -> bool)
    requires
        forall|k: int| 0 <= k < s.len() ==> p(#[trigger] s[k]),
    ensures
        s.filter(p) == s,
    decreases s.len(),
{
    reveal(Seq::filter);
    if s.len() > 0 {
        lemma_filter_all_true(s.drop_last(), p);
        assert(s.drop_last().push(s.last()) =~= s);
    }
}

/// Filtering drops everything when the predicate holds of no element.
pub proof fn lemma_filter_none<T>(s: Seq<T>, p: spec_fn(T) -> bool)
    requires
        forall|k: int| 0 <= k < s.len() ==> !p(#[trigger] s[k]),
    ensures
        s.filter(p) == Seq::<T>::empty(),
    decreases s.len(),
{
    reveal(Seq::filter);
    if s.len() > 0 {
        lemma_filter_none(s.drop_last(), p);
    } else {
        assert(s.filter(p) =~= Seq::<T>::empty());
    }
}

/// Filters with pointwise-equal predicates agree.
pub proof fn lemma_filter_congruence<T>(s: Seq<T>, p: spec_fn(T) -> bool, q: spec_fn(T) -> bool)
    requires
        forall|x: T| #[trigger] p(x) == #[trigger] q(x),
    ensures
        s.filter(p) == s.filter(q),
    decreases s.len(),
{
    reveal(Seq::filter);
    if s.len() > 0 {
        lemma_filter_congruence(s.drop_last(), p, q);
    }
}

/// `find_idx` when no element satisfies `p`.
pub proof fn lemma_find_idx_none<T>(s: Seq<T>, p: spec_fn(T) -> bool)
    requires
        forall|k: int| 0 <= k < s.len() ==> !p(s[k]),
    ensures
        find_idx(s, p) == -1,
{
    lemma_find_idx(s, p);
    if find_idx(s, p) != -1 {
        assert(!p(s[find_idx(s, p)]));
    }
}

} // verus!
