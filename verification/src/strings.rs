use vstd::prelude::*;
use vstd::string::{StrSliceExecFns, StringExecFns};

verus! {

/// Character-wise equality of two string slices.
pub fn str_eq(a: &str, b: &str) -> (r: bool)
    ensures
        r == (a@ == b@),
{
    let alen = a.unicode_len();
    let blen = b.unicode_len();
    if alen != blen {
        return false;
    }
    let mut i: usize = 0;
    while i < alen
        invariant
            alen == a@.len(),
            blen == b@.len(),
            alen == blen,
            0 <= i <= alen,
            forall|j: int| 0 <= j < i ==> a@[j] == b@[j],
        decreases alen - i,
    {
        if a.get_char(i) != b.get_char(i) {
            return false;
        }
        i += 1;
    }
    proof {
        assert(a@ =~= b@);
    }
    true
}

/// The position of the first `.` in `s`, or the length when there is none.
pub open spec fn first_dot(s: Seq<char>) -> int
    decreases s.len(),
{
    if s.len() == 0 {
        0
    } else if s[0] == '.' {
        0
    } else {
        1 + first_dot(s.subrange(1, s.len() as int))
    }
}

/// The characters of `s` before its first `.`: the whole of `s` when it
/// has none.
pub open spec fn leading_segment(s: Seq<char>) -> Seq<char> {
    s.take(first_dot(s))
}

/// `first_dot` is the position of the first dot.
pub proof fn lemma_first_dot(s: Seq<char>)
    ensures
        0 <= first_dot(s) <= s.len(),
        first_dot(s) < s.len() ==> s[first_dot(s)] == '.',
        forall|x: int| 0 <= x < first_dot(s) ==> s[x] != '.',
    decreases s.len(),
{
    if s.len() > 0 && s[0] != '.' {
        let t = s.subrange(1, s.len() as int);
        lemma_first_dot(t);
        assert forall|x: int| 0 <= x < first_dot(s) implies s[x] != '.' by {
            if x > 0 {
                assert(t[x - 1] != '.');
            }
        }
    }
}

/// One of the names equals `x`.
pub open spec fn names_contain(names: Seq<Seq<char>>, x: Seq<char>) -> bool {
    exists|i: int| 0 <= i < names.len() && names[i] == x
}

/// Whether one of the strings has exactly the characters of `x`.
pub fn vec_contains_str(names: &Vec<String>, x: &str) -> (r: bool)
    ensures
        r == names_contain(names.deep_view(), x@),
{
    let ghost nv = names.deep_view();
    let mut i: usize = 0;
    while i < names.len()
        invariant
            nv == names.deep_view(),
            nv.len() == names@.len(),
            0 <= i <= names@.len(),
            forall|x2: int| 0 <= x2 < i ==> nv[x2] != x@,
        decreases names@.len() - i,
    {
        proof {
            assert(nv[i as int] == names@[i as int]@);
        }
        if str_eq(names[i].as_str(), x) {
            return true;
        }
        i += 1;
    }
    false
}

/// The leading dot-separated segment of `s`, as a fresh string.
pub fn leading_segment_of(s: &str) -> (r: String)
    ensures
        r@ == leading_segment(s@),
{
    let n = s.unicode_len();
    let mut i: usize = 0;
    while i < n
        invariant
            n == s@.len(),
            0 <= i <= n,
            forall|x: int| 0 <= x < i ==> s@[x] != '.',
        decreases n - i,
    {
        if s.get_char(i) == '.' {
            proof {
                lemma_first_dot(s@);
                assert(first_dot(s@) == i);
            }
            let seg = s.substring_char(0, i);
            return String::from_str(seg);
        }
        i += 1;
    }
    proof {
        lemma_first_dot(s@);
        assert(first_dot(s@) == n);
        assert(s@.take(n as int) =~= s@);
    }
    String::from_str(s)
}

/// Appends an element, extending the sequence of deep views by one.
pub fn push_deep<T: DeepView>(v: &mut Vec<T>, x: T)
    ensures
        final(v).deep_view() =~= old(v).deep_view().push(x.deep_view()),
        final(v)@.len() == old(v)@.len() + 1,
{
    let ghost dv0 = v.deep_view();
    let ghost n0 = v@.len();
    let ghost xv = x.deep_view();
    v.push(x);
    proof {
        assert(v@.len() == n0 + 1);
        assert forall|y: int| 0 <= y < n0 + 1 implies v.deep_view()[y] == dv0.push(xv)[y] by {
            assert(v.deep_view()[y] == v@[y].deep_view());
            if y < n0 {
                assert(v@[y] == old(v)@[y]);
                assert(dv0[y] == old(v)@[y].deep_view());
            }
        }
        assert(v.deep_view() =~= dv0.push(xv));
    }
}

/// The position of the first newline in `s`, or the length when there is
/// none.
pub open spec fn first_nl(s: Seq<char>) -> int
    decreases s.len(),
{
    if s.len() == 0 {
        0
    } else if s[0] == '\n' {
        0
    } else {
        1 + first_nl(s.subrange(1, s.len() as int))
    }
}

/// `first_nl` is the position of the first newline.
pub proof fn lemma_first_nl(s: Seq<char>)
    ensures
        0 <= first_nl(s) <= s.len(),
        first_nl(s) < s.len() ==> s[first_nl(s)] == '\n',
        forall|x: int| 0 <= x < first_nl(s) ==> s[x] != '\n',
    decreases s.len(),
{
    if s.len() > 0 && s[0] != '\n' {
        let t = s.subrange(1, s.len() as int);
        lemma_first_nl(t);
        assert forall|x: int| 0 <= x < first_nl(s) implies s[x] != '\n' by {
            if x > 0 {
                assert(t[x - 1] != '\n');
            }
        }
    }
}

} // verus!
