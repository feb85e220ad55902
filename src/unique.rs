//! Reduction of a sequence of class names to the first occurrence of each.

use crate::tree::strings_view;
use vstd::prelude::*;

verus! {

/// The values of `s` that remain when every repeat is removed: the first
/// occurrence of each distinct value, in the order of those occurrences.
pub open spec fn first_occurrences<A>(s: Seq<A>) -> Seq<A>
    decreases s.len(),
{
    if s.len() == 0 {
        Seq::empty()
    } else {
        let r = first_occurrences(s.drop_last());
        if r.contains(s.last()) {
            r
        } else {
            r.push(s.last())
        }
    }
}

/// Whether `x` equals an item of `v`, by exact string equality.
fn contains_string(v: &Vec<String>, x: &String) -> (r: bool)
    ensures
        r == strings_view(v@).contains(x@),
{
    let mut i: usize = 0;
    while i < v.len()
        invariant
            i <= v.len(),
            forall|k: int| 0 <= k < i ==> v@[k]@ != x@,
        decreases v.len() - i,
    {
        if v[i] == *x {
            assert(strings_view(v@)[i as int] == x@);
            return true;
        }
        i += 1;
    }
    false
}

/// The first occurrence of each distinct string of `vec`, in order.
pub fn unique(vec: Vec<String>) -> (r: Vec<String>)
    ensures
        strings_view(r@) == first_occurrences(strings_view(vec@)),
{
    let ghost s = strings_view(vec@);
    let mut unique_vec: Vec<String> = Vec::new();
    let mut i: usize = 0;
    assert(strings_view(unique_vec@) =~= first_occurrences(s.take(0)));
    while i < vec.len()
        invariant
            i <= vec.len(),
            s == strings_view(vec@),
            strings_view(unique_vec@) == first_occurrences(s.take(i as int)),
        decreases vec.len() - i,
    {
        assert(s.take(i + 1).drop_last() =~= s.take(i as int));
        assert(s.take(i + 1).last() == vec@[i as int]@);
        if !contains_string(&unique_vec, &vec[i]) {
            let ghost before = unique_vec@;
            unique_vec.push(vec[i].clone());
            assert(strings_view(unique_vec@) =~= strings_view(before).push(vec@[i as int]@));
        }
        i += 1;
    }
    assert(s.take(vec.len() as int) =~= s);
    unique_vec
}

/// Everything that the first occurrences hold stands in the sequence, and
/// the other way round; and no value stands among them twice.
pub proof fn lemma_first_occurrences_members<A>(s: Seq<A>)
    ensures
        first_occurrences(s).no_duplicates(),
        forall|x: A| first_occurrences(s).contains(x) <==> s.contains(x),
    decreases s.len(),
{
    if s.len() > 0 {
        let t = s.drop_last();
        lemma_first_occurrences_members(t);
        assert forall|x: A| s.contains(x) <==> (t.contains(x) || x == s.last()) by {
            if s.contains(x) {
                let k = choose|k: int| 0 <= k < s.len() && s[k] == x;
                if k < s.len() - 1 {
                    assert(t[k] == x);
                }
            }
            if t.contains(x) {
                let k = choose|k: int| 0 <= k < t.len() && t[k] == x;
                assert(s[k] == x);
            }
            if x == s.last() {
                assert(s[s.len() - 1] == x);
            }
        }
        let r = first_occurrences(t);
        if !r.contains(s.last()) {
            assert forall|x: A| r.push(s.last()).contains(x) <==> (r.contains(x) || x == s.last()) by {
                if r.push(s.last()).contains(x) {
                    let k = choose|k: int| 0 <= k < r.len() + 1 && r.push(s.last())[k] == x;
                    if k < r.len() {
                        assert(r[k] == x);
                    }
                }
                if r.contains(x) {
                    let k = choose|k: int| 0 <= k < r.len() && r[k] == x;
                    assert(r.push(s.last())[k] == x);
                }
                if x == s.last() {
                    assert(r.push(s.last())[r.len() as int] == x);
                }
            }
        }
    }
}

/// The first occurrences of a prefix of `s` are a prefix of the first
/// occurrences of `s`.
pub proof fn lemma_first_occurrences_prefix<A>(s: Seq<A>, k: int)
    requires
        0 <= k <= s.len(),
    ensures
        first_occurrences(s.take(k)).len() <= first_occurrences(s).len(),
        first_occurrences(s).take(first_occurrences(s.take(k)).len() as int) == first_occurrences(
            s.take(k),
        ),
    decreases s.len(),
{
    let p = first_occurrences(s.take(k));
    let r = first_occurrences(s);
    if k == s.len() {
        assert(s.take(k) =~= s);
        assert(r.take(r.len() as int) =~= r);
    } else {
        let t = s.drop_last();
        assert(t.take(k) =~= s.take(k));
        lemma_first_occurrences_prefix(t, k);
        let q = first_occurrences(t);
        assert(q.take(p.len() as int) == p);
        if !q.contains(s.last()) {
            assert(r =~= q.push(s.last()));
            assert(r.take(p.len() as int) =~= q.take(p.len() as int));
        }
    }
}

/// Order is kept: where the value at `i` occurs for the first time there,
/// the value at `j` likewise, and `i < j`, the first comes before the second
/// among the first occurrences.
pub proof fn lemma_first_occurrences_order<A>(s: Seq<A>, i: int, j: int)
    requires
        0 <= i < j < s.len(),
        !s.take(i).contains(s[i]),
        !s.take(j).contains(s[j]),
    ensures
        exists|a: int, b: int|
            0 <= a < b < first_occurrences(s).len() && first_occurrences(s)[a] == s[i]
                && first_occurrences(s)[b] == s[j],
{
    let r = first_occurrences(s);
    let p = first_occurrences(s.take(j));
    lemma_first_occurrences_prefix(s, j);
    lemma_first_occurrences_members(s);
    lemma_first_occurrences_members(s.take(j));
    assert(s.take(j)[i] == s[i]);
    assert(s.take(j).contains(s[i]));
    assert(p.contains(s[i]));
    let a = choose|a: int| 0 <= a < p.len() && p[a] == s[i];
    assert(r[a] == p[a]);
    assert(s.contains(s[j]));
    assert(r.contains(s[j]));
    let b = choose|b: int| 0 <= b < r.len() && r[b] == s[j];
    if b < p.len() {
        assert(r[b] == p[b]);
        assert(p.contains(s[j]));
    }
    assert(0 <= a < b < r.len() && r[a] == s[i] && r[b] == s[j]);
}

/// A sequence without repeats is its own first occurrences.
pub proof fn lemma_first_occurrences_of_distinct<A>(s: Seq<A>)
    requires
        s.no_duplicates(),
    ensures
        first_occurrences(s) == s,
    decreases s.len(),
{
    if s.len() > 0 {
        let t = s.drop_last();
        assert(t.no_duplicates());
        lemma_first_occurrences_of_distinct(t);
        if t.contains(s.last()) {
            let k = choose|k: int| 0 <= k < t.len() && t[k] == s.last();
            assert(s[k] == s[s.len() - 1]);
        }
        assert(t.push(s.last()) =~= s);
    }
}

} // verus!
