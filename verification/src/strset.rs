//! Ordered sets of strings kept as strictly ascending vectors (the iteration order of a
//! `BTreeSet<String>`).

use vstd::prelude::*;
use crate::text::{
    seq_less, str_eq, str_less, string_of, lemma_seq_less_total, lemma_seq_less_transitive,
    lemma_seq_less_irreflexive, lemma_seq_less_asymmetric,
};

verus! {

/// The elements of `v`, as texts.
pub open spec fn elems(v: Seq<String>) -> Set<Seq<char>> {
    Set::new(|s: Seq<char>| exists|i: int| 0 <= i < v.len() && (#[trigger] v[i])@ == s)
}

/// `v` is strictly ascending (so it holds no duplicates).
pub open spec fn ascending(v: Seq<String>) -> bool {
    forall|i: int, j: int| 0 <= i < j < v.len() ==> seq_less((#[trigger] v[i])@, (#[trigger] v[j])@)
}

/// The position where `x` is, or would be inserted, in the ascending `v`.
fn position(v: &Vec<String>, x: &str) -> (p: usize)
    requires
        ascending(v@),
    ensures
        p <= v@.len(),
        forall|q: int| 0 <= q < p ==> seq_less((#[trigger] v@[q])@, x@),
        p < v@.len() ==> !seq_less(v@[p as int]@, x@),
{
    let mut p: usize = 0;
    while p < v.len()
        invariant
            p <= v@.len(),
            forall|q: int| 0 <= q < p ==> seq_less((#[trigger] v@[q])@, x@),
        ensures
            p <= v@.len(),
            forall|q: int| 0 <= q < p ==> seq_less((#[trigger] v@[q])@, x@),
            p < v@.len() ==> !seq_less(v@[p as int]@, x@),
        decreases v@.len() - p,
    {
        if !str_less(v[p].as_str(), x) {
            break;
        }
        p = p + 1;
    }
    p
}

proof fn lemma_found_at(v: Seq<String>, x: Seq<char>, p: int)
    requires
        ascending(v),
        0 <= p <= v.len(),
        forall|q: int| 0 <= q < p ==> seq_less((#[trigger] v[q])@, x),
        p < v.len() ==> !seq_less(v[p]@, x),
    ensures
        elems(v).contains(x) <==> (p < v.len() && v[p]@ == x),
        p < v.len() && v[p]@ != x ==> forall|q: int| p <= q < v.len() ==> seq_less(x, (#[trigger] v[q])@),
{
    if p < v.len() && v[p]@ != x {
        lemma_seq_less_total(v[p]@, x);
        assert forall|q: int| p <= q < v.len() implies seq_less(x, (#[trigger] v[q])@) by {
            if q > p {
                lemma_seq_less_transitive(x, v[p]@, v[q]@);
            }
        }
    }
    if elems(v).contains(x) {
        let i = choose|i: int| 0 <= i < v.len() && (#[trigger] v[i])@ == x;
        lemma_seq_less_irreflexive(x);
        if i < p {
        } else if i > p {
            assert(seq_less(v[p]@, v[i]@));
        }
    }
    if p < v.len() && v[p]@ == x {
        assert(elems(v).contains(x));
    }
}

/// Does the ascending `v` hold `x`.
pub fn set_contains(v: &Vec<String>, x: &str) -> (r: bool)
    requires
        ascending(v@),
    ensures
        r == elems(v@).contains(x@),
{
    let p = position(v, x);
    proof {
        lemma_found_at(v@, x@, p as int);
    }
    p < v.len() && str_eq(v[p].as_str(), x)
}

/// Adds `x` to the ascending `v`; reports whether it was absent.
pub fn set_insert(v: &mut Vec<String>, x: &str) -> (added: bool)
    requires
        ascending(old(v)@),
    ensures
        ascending(final(v)@),
        elems(final(v)@) == elems(old(v)@).insert(x@),
        added == !elems(old(v)@).contains(x@),
{
    let p = position(v, x);
    let ghost before = v@;
    proof {
        lemma_found_at(before, x@, p as int);
    }
    if p < v.len() && str_eq(v[p].as_str(), x) {
        proof {
            assert(elems(before).insert(x@) =~= elems(before));
        }
        return false;
    }
    let s = string_of(x);
    v.insert(p, s);
    proof {
        let after = v@;
        assert(after == before.insert(p as int, s));
        assert forall|i: int, j: int| 0 <= i < j < after.len() implies seq_less(
            (#[trigger] after[i])@,
            (#[trigger] after[j])@,
        ) by {
            if j < p {
            } else if i < p && j == p {
            } else if i < p {
                assert(seq_less(before[i]@, x@));
                assert(seq_less(x@, before[j - 1]@));
                lemma_seq_less_transitive(before[i]@, x@, before[j - 1]@);
            } else if i == p {
                assert(seq_less(x@, before[j - 1]@));
            } else {
                assert(seq_less(before[i - 1]@, before[j - 1]@));
            }
        }
        assert forall|t: Seq<char>| elems(after).contains(t) <==> elems(before).insert(x@).contains(t) by {
            if elems(after).contains(t) {
                let i = choose|i: int| 0 <= i < after.len() && (#[trigger] after[i])@ == t;
                if i < p {
                    assert(before[i]@ == t);
                } else if i > p {
                    assert(before[i - 1]@ == t);
                }
            }
            if elems(before).contains(t) {
                let i = choose|i: int| 0 <= i < before.len() && (#[trigger] before[i])@ == t;
                if i < p {
                    assert(after[i]@ == t);
                } else {
                    assert(after[i + 1]@ == t);
                }
            }
            if t == x@ {
                assert(after[p as int]@ == t);
            }
        }
        assert(elems(after) =~= elems(before).insert(x@));
    }
    true
}

/// Removes `x` from the ascending `v`; reports whether it was present.
pub fn set_remove(v: &mut Vec<String>, x: &str) -> (removed: bool)
    requires
        ascending(old(v)@),
    ensures
        ascending(final(v)@),
        elems(final(v)@) == elems(old(v)@).remove(x@),
        removed == elems(old(v)@).contains(x@),
{
    let p = position(v, x);
    let ghost before = v@;
    proof {
        lemma_found_at(before, x@, p as int);
    }
    if !(p < v.len() && str_eq(v[p].as_str(), x)) {
        proof {
            assert(elems(before).remove(x@) =~= elems(before));
        }
        return false;
    }
    v.remove(p);
    proof {
        let after = v@;
        assert(after == before.remove(p as int));
        assert forall|i: int, j: int| 0 <= i < j < after.len() implies seq_less(
            (#[trigger] after[i])@,
            (#[trigger] after[j])@,
        ) by {
            if j < p {
            } else if i < p {
                assert(seq_less(before[i]@, before[j + 1]@));
            } else {
                assert(seq_less(before[i + 1]@, before[j + 1]@));
            }
        }
        assert forall|t: Seq<char>| elems(after).contains(t) <==> elems(before).remove(x@).contains(t) by {
            if elems(after).contains(t) {
                let i = choose|i: int| 0 <= i < after.len() && (#[trigger] after[i])@ == t;
                lemma_seq_less_irreflexive(t);
                if i < p {
                    assert(before[i]@ == t);
                    assert(seq_less(before[i]@, before[p as int]@));
                } else {
                    assert(before[i + 1]@ == t);
                    assert(seq_less(before[p as int]@, before[i + 1]@));
                }
            }
            if elems(before).contains(t) && t != x@ {
                let i = choose|i: int| 0 <= i < before.len() && (#[trigger] before[i])@ == t;
                if i < p {
                    assert(after[i]@ == t);
                } else {
                    assert(i != p);
                    assert(after[i - 1]@ == t);
                }
            }
        }
        assert(elems(after) =~= elems(before).remove(x@));
    }
    true
}

/// A copy of the ascending `v`.
pub fn copy_strings(v: &Vec<String>) -> (r: Vec<String>)
    ensures
        r@ == v@,
{
    let mut r: Vec<String> = Vec::new();
    let mut i: usize = 0;
    while i < v.len()
        invariant
            i <= v@.len(),
            r@ == v@.take(i as int),
        decreases v@.len() - i,
    {
        r.push(v[i].clone());
        assert(v@.take(i + 1) == v@.take(i as int).push(v@[i as int]));
        i = i + 1;
    }
    assert(v@.take(v@.len() as int) == v@);
    r
}

/// The distinct elements of `items`, ascending.
pub fn ascending_set_of(items: &Vec<String>) -> (r: Vec<String>)
    ensures
        ascending(r@),
        elems(r@) == elems(items@),
{
    let mut r: Vec<String> = Vec::new();
    let mut i: usize = 0;
    proof {
        assert(elems(r@) =~= elems(items@.take(0)));
    }
    while i < items.len()
        invariant
            i <= items@.len(),
            ascending(r@),
            elems(r@) == elems(items@.take(i as int)),
        decreases items@.len() - i,
    {
        set_insert(&mut r, items[i].as_str());
        proof {
            let t0 = items@.take(i as int);
            let t1 = items@.take(i + 1);
            assert forall|t: Seq<char>| elems(t1).contains(t) <==> elems(t0).insert(items@[i as int]@).contains(t) by {
                if elems(t1).contains(t) {
                    let k = choose|k: int| 0 <= k < t1.len() && (#[trigger] t1[k])@ == t;
                    if k < i {
                        assert(t0[k]@ == t);
                    }
                }
                if elems(t0).contains(t) {
                    let k = choose|k: int| 0 <= k < t0.len() && (#[trigger] t0[k])@ == t;
                    assert(t1[k]@ == t);
                }
                if t == items@[i as int]@ {
                    assert(t1[i as int]@ == t);
                }
            }
            assert(elems(t1) =~= elems(t0).insert(items@[i as int]@));
        }
        i = i + 1;
    }
    assert(items@.take(items@.len() as int) =~= items@);
    r
}

/// Two strictly ascending lists with the same elements hold the same texts in the same
/// order.
pub proof fn lemma_ascending_canonical(a: Seq<String>, b: Seq<String>)
    requires
        ascending(a),
        ascending(b),
        elems(a) == elems(b),
    ensures
        a.len() == b.len(),
        forall|i: int| 0 <= i < a.len() ==> (#[trigger] a[i])@ == b[i]@,
    decreases a.len() + b.len(),
{
    if a.len() == 0 {
        if b.len() > 0 {
            assert(elems(b).contains(b[0]@));
        }
    } else if b.len() == 0 {
        assert(elems(a).contains(a[0]@));
    } else {
        assert(elems(a).contains(a[0]@));
        assert(elems(b).contains(b[0]@));
        let k = choose|k: int| 0 <= k < a.len() && (#[trigger] a[k])@ == b[0]@;
        let m = choose|m: int| 0 <= m < b.len() && (#[trigger] b[m])@ == a[0]@;
        if k > 0 && m > 0 {
            assert(seq_less(a[0]@, a[k]@));
            assert(seq_less(b[0]@, b[m]@));
            lemma_seq_less_asymmetric(a[0]@, b[0]@);
        }
        assert(a[0]@ == b[0]@) by {
            if k == 0 {
            } else {
                assert(m == 0) by {
                    if m > 0 {
                        assert(seq_less(a[0]@, a[k]@));
                        assert(seq_less(b[0]@, b[m]@));
                        lemma_seq_less_asymmetric(a[0]@, b[0]@);
                    }
                }
            }
        }
        let ta = a.drop_first();
        let tb = b.drop_first();
        assert(ascending(ta)) by {
            assert forall|i: int, j: int| 0 <= i < j < ta.len() implies seq_less((#[trigger] ta[i])@, (#[trigger] ta[j])@) by {
                assert(ta[i] == a[i + 1] && ta[j] == a[j + 1]);
            }
        }
        assert(ascending(tb)) by {
            assert forall|i: int, j: int| 0 <= i < j < tb.len() implies seq_less((#[trigger] tb[i])@, (#[trigger] tb[j])@) by {
                assert(tb[i] == b[i + 1] && tb[j] == b[j + 1]);
            }
        }
        assert(elems(ta) =~= elems(tb)) by {
            assert forall|x: Seq<char>| elems(ta).contains(x) implies elems(tb).contains(x) by {
                let i = choose|i: int| 0 <= i < ta.len() && (#[trigger] ta[i])@ == x;
                assert(ta[i] == a[i + 1]);
                assert(elems(a).contains(x));
                assert(elems(b).contains(x));
                let j = choose|j: int| 0 <= j < b.len() && (#[trigger] b[j])@ == x;
                if j == 0 {
                    assert(seq_less(a[0]@, a[i + 1]@));
                    lemma_seq_less_irreflexive(x);
                }
                assert(tb[j - 1] == b[j]);
            }
            assert forall|x: Seq<char>| elems(tb).contains(x) implies elems(ta).contains(x) by {
                let i = choose|i: int| 0 <= i < tb.len() && (#[trigger] tb[i])@ == x;
                assert(tb[i] == b[i + 1]);
                assert(elems(b).contains(x));
                assert(elems(a).contains(x));
                let j = choose|j: int| 0 <= j < a.len() && (#[trigger] a[j])@ == x;
                if j == 0 {
                    assert(seq_less(b[0]@, b[i + 1]@));
                    lemma_seq_less_irreflexive(x);
                }
                assert(ta[j - 1] == a[j]);
            }
        }
        lemma_ascending_canonical(ta, tb);
        assert forall|i: int| 0 <= i < a.len() implies (#[trigger] a[i])@ == b[i]@ by {
            if i > 0 {
                assert(ta[i - 1] == a[i] && tb[i - 1] == b[i]);
            }
        }
    }
}

} // verus!
