//! Facts about filtering sequences.
use vstd::prelude::*;

verus! {

pub proof fn lemma_filter_step<A>(s: Seq<A>, f: spec_fn(A) -> bool, j: int)
    requires
        0 <= j < s.len(),
    ensures
        s.take(j + 1).filter(f) == if f(s[j]) {
            s.take(j).filter(f).push(s[j])
        } else {
            s.take(j).filter(f)
        },
{
    reveal(Seq::filter);
    assert(s.take(j + 1).drop_last() =~= s.take(j));
}

pub proof fn lemma_filter_contains<A>(s: Seq<A>, f: spec_fn(A) -> bool, x: A)
    ensures
        s.filter(f).contains(x) <==> s.contains(x) && f(x),
{
    if s.filter(f).contains(x) {
        s.lemma_filter_contains_rev(f, x);
        let k = choose|k: int| 0 <= k < s.filter(f).len() && s.filter(f)[k] == x;
        s.lemma_filter_pred(f, k);
    }
    if s.contains(x) && f(x) {
        let i = choose|i: int| 0 <= i < s.len() && s[i] == x;
        s.lemma_filter_contains(f, i);
    }
}

pub proof fn lemma_filter_distinct<A, B>(s: Seq<A>, f: spec_fn(A) -> bool, g: spec_fn(A) -> B)
    requires
        forall|i: int, j: int| 0 <= i < s.len() && 0 <= j < s.len() && i != j ==> g(s[i]) != g(s[j]),
    ensures
        ({
            let t = s.filter(f);
            forall|i: int, j: int| 0 <= i < t.len() && 0 <= j < t.len() && i != j ==> g(t[i]) != g(t[j])
        }),
    decreases s.len(),
{
    reveal(Seq::filter);
    if s.len() > 0 {
        let d = s.drop_last();
        lemma_filter_distinct(d, f, g);
        let t = d.filter(f);
        if f(s.last()) {
            assert forall|i: int| 0 <= i < t.len() implies g(t[i]) != g(s.last()) by {
                lemma_filter_contains(d, f, t[i]);
                assert(t.contains(t[i]));
                let k = choose|k: int| 0 <= k < d.len() && d[k] == t[i];
                assert(s[k] == t[i]);
            }
            let u = t.push(s.last());
            assert forall|i: int, j: int| 0 <= i < u.len() && 0 <= j < u.len() && i != j
                implies g(u[i]) != g(u[j]) by {
                if i < t.len() && j < t.len() {
                } else if i < t.len() {
                    assert(u[j] == s.last());
                } else {
                    assert(u[i] == s.last());
                }
            }
        }
    }
}

pub proof fn lemma_filter_all<A>(s: Seq<A>, f: spec_fn(A) -> bool)
    requires
        forall|j: int| 0 <= j < s.len() ==> f(s[j]),
    ensures
        s.filter(f) == s,
    decreases s.len(),
{
    reveal(Seq::filter);
    if s.len() > 0 {
        lemma_filter_all(s.drop_last(), f);
        assert(s.drop_last().push(s.last()) =~= s);
    }
}

} // verus!
