//! What filtering a list keeps, for the proofs of the other modules.
use vstd::prelude::*;

verus! {

/// What a filter keeps stood there before and is wanted, and nothing that is wanted goes missing.
pub proof fn lemma_filter_keeps<A>(s: Seq<A>, keep: spec_fn(A) -> bool, a: A)
    ensures
        s.filter(keep).contains(a) <==> s.contains(a) && keep(a),
    decreases s.len(),
{
    reveal(Seq::filter);
    if s.len() > 0 {
        let (front, last) = (s.drop_last(), s.last());
        lemma_filter_keeps(front, keep, a);
        let (f, g) = (front.filter(keep), s.filter(keep));
        assert(s == front.push(last));
        lemma_push_contains(front, last, a);
        if keep(last) {
            assert(g == f.push(last));
            lemma_push_contains(f, last, a);
        }
    }
}

/// One more member adds itself.
pub proof fn lemma_push_contains<A>(s: Seq<A>, last: A, a: A)
    ensures
        s.push(last).contains(a) <==> s.contains(a) || a == last,
{
    let longer = s.push(last);
    if s.contains(a) {
        let i = choose|i: int| 0 <= i < s.len() && s[i] == a;
        assert(longer[i] == a);
    }
    assert(longer[s.len() as int] == last);
    if longer.contains(a) && a != last {
        let i = choose|i: int| 0 <= i < longer.len() && longer[i] == a;
        assert(s[i] == a);
    }
}

/// A filter that every member passes changes nothing.
pub proof fn lemma_filter_all<A>(s: Seq<A>, keep: spec_fn(A) -> bool)
    requires
        forall|i: int| 0 <= i < s.len() ==> keep(#[trigger] s[i]),
    ensures
        s.filter(keep) == s,
    decreases s.len(),
{
    reveal(Seq::filter);
    if s.len() > 0 {
        let front = s.drop_last();
        assert forall|i: int| 0 <= i < front.len() implies keep(#[trigger] front[i]) by {
            assert(front[i] == s[i]);
        }
        lemma_filter_all(front, keep);
        assert(keep(s[s.len() - 1]));
        assert(front.push(s.last()) =~= s);
    }
}

/// One more member is kept if it is wanted.
pub proof fn lemma_filter_push<A>(s: Seq<A>, last: A, keep: spec_fn(A) -> bool)
    ensures
        s.push(last).filter(keep) == if keep(last) {
            s.filter(keep).push(last)
        } else {
            s.filter(keep)
        },
{
    reveal(Seq::filter);
    assert(s.push(last).drop_last() =~= s);
}

} // verus!
