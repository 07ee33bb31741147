//! Facts about flattening sequences and about `filter_map`, as the scheduler's
//! proofs need them.

use vstd::prelude::*;

verus! {

/// A flattened sequence holds exactly what its parts hold.
pub proof fn lemma_flatten_contains<A>(parts: Seq<Seq<A>>, a: A)
    ensures
        parts.flatten().contains(a) <==> exists|i: int|
            0 <= i < parts.len() && #[trigger] parts[i].contains(a),
    decreases parts.len(),
{
    if parts.len() == 0 {
        assert(parts.flatten() =~= Seq::<A>::empty());
    } else {
        let init = parts.drop_last();
        let last = parts.last();
        assert(parts =~= init.push(last));
        init.lemma_flatten_push(last);
        lemma_flatten_contains(init, a);
        let whole = init.flatten() + last;
        if whole.contains(a) {
            let t = choose|t: int| 0 <= t < whole.len() && whole[t] == a;
            if t < init.flatten().len() {
                assert(init.flatten()[t] == a);
                let i = choose|i: int| 0 <= i < init.len() && #[trigger] init[i].contains(a);
                assert(parts[i].contains(a));
            } else {
                assert(last[t - init.flatten().len()] == a);
                assert(parts[parts.len() - 1].contains(a));
            }
        }
        if exists|i: int| 0 <= i < parts.len() && #[trigger] parts[i].contains(a) {
            let i = choose|i: int| 0 <= i < parts.len() && #[trigger] parts[i].contains(a);
            if i < init.len() {
                assert(init[i].contains(a));
                let t = choose|t: int| 0 <= t < init.flatten().len() && init.flatten()[t] == a;
                assert(whole[t] == a);
            } else {
                let t = choose|t: int| 0 <= t < last.len() && last[t] == a;
                assert(whole[init.flatten().len() + t] == a);
            }
        }
    }
}

/// Parts that hold no element twice, and no element in common, flatten to a
/// sequence that holds no element twice.
pub proof fn lemma_flatten_no_duplicates<A>(parts: Seq<Seq<A>>)
    requires
        forall|i: int| 0 <= i < parts.len() ==> (#[trigger] parts[i]).no_duplicates(),
        forall|i: int, j: int, a: A|
            0 <= i < j < parts.len() ==> !(#[trigger] parts[i].contains(a)
                && #[trigger] parts[j].contains(a)),
    ensures
        parts.flatten().no_duplicates(),
    decreases parts.len(),
{
    if parts.len() == 0 {
        assert(parts.flatten() =~= Seq::<A>::empty());
    } else {
        let init = parts.drop_last();
        let last = parts.last();
        assert(parts =~= init.push(last));
        init.lemma_flatten_push(last);
        assert forall|i: int| 0 <= i < init.len() implies (#[trigger] init[i]).no_duplicates() by {
            assert(init[i] == parts[i]);
        }
        assert forall|i: int, j: int, a: A| 0 <= i < j < init.len() implies !(
        #[trigger] init[i].contains(a) && #[trigger] init[j].contains(a)) by {
            assert(init[i] == parts[i] && init[j] == parts[j]);
        }
        lemma_flatten_no_duplicates(init);
        let front = init.flatten();
        assert forall|s: int, t: int| 0 <= s < front.len() && 0 <= t < last.len() implies front[s]
            != last[t] by {
            let a = front[s];
            assert(front.contains(a));
            lemma_flatten_contains(init, a);
            let i = choose|i: int| 0 <= i < init.len() && #[trigger] init[i].contains(a);
            assert(parts[i].contains(a));
            if a == last[t] {
                assert(parts[parts.len() - 1].contains(a));
            }
        }
        vstd::seq_lib::lemma_no_dup_in_concat(front, last);
    }
}

/// `filter_map` works through a concatenation part by part.
pub proof fn lemma_filter_map_concat<A, B>(a: Seq<A>, b: Seq<A>, f: spec_fn(A) -> Option<B>)
    ensures
        (a + b).filter_map(f) == a.filter_map(f) + b.filter_map(f),
    decreases b.len(),
{
    if b.len() == 0 {
        assert(a + b =~= a);
        assert(a.filter_map(f) + b.filter_map(f) =~= a.filter_map(f));
    } else {
        assert((a + b).drop_last() =~= a + b.drop_last());
        assert((a + b).last() == b.last());
        lemma_filter_map_concat(a, b.drop_last(), f);
        match f(b.last()) {
            Some(s) => {
                assert((a + b).filter_map(f) =~= a.filter_map(f) + (b.drop_last().filter_map(f)
                    + seq![s]));
            },
            None => {},
        }
    }
}

/// `filter_map` over a flattened sequence is the flattening of `filter_map`
/// over the parts.
pub proof fn lemma_flatten_filter_map<A, B>(parts: Seq<Seq<A>>, f: spec_fn(A) -> Option<B>)
    ensures
        parts.flatten().filter_map(f) == parts.map_values(
            |part: Seq<A>| part.filter_map(f),
        ).flatten(),
    decreases parts.len(),
{
    let through = |part: Seq<A>| part.filter_map(f);
    if parts.len() == 0 {
        assert(parts.flatten() =~= Seq::<A>::empty());
        assert(parts.map_values(through).flatten() =~= Seq::<B>::empty());
    } else {
        let init = parts.drop_last();
        let last = parts.last();
        assert(parts =~= init.push(last));
        init.lemma_flatten_push(last);
        assert(parts.map_values(through) =~= init.map_values(through).push(through(last)));
        init.map_values(through).lemma_flatten_push(through(last));
        lemma_flatten_filter_map(init, f);
        lemma_filter_map_concat(init.flatten(), last, f);
    }
}

/// Two functions that agree on every element of a sequence give the same
/// `filter_map` of it.
pub proof fn lemma_filter_map_congruence<A, B>(
    s: Seq<A>,
    f: spec_fn(A) -> Option<B>,
    g: spec_fn(A) -> Option<B>,
)
    requires
        forall|i: int| 0 <= i < s.len() ==> f(#[trigger] s[i]) == g(s[i]),
    ensures
        s.filter_map(f) == s.filter_map(g),
    decreases s.len(),
{
    if s.len() > 0 {
        assert forall|i: int| 0 <= i < s.drop_last().len() implies f(#[trigger] s.drop_last()[i])
            == g(s.drop_last()[i]) by {
            assert(s.drop_last()[i] == s[i]);
        }
        lemma_filter_map_congruence(s.drop_last(), f, g);
        assert(f(s.last()) == g(s.last())) by {
            assert(s.last() == s[s.len() - 1]);
        }
    }
}

/// What `filter_map` holds: the images of the elements that have one.
pub proof fn lemma_filter_map_contains<A, B>(s: Seq<A>, f: spec_fn(A) -> Option<B>, b: B)
    ensures
        s.filter_map(f).contains(b) <==> exists|i: int|
            0 <= i < s.len() && f(#[trigger] s[i]) == Some(b),
    decreases s.len(),
{
    if s.len() > 0 {
        let init = s.drop_last();
        lemma_filter_map_contains(init, f, b);
        let front = init.filter_map(f);
        if s.filter_map(f).contains(b) {
            let t = choose|t: int| 0 <= t < s.filter_map(f).len() && s.filter_map(f)[t] == b;
            if t < front.len() {
                assert(front[t] == b);
                let i = choose|i: int| 0 <= i < init.len() && f(#[trigger] init[i]) == Some(b);
                assert(f(s[i]) == Some(b));
            } else {
                assert(f(s[s.len() - 1]) == Some(b));
            }
        }
        if exists|i: int| 0 <= i < s.len() && f(#[trigger] s[i]) == Some(b) {
            let i = choose|i: int| 0 <= i < s.len() && f(#[trigger] s[i]) == Some(b);
            if i < init.len() {
                assert(f(init[i]) == Some(b));
                let t = choose|t: int| 0 <= t < front.len() && front[t] == b;
                assert(s.filter_map(f)[t] == b);
            } else {
                assert(s.filter_map(f)[front.len() as int] == b);
            }
        }
    }
}

/// `filter_map` of a sequence without duplicates has none either, where no
/// two elements share an image.
pub proof fn lemma_filter_map_no_duplicates<A, B>(s: Seq<A>, f: spec_fn(A) -> Option<B>)
    requires
        s.no_duplicates(),
        forall|i: int, j: int|
            0 <= i < j < s.len() && f(#[trigger] s[i]) is Some ==> f(s[i]) != f(#[trigger] s[j]),
    ensures
        s.filter_map(f).no_duplicates(),
    decreases s.len(),
{
    if s.len() > 0 {
        let init = s.drop_last();
        assert forall|i: int, j: int|
            0 <= i < j < init.len() && f(#[trigger] init[i]) is Some implies f(init[i]) != f(
            #[trigger] init[j],
        ) by {
            assert(init[i] == s[i] && init[j] == s[j]);
        }
        lemma_filter_map_no_duplicates(init, f);
        match f(s.last()) {
            Some(b) => {
                lemma_filter_map_contains(init, f, b);
                if init.filter_map(f).contains(b) {
                    let i = choose|i: int| 0 <= i < init.len() && f(#[trigger] init[i]) == Some(b);
                    assert(init[i] == s[i]);
                    assert(s.last() == s[s.len() - 1]);
                    assert(false);
                }
                let front = init.filter_map(f);
                assert forall|u: int, v: int|
                    0 <= u < front.len() && 0 <= v < seq![b].len() implies front[u] != seq![b][v] by {
                    assert(front.contains(front[u]));
                }
                vstd::seq_lib::lemma_no_dup_in_concat(front, seq![b]);
            },
            None => {},
        }
    }
}

} // verus!
