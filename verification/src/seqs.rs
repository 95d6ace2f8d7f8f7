//! Sequence facts used by several views: the first position where something
//! holds, and flattening a sequence of runs.
use vstd::prelude::*;

verus! {

/// The first position of `s` whose element satisfies `p`.
pub open spec fn first_where<T>(s: Seq<T>, p: spec_fn(T) -> bool) -> Option<int>
    decreases s.len(),
{
    if s.len() == 0 {
        None
    } else if p(s[0]) {
        Some(0)
    } else {
        match first_where(s.drop_first(), p) {
            Some(i) => Some(i + 1),
            None => None,
        }
    }
}

/// The first position of `x` in `s`.
pub open spec fn first_index<T>(s: Seq<T>, x: T) -> Option<int> {
    first_where(s, |y: T| y == x)
}

/// A position that satisfies `p` with nothing before it that does is the
/// first position.
pub proof fn lemma_first_where_found<T>(s: Seq<T>, p: spec_fn(T) -> bool, i: int)
    requires
        0 <= i < s.len(),
        p(s[i]),
        forall|j: int| 0 <= j < i ==> !p(#[trigger] s[j]),
    ensures
        first_where(s, p) == Some(i),
    decreases i,
{
    if i > 0 {
        assert(!p(s[0]));
        let t = s.drop_first();
        assert forall|j: int| 0 <= j < i - 1 implies !p(#[trigger] t[j]) by {
            assert(t[j] == s[j + 1]);
        }
        lemma_first_where_found(t, p, i - 1);
    }
}

/// With no position satisfying `p`, there is no first one.
pub proof fn lemma_first_where_absent<T>(s: Seq<T>, p: spec_fn(T) -> bool)
    requires
        forall|j: int| 0 <= j < s.len() ==> !p(#[trigger] s[j]),
    ensures
        first_where(s, p) is None,
    decreases s.len(),
{
    if s.len() > 0 {
        assert(!p(s[0]));
        let t = s.drop_first();
        assert forall|j: int| 0 <= j < t.len() implies !p(#[trigger] t[j]) by {
            assert(t[j] == s[j + 1]);
        }
        lemma_first_where_absent(t, p);
    }
}

/// What the first position says: it satisfies `p` and nothing before it does;
/// with no position, nothing does.
pub proof fn lemma_first_where_meaning<T>(s: Seq<T>, p: spec_fn(T) -> bool)
    ensures
        first_where(s, p) matches Some(i) ==> 0 <= i < s.len() && p(s[i]) && forall|j: int|
            0 <= j < i ==> !p(#[trigger] s[j]),
        first_where(s, p) is None ==> forall|j: int| 0 <= j < s.len() ==> !p(#[trigger] s[j]),
    decreases s.len(),
{
    if s.len() > 0 {
        let t = s.drop_first();
        lemma_first_where_meaning(t, p);
        if !p(s[0]) {
            match first_where(t, p) {
                Some(i) => {
                    assert forall|j: int| 0 <= j < i + 1 implies !p(#[trigger] s[j]) by {
                        if j > 0 {
                            assert(s[j] == t[j - 1]);
                        }
                    }
                },
                None => {
                    assert forall|j: int| 0 <= j < s.len() implies !p(#[trigger] s[j]) by {
                        if j > 0 {
                            assert(s[j] == t[j - 1]);
                        }
                    }
                },
            }
        }
    }
}

/// A position holding `x` with no earlier `x` is its first position.
pub proof fn lemma_first_index_found<T>(s: Seq<T>, x: T, i: int)
    requires
        0 <= i < s.len(),
        s[i] == x,
        forall|j: int| 0 <= j < i ==> #[trigger] s[j] != x,
    ensures
        first_index(s, x) == Some(i),
{
    lemma_first_where_found(s, |y: T| y == x, i);
}

/// An absent `x` has no first position.
pub proof fn lemma_first_index_absent<T>(s: Seq<T>, x: T)
    requires
        !s.contains(x),
    ensures
        first_index(s, x) is None,
{
    assert forall|j: int| 0 <= j < s.len() implies !((|y: T| y == x)(#[trigger] s[j])) by {
        if s[j] == x {
            assert(s.contains(x));
        }
    }
    lemma_first_where_absent(s, |y: T| y == x);
}

/// The first position of `x` holds `x`; with no position, `x` is absent.
pub proof fn lemma_first_index_meaning<T>(s: Seq<T>, x: T)
    ensures
        first_index(s, x) matches Some(i) ==> 0 <= i < s.len() && s[i] == x && forall|j: int|
            0 <= j < i ==> #[trigger] s[j] != x,
        first_index(s, x) is None ==> !s.contains(x),
{
    lemma_first_where_meaning(s, |y: T| y == x);
    if first_index(s, x) is None && s.contains(x) {
        let j = choose|j: int| 0 <= j < s.len() && s[j] == x;
        assert((|y: T| y == x)(s[j]));
    }
}

/// The runs of `s`, one after another.
pub open spec fn concat_all<T>(s: Seq<Seq<T>>) -> Seq<T>
    decreases s.len(),
{
    if s.len() == 0 {
        Seq::empty()
    } else {
        concat_all(s.drop_last()) + s.last()
    }
}

} // verus!
