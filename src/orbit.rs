use vstd::prelude::*;

verus! {

/// The transform may be called on every value of its type.
pub open spec fn is_total<T, F: Fn(T) -> T>(f: F) -> bool {
    forall|x: T| #[trigger] f.requires((x,))
}

/// The transform returns one value at most for each argument.
pub open spec fn is_functional<T, F: Fn(T) -> T>(f: F) -> bool {
    forall|x: T, y1: T, y2: T|
        #[trigger] f.ensures((x,), y1) && #[trigger] f.ensures((x,), y2) ==> y1 == y2
}

/// `s` is the beginning of the unfolding of `f` from `init`: it starts at `init`, and each
/// value after the first is a result of `f` on the value before it.
pub open spec fn is_orbit<T, F: Fn(T) -> T>(f: F, init: T, s: Seq<T>) -> bool {
    &&& s.len() > 0 ==> s[0] == init
    &&& forall|k: int| 0 <= k < s.len() - 1 ==> #[trigger] f.ensures((s[k],), s[k + 1])
}

/// `v` is the value at zero-based position `index - 1` of the unfolding of `f` from `init`.
pub open spec fn is_nth<T, F: Fn(T) -> T>(f: F, init: T, index: nat, v: T) -> bool {
    exists|s: Seq<T>| is_orbit(f, init, s) && s.len() == index && index > 0 && s.last() == v
}

/// Every result of `f` on an argument `x` is `g(x)`.
pub open spec fn computes<T, F: Fn(T) -> T>(f: F, g: spec_fn(T) -> T) -> bool {
    forall|x: T, y: T| #[trigger] f.ensures((x,), y) ==> y == g(x)
}

/// `g` applied `k` times to `x`.
pub open spec fn iterate<T>(g: spec_fn(T) -> T, x: T, k: nat) -> T
    decreases k,
{
    if k == 0 {
        x
    } else {
        g(iterate(g, x, (k - 1) as nat))
    }
}

proof fn lemma_orbit_at<T, F: Fn(T) -> T>(f: F, g: spec_fn(T) -> T, init: T, s: Seq<T>, k: nat)
    requires
        computes(f, g),
        is_orbit(f, init, s),
        k < s.len(),
    ensures
        s[k as int] == iterate(g, init, k),
    decreases k,
{
    if k > 0 {
        lemma_orbit_at(f, g, init, s, (k - 1) as nat);
        let j = k - 1;
        assert(f.ensures((s[j],), s[j + 1]));
    }
}

/// When `f` computes the spec function `g`, the value at zero-based position `k` of
/// an unfolding of `f` from `init` (as `unfold_vector` returns it) is `g` applied
/// `k` times to `init`.
pub proof fn orbit_is_iteration<T, F: Fn(T) -> T>(f: F, g: spec_fn(T) -> T, init: T, s: Seq<T>)
    requires
        computes(f, g),
        is_orbit(f, init, s),
    ensures
        forall|k: int| 0 <= k < s.len() ==> #[trigger] s[k] == iterate(g, init, k as nat),
{
    assert forall|k: int| 0 <= k < s.len() implies #[trigger] s[k] == iterate(g, init, k as nat) by {
        lemma_orbit_at(f, g, init, s, k as nat);
    }
}

/// When `f` computes the spec function `g`, the value that `unfold_nth` returns for a
/// position `index` of at least one is `g` applied `index - 1` times to `init`.
pub proof fn nth_is_iteration<T, F: Fn(T) -> T>(
    f: F,
    g: spec_fn(T) -> T,
    init: T,
    index: nat,
    v: T,
)
    requires
        computes(f, g),
        is_nth(f, init, index, v),
    ensures
        index >= 1,
        v == iterate(g, init, (index - 1) as nat),
{
    let s = choose|s: Seq<T>| is_orbit(f, init, s) && s.len() == index && index > 0 && s.last() == v;
    lemma_orbit_at(f, g, init, s, (index - 1) as nat);
}

/// When `f` has one result for each argument, two unfoldings of `f` from one start
/// value and of one length are equal: the same call gives the same values.
pub proof fn orbits_agree<T, F: Fn(T) -> T>(f: F, init: T, s1: Seq<T>, s2: Seq<T>)
    requires
        is_functional(f),
        is_orbit(f, init, s1),
        is_orbit(f, init, s2),
        s1.len() == s2.len(),
    ensures
        s1 == s2,
{
    let g = |x: T| choose|y: T| f.ensures((x,), y);
    assert(computes(f, g)) by {
        assert forall|x: T, y: T| #[trigger] f.ensures((x,), y) implies y == g(x) by {
            let z = g(x);
            assert(f.ensures((x,), z));
        }
    }
    orbit_is_iteration(f, g, init, s1);
    orbit_is_iteration(f, g, init, s2);
    assert(s1 =~= s2);
}

/// Dropping the last value of an unfolding leaves an unfolding.
pub(crate) proof fn lemma_orbit_drop_last<T, F: Fn(T) -> T>(f: F, init: T, s: Seq<T>, x: T)
    requires
        is_orbit(f, init, s.push(x)),
    ensures
        is_orbit(f, init, s),
{
    let t = s.push(x);
    assert forall|k: int| 0 <= k < s.len() - 1 implies #[trigger] f.ensures((s[k],), s[k + 1]) by {
        assert(s[k] == t[k] && s[k + 1] == t[k + 1]);
    }
    if s.len() > 0 {
        assert(s[0] == t[0]);
    }
}

} // verus!
