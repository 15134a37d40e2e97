use vstd::prelude::*;

use crate::orbit::{is_functional, is_nth, is_orbit, is_total, lemma_orbit_drop_last, orbits_agree};

verus! {

/// An endless generator: each pull hands out the current value and replaces it
/// with the transform's result on it.
#[verifier::reject_recursive_types(T)]
pub struct Unfold<T, F> where F: Fn(T) -> T, T: Copy {
    curr: T,
    func: F,
}

impl<T, F> Unfold<T, F> where F: Fn(T) -> T, T: Copy {
    /// The value that the next pull hands out.
    pub closed spec fn current(&self) -> T {
        self.curr
    }

    /// The transform that each pull applies.
    pub closed spec fn transform(&self) -> F {
        self.func
    }

    /// A generator whose first value is `init`.
    pub fn new(function: F, init: T) -> (r: Self)
        ensures
            r.current() == init,
            r.transform() == function,
    {
        Self { func: function, curr: init }
    }

    /// Hands out the current value and advances to the transform's result on it.
    /// The sequence never ends: the result is always `Some`.
    pub fn next(&mut self) -> (r: Option<T>)
        requires
            old(self).transform().requires((old(self).current(),)),
        ensures
            r == Some(old(self).current()),
            final(self).transform() == old(self).transform(),
            old(self).transform().ensures((old(self).current(),), final(self).current()),
    {
        let tmp = self.curr;
        self.curr = (self.func)(self.curr);
        Some(tmp)
    }
}

/// A generator cut at a count: it hands out the first values of an unfolding, in
/// order, and then only `None`.
#[verifier::reject_recursive_types(T)]
pub struct UnfoldCount<T, F> where F: Fn(T) -> T, T: Copy {
    inner: Unfold<T, F>,
    remaining: usize,
    start: Ghost<T>,
    produced: Ghost<Seq<T>>,
}

impl<T, F> UnfoldCount<T, F> where F: Fn(T) -> T, T: Copy {
    /// The first value of the unfolding.
    pub closed spec fn start(&self) -> T {
        self.start@
    }

    /// The transform that each pull applies.
    pub closed spec fn transform(&self) -> F {
        self.inner.transform()
    }

    /// The values handed out so far, in order.
    pub closed spec fn produced(&self) -> Seq<T> {
        self.produced@
    }

    /// How many values are still to be handed out.
    pub closed spec fn remaining(&self) -> nat {
        self.remaining as nat
    }

    /// The value that the next pull hands out, while any remain.
    pub closed spec fn upcoming(&self) -> T {
        self.inner.current()
    }

    /// The values handed out, followed by the upcoming one, unfold the transform from the start.
    pub closed spec fn wf(&self) -> bool {
        is_orbit(self.transform(), self.start(), self.produced().push(self.upcoming()))
    }

    /// Hands out the next value while the count is not used up; after that, `None` on
    /// every pull, with nothing changed.
    pub fn next(&mut self) -> (r: Option<T>)
        requires
            old(self).wf(),
            old(self).remaining() > 0 ==> old(self).transform().requires((old(self).upcoming(),)),
        ensures
            final(self).wf(),
            final(self).start() == old(self).start(),
            final(self).transform() == old(self).transform(),
            old(self).remaining() == 0 ==> r is None && *final(self) == *old(self),
            old(self).remaining() > 0 ==> {
                &&& r == Some(old(self).upcoming())
                &&& final(self).produced() == old(self).produced().push(old(self).upcoming())
                &&& final(self).remaining() == old(self).remaining() - 1
                &&& old(self).transform().ensures((old(self).upcoming(),), final(self).upcoming())
            },
    {
        if self.remaining == 0 {
            return None;
        }
        let ghost before = self.produced@.push(self.inner.current());
        let r = self.inner.next();
        self.remaining = self.remaining - 1;
        self.produced = Ghost(before);
        proof {
            let s = before.push(self.inner.current());
            assert forall|k: int| 0 <= k < s.len() - 1 implies #[trigger] self.transform().ensures(
                (s[k],),
                s[k + 1],
            ) by {
                if k < s.len() - 2 {
                    assert(s[k] == before[k] && s[k + 1] == before[k + 1]);
                }
            }
        }
        r
    }
}

/// When the transform has one result for each argument, the values that a cut
/// generator has handed out are the first ones of what `unfold_vector` returns for
/// the same transform, start value and count; once the count is used up they are
/// all of it, and from then on each pull gives `None`.
pub proof fn bounded_prefix_of_orbit<T, F>(it: UnfoldCount<T, F>, v: Seq<T>) where
    F: Fn(T) -> T,
    T: Copy,

    requires
        it.wf(),
        is_functional(it.transform()),
        is_orbit(it.transform(), it.start(), v),
        v.len() == it.produced().len() + it.remaining(),
    ensures
        it.produced() == v.take(it.produced().len() as int),
        it.remaining() == 0 ==> it.produced() == v,
{
    let f = it.transform();
    let p = it.produced();
    let w = v.take(p.len() as int);
    lemma_orbit_drop_last(f, it.start(), p, it.upcoming());
    assert forall|k: int| 0 <= k < w.len() - 1 implies #[trigger] f.ensures((w[k],), w[k + 1]) by {
        assert(f.ensures((v[k],), v[k + 1]));
    }
    orbits_agree(f, it.start(), p, w);
    if it.remaining() == 0 {
        assert(w =~= v);
    }
}

/// A generator of `func`'s unfolding from `init`.
pub fn unfold<T, F>(func: F, init: T) -> (r: Unfold<T, F>) where F: Fn(T) -> T, T: Copy
    ensures
        r.current() == init,
        r.transform() == func,
{
    Unfold::new(func, init)
}

/// A generator of the first `count` values of `func`'s unfolding from `init`.
pub fn unfold_count<T, F>(func: F, init: T, count: usize) -> (r: UnfoldCount<T, F>) where
    F: Fn(T) -> T,
    T: Copy,

    ensures
        r.wf(),
        r.start() == init,
        r.transform() == func,
        r.upcoming() == init,
        r.produced() == Seq::<T>::empty(),
        r.remaining() == count,
{
    UnfoldCount {
        inner: unfold(func, init),
        remaining: count,
        start: Ghost(init),
        produced: Ghost(Seq::empty()),
    }
}

/// The first `len` values of `func`'s unfolding from `init`, in order.
pub fn unfold_vector<T, F>(func: F, init: T, len: usize) -> (r: Vec<T>) where
    F: Fn(T) -> T,
    T: Copy,

    requires
        is_total(func),
    ensures
        r@.len() == len,
        is_orbit(func, init, r@),
{
    let mut it = unfold_count(func, init, len);
    let mut v: Vec<T> = Vec::new();
    loop
        invariant
            it.wf(),
            it.start() == init,
            it.transform() == func,
            is_total(func),
            v@ == it.produced(),
            v@.len() + it.remaining() == len,
        ensures
            it.remaining() == 0,
        decreases it.remaining(),
    {
        match it.next() {
            Some(x) => v.push(x),
            None => break,
        }
    }
    proof {
        lemma_orbit_drop_last(func, init, it.produced(), it.upcoming());
    }
    v
}

/// What can go wrong when reading a position of an unfolding.
#[derive(Debug, Clone, Copy, PartialEq, Eq, Structural)]
pub enum UnfoldError {
    /// Positions count from one: there is no value at position zero.
    InvalidArgument,
}

/// The value at one-based position `index` of `func`'s unfolding from `init`: `init`
/// at position one, `func(init)` at position two, and so on.
pub fn unfold_nth<T, F>(func: F, init: T, index: usize) -> (r: Result<T, UnfoldError>) where
    F: Fn(T) -> T,
    T: Copy,

    requires
        is_total(func),
    ensures
        index == 0 ==> r == Err::<T, UnfoldError>(UnfoldError::InvalidArgument),
        index > 0 ==> (r matches Ok(v) && is_nth(func, init, index as nat, v)),
{
    if index == 0 {
        return Err(UnfoldError::InvalidArgument);
    }
    let mut it = unfold_count(func, init, index);
    let mut last = init;
    loop
        invariant
            it.wf(),
            it.start() == init,
            it.transform() == func,
            is_total(func),
            it.produced().len() + it.remaining() == index,
            index > 0,
            it.produced().len() > 0 ==> last == it.produced().last(),
        ensures
            it.remaining() == 0,
        decreases it.remaining(),
    {
        match it.next() {
            Some(x) => last = x,
            None => break,
        }
    }
    proof {
        lemma_orbit_drop_last(func, init, it.produced(), it.upcoming());
    }
    Ok(last)
}

} // verus!
