//! The deque's operations on its view, composed over many calls.
//!
//! Each operation of `fourth::List` states its effect on the view: a push at
//! the front makes `seq![x] + s`, a push at the back `s.push(x)`, a pop at the
//! front returns `s[0]` and leaves `s.drop_first()`, a pop at the back returns
//! `s.last()` and leaves `s.drop_last()`. The functions here repeat those steps
//! and the lemmas say what whole runs of them amount to.
use vstd::prelude::*;

verus! {

/// The view after pushing each of `xs`, first to last, at the front of `s`.
pub open spec fn pushed_front<T>(s: Seq<T>, xs: Seq<T>) -> Seq<T>
    decreases xs.len(),
{
    if xs.len() == 0 {
        s
    } else {
        seq![xs.last()] + pushed_front(s, xs.drop_last())
    }
}

/// The view after pushing each of `xs`, first to last, at the back of `s`.
pub open spec fn pushed_back<T>(s: Seq<T>, xs: Seq<T>) -> Seq<T>
    decreases xs.len(),
{
    if xs.len() == 0 {
        s
    } else {
        pushed_back(s, xs.drop_last()).push(xs.last())
    }
}

/// What `k` pops at the front of `s` return, in the order they return it
/// (pops of an empty deque return nothing).
pub open spec fn popped_front<T>(s: Seq<T>, k: nat) -> Seq<T>
    decreases k,
{
    if k == 0 || s.len() == 0 {
        Seq::empty()
    } else {
        seq![s[0]] + popped_front(s.drop_first(), (k - 1) as nat)
    }
}

/// What `k` pops at the back of `s` return, in the order they return it
/// (pops of an empty deque return nothing).
pub open spec fn popped_back<T>(s: Seq<T>, k: nat) -> Seq<T>
    decreases k,
{
    if k == 0 || s.len() == 0 {
        Seq::empty()
    } else {
        seq![s.last()] + popped_back(s.drop_last(), (k - 1) as nat)
    }
}

proof fn lemma_pushed_front<T>(s: Seq<T>, xs: Seq<T>)
    ensures
        pushed_front(s, xs) == xs.reverse() + s,
    decreases xs.len(),
{
    if xs.len() > 0 {
        lemma_pushed_front(s, xs.drop_last());
        assert(xs.reverse() =~= seq![xs.last()] + xs.drop_last().reverse());
        assert(pushed_front(s, xs) =~= xs.reverse() + s);
    }
}

proof fn lemma_pushed_back<T>(s: Seq<T>, xs: Seq<T>)
    ensures
        pushed_back(s, xs) == s + xs,
    decreases xs.len(),
{
    if xs.len() > 0 {
        lemma_pushed_back(s, xs.drop_last());
        assert((s + xs.drop_last()).push(xs.last()) =~= s + xs);
    }
}

proof fn lemma_popped_front<T>(s: Seq<T>, k: nat)
    requires
        k <= s.len(),
    ensures
        popped_front(s, k) == s.take(k as int),
    decreases k,
{
    if k > 0 {
        lemma_popped_front(s.drop_first(), (k - 1) as nat);
        assert(seq![s[0]] + s.drop_first().take(k - 1) =~= s.take(k as int));
    } else {
        assert(s.take(0) =~= Seq::<T>::empty());
    }
}

proof fn lemma_popped_back<T>(s: Seq<T>, k: nat)
    requires
        k <= s.len(),
    ensures
        popped_back(s, k) == s.skip(s.len() - k).reverse(),
    decreases k,
{
    if k > 0 {
        lemma_popped_back(s.drop_last(), (k - 1) as nat);
        assert(seq![s.last()] + s.drop_last().skip(s.len() - k).reverse() =~= s.skip(
            s.len() - k,
        ).reverse());
    } else {
        assert(s.skip(s.len() as int) =~= Seq::<T>::empty());
    }
}

/// Pushing at the front and popping at the front is last-in first-out:
/// after `xs` is pushed at the front, as many front pops return `xs` in
/// reverse order and leave the deque as it was.
pub proof fn lemma_front_is_lifo<T>(s: Seq<T>, xs: Seq<T>)
    ensures
        popped_front(pushed_front(s, xs), xs.len()) == xs.reverse(),
        pushed_front(s, xs).skip(xs.len() as int) == s,
{
    lemma_pushed_front(s, xs);
    let t = xs.reverse() + s;
    lemma_popped_front(t, xs.len());
    assert(t.take(xs.len() as int) =~= xs.reverse());
    assert(t.skip(xs.len() as int) =~= s);
}

/// Pushing at the back and popping at the back is last-in first-out: after
/// `xs` is pushed at the back, as many back pops return `xs` in reverse
/// order and leave the deque as it was.
pub proof fn lemma_back_is_lifo<T>(s: Seq<T>, xs: Seq<T>)
    ensures
        popped_back(pushed_back(s, xs), xs.len()) == xs.reverse(),
        pushed_back(s, xs).take(s.len() as int) == s,
{
    lemma_pushed_back(s, xs);
    let t = s + xs;
    lemma_popped_back(t, xs.len());
    assert(t.skip(t.len() - xs.len()) =~= xs);
    assert(t.take(s.len() as int) =~= s);
}

/// Pushing at the back and popping at the front is first-in first-out: front
/// pops return what the deque held, then `xs` in the order it was pushed.
pub proof fn lemma_back_to_front_is_fifo<T>(s: Seq<T>, xs: Seq<T>)
    ensures
        popped_front(pushed_back(s, xs), s.len() + xs.len()) == s + xs,
{
    lemma_pushed_back(s, xs);
    let t = s + xs;
    lemma_popped_front(t, t.len());
    assert(t.take(t.len() as int) =~= t);
}

/// A value written over the front element (through `peek_front_mut`) is
/// what the next front pop returns, and the rest is left as it was.
pub proof fn lemma_front_write_is_popped<T>(s: Seq<T>, v: T)
    requires
        s.len() > 0,
    ensures
        popped_front(s.update(0, v), 1) == seq![v],
        s.update(0, v).drop_first() == s.drop_first(),
{
    assert(popped_front(s.update(0, v).drop_first(), 0) =~= Seq::<T>::empty());
    assert(seq![v] + Seq::<T>::empty() =~= seq![v]);
    assert(s.update(0, v).drop_first() =~= s.drop_first());
}

/// A value written over the back element (through `peek_back_mut`) is what
/// the next back pop returns, and the rest is left as it was.
pub proof fn lemma_back_write_is_popped<T>(s: Seq<T>, v: T)
    requires
        s.len() > 0,
    ensures
        popped_back(s.update(s.len() - 1, v), 1) == seq![v],
        s.update(s.len() - 1, v).drop_last() == s.drop_last(),
{
    assert(popped_back(s.update(s.len() - 1, v).drop_last(), 0) =~= Seq::<T>::empty());
    assert(seq![v] + Seq::<T>::empty() =~= seq![v]);
    assert(s.update(s.len() - 1, v).drop_last() =~= s.drop_last());
}

} // verus!
