//! A short vector kept inline while it fits, on the heap otherwise.
use vstd::prelude::*;

verus! {

/// A vector whose contents live in an inline array of capacity `C` when short
/// (`Int`, with its length in a `u8`), and in a `Vec` otherwise (`Ext`).
#[derive(Debug)]
pub enum SVec<T: Copy, const C: usize> {
    Int(([T; C], u8)),
    Ext(Vec<T>),
}

impl<T: Copy, const C: usize> View for SVec<T, C> {
    type V = Seq<T>;

    open spec fn view(&self) -> Seq<T> {
        match self {
            SVec::Int((a, l)) => a@.take(*l as int),
            SVec::Ext(v) => v@,
        }
    }
}

impl<T: Copy, const C: usize> Clone for SVec<T, C> {
    fn clone(&self) -> (r: Self)
        ensures
            r@ == self@,
            r.wf() == self.wf(),
    {
        match self {
            SVec::Int((a, l)) => SVec::Int((*a, *l)),
            SVec::Ext(v) => {
                let mut w: Vec<T> = Vec::with_capacity(v.len());
                for i in 0..v.len()
                    invariant
                        w@ == v@.take(i as int),
                {
                    w.push(v[i]);
                }
                assert(w@ =~= v@);
                SVec::Ext(w)
            },
        }
    }
}

impl<T: Copy, const C: usize> SVec<T, C> {
    /// An inline vector does not claim more elements than its array holds.
    pub open spec fn wf(&self) -> bool {
        match self {
            SVec::Int((_, l)) => *l as int <= C,
            SVec::Ext(_) => true,
        }
    }

    /// The elements, as a slice.
    pub fn as_ref(&self) -> (r: &[T])
        requires
            self.wf(),
        ensures
            r@ == self@,
    {
        match self {
            SVec::Int((a, l)) => {
                let n = *l as usize;
                slice_prefix(a.as_slice(), n)
            },
            SVec::Ext(v) => v.as_slice(),
        }
    }
}

/// The first `n` elements of `s`.
fn slice_prefix<T>(s: &[T], n: usize) -> (r: &[T])
    requires
        n <= s@.len(),
    ensures
        r@ == s@.take(n as int),
{
    let (a, _) = s.split_at(n);
    a
}

/// `x` is a value that `T::default()` gives.
pub open spec fn is_default<T: Default>(x: T) -> bool {
    call_ensures(T::default, (), x)
}

impl<T: Copy + Default, const C: usize> SVec<T, C> {
    /// Every slot of the inline array past the length holds a value that
    /// `T::default()` gives; an `Ext` has no such slots.
    pub open spec fn padded_with_default(&self) -> bool {
        match self {
            SVec::Int((a, l)) => forall|i: int| *l as int <= i < C ==> is_default(#[trigger] a@[i]),
            SVec::Ext(_) => true,
        }
    }

    /// Copies `v` into an inline array filled up with `T::default()`; the
    /// length is kept in a `u8`, so it is taken modulo 256.
    pub fn inner_from_slice(v: &[T]) -> (r: Self)
        requires
            v@.len() <= C,
        ensures
            r matches SVec::Int((a, l)) && l as int == v@.len() % 256 && forall|i: int|
                0 <= i < v@.len() ==> #[trigger] a@[i] == v@[i],
            r.wf(),
            r@ == v@.take((v@.len() % 256) as int),
            v@.len() < 256 ==> r.padded_with_default(),
    {
        let d = T::default();
        let mut a: [T; C] = [d; C];
        let n = v.len();
        for i in 0..n
            invariant
                n == v@.len(),
                n <= C,
                a@.len() == C,
                is_default(d),
                forall|j: int| 0 <= j < i ==> a@[j] == v@[j],
                forall|j: int| i <= j < C ==> a@[j] == d,
        {
            a[i] = v[i];
        }
        let l = (n % 256) as u8;
        let r = SVec::Int((a, l));
        assert(r@ =~= v@.take((v@.len() % 256) as int));
        r
    }
}

impl<T: Copy + Default, const C: usize> Default for SVec<T, C> {
    fn default() -> (r: Self)
        ensures
            r is Int,
            r.wf(),
            r@ == Seq::<T>::empty(),
            r.padded_with_default(),
    {
        let d = T::default();
        let r = SVec::Int(([d; C], 0));
        assert(r@ =~= Seq::<T>::empty());
        r
    }
}

impl<T: Copy + Default, const C: usize> SVec<T, C> {
    /// The contents that `from_slice` keeps of `v`: all of it, unless it is
    /// kept inline with a length of 256 or more.
    pub open spec fn kept(v: Seq<T>) -> Seq<T> {
        if v.len() < C {
            v.take((v.len() % 256) as int)
        } else {
            v
        }
    }

    /// Inline when shorter than `C`, on the heap otherwise.
    pub fn from_slice(v: &[T]) -> (r: Self)
        ensures
            r.wf(),
            r is Int <==> v@.len() < C,
            r@ == Self::kept(v@),
            v@.len() < 256 ==> r.padded_with_default(),
    {
        if v.len() < C {
            Self::inner_from_slice(v)
        } else {
            SVec::Ext(vstd::slice::slice_to_vec(v))
        }
    }

    /// Inline when shorter than `C`, keeping `v` itself otherwise.
    pub fn from_vec(v: Vec<T>) -> (r: Self)
        ensures
            r.wf(),
            r is Int <==> v@.len() < C,
            r@ == Self::kept(v@),
            r matches SVec::Ext(w) ==> w == v,
            v@.len() < 256 ==> r.padded_with_default(),
    {
        if v.len() < C {
            Self::inner_from_slice(v.as_slice())
        } else {
            SVec::Ext(v)
        }
    }
}

impl<'a, T: Copy + Default, const C: usize> From<&'a [T]> for SVec<T, C> {
    fn from(v: &'a [T]) -> (r: Self)
        ensures
            r.wf(),
            r is Int <==> v@.len() < C,
            r@ == Self::kept(v@),
            v@.len() < 256 ==> r.padded_with_default(),
    {
        Self::from_slice(v)
    }
}

impl<T: Copy + Default, const C: usize> From<Vec<T>> for SVec<T, C> {
    fn from(v: Vec<T>) -> (r: Self)
        ensures
            r.wf(),
            r is Int <==> v@.len() < C,
            r@ == Self::kept(v@),
            r matches SVec::Ext(w) ==> w == v,
            v@.len() < 256 ==> r.padded_with_default(),
    {
        Self::from_vec(v)
    }
}

// Nothing is known of `T::default()` but that it gave the padding, so the
// whole value is not stated here; `from` states the view, where the contents
// live and what the padding is.
impl<'a, T: Copy + Default, const C: usize> vstd::std_specs::convert::FromSpecImpl<&'a [T]> for SVec<T, C> {
    open spec fn obeys_from_spec() -> bool {
        false
    }

    open spec fn from_spec(v: &'a [T]) -> Self {
        vstd::pervasive::arbitrary()
    }
}

impl<T: Copy + Default, const C: usize> vstd::std_specs::convert::FromSpecImpl<Vec<T>> for SVec<T, C> {
    open spec fn obeys_from_spec() -> bool {
        false
    }

    open spec fn from_spec(v: Vec<T>) -> Self {
        vstd::pervasive::arbitrary()
    }
}

/// What is put in is what comes out, unless it is kept inline with a length
/// of 256 or more.
pub proof fn lemma_from_slice_round_trip<T: Copy + Default, const C: usize>(v: Seq<T>)
    requires
        v.len() < 256 || v.len() >= C,
    ensures
        SVec::<T, C>::kept(v) == v,
{
    if v.len() < C {
        assert(v.take(v.len() as int) =~= v);
    }
}

} // verus!
