//! Types with a mathematical model: copying keeps it, and sameness is sameness of the models.
use vstd::prelude::*;

use crate::text::str_eq;

verus! {

/// A type whose values stand for values of a mathematical type.
pub trait Model: Sized {
    /// The mathematical type.
    type M;

    /// What the value stands for.
    spec fn model(&self) -> Self::M;

    /// A value that stands for the same.
    fn copy(&self) -> (r: Self)
        ensures
            r.model() == self.model(),
    ;

    /// Whether both values stand for the same.
    fn same(&self, other: &Self) -> (r: bool)
        ensures
            r == (self.model() == other.model()),
    ;
}

/// What the items of a list stand for.
pub open spec fn models<T: Model>(v: Seq<T>) -> Seq<T::M> {
    v.map_values(|x: T| x.model())
}

/// A list whose items stand for the same.
pub fn copy_all<T: Model>(v: &Vec<T>) -> (r: Vec<T>)
    ensures
        models(r@) == models(v@),
{
    let mut out: Vec<T> = Vec::new();
    for i in 0..v.len()
        invariant
            out@.len() == i,
            forall|j: int| 0 <= j < i ==> (#[trigger] out@[j]).model() == v@[j].model(),
    {
        let c = v[i].copy();
        out.push(c);
    }
    proof {
        assert(models(out@) =~= models(v@));
    }
    out
}

/// Whether the items of both lists stand for the same, one by one.
pub fn same_all<T: Model>(a: &Vec<T>, b: &Vec<T>) -> (r: bool)
    ensures
        r == (models(a@) == models(b@)),
{
    if a.len() != b.len() {
        proof {
            assert(models(a@).len() != models(b@).len());
        }
        return false;
    }
    for i in 0..a.len()
        invariant
            a.len() == b.len(),
            forall|j: int| 0 <= j < i ==> (#[trigger] a@[j]).model() == b@[j].model(),
    {
        if !a[i].same(&b[i]) {
            proof {
                assert(models(a@)[i as int] != models(b@)[i as int]);
            }
            return false;
        }
    }
    proof {
        assert(models(a@) =~= models(b@));
    }
    true
}

/// Whether `x` stands for the same as some item of `v`.
pub fn holds<T: Model>(v: &Vec<T>, x: &T) -> (r: bool)
    ensures
        r == models(v@).contains(x.model()),
{
    for i in 0..v.len()
        invariant
            forall|j: int| 0 <= j < i ==> (#[trigger] v@[j]).model() != x.model(),
    {
        if v[i].same(x) {
            proof {
                assert(models(v@)[i as int] == x.model());
            }
            return true;
        }
    }
    proof {
        if models(v@).contains(x.model()) {
            let k = models(v@).index_of(x.model());
            assert(models(v@)[k] == v@[k].model());
        }
    }
    false
}

impl Model for String {
    type M = Seq<char>;

    open spec fn model(&self) -> Seq<char> {
        self@
    }

    fn copy(&self) -> (r: Self) {
        self.clone()
    }

    fn same(&self, other: &Self) -> (r: bool) {
        str_eq(self.as_str(), other.as_str())
    }
}

impl Model for u64 {
    type M = u64;

    open spec fn model(&self) -> u64 {
        *self
    }

    fn copy(&self) -> (r: Self) {
        *self
    }

    fn same(&self, other: &Self) -> (r: bool) {
        *self == *other
    }
}

impl<A: Model, B: Model> Model for (A, B) {
    type M = (A::M, B::M);

    open spec fn model(&self) -> (A::M, B::M) {
        (self.0.model(), self.1.model())
    }

    fn copy(&self) -> (r: Self) {
        (self.0.copy(), self.1.copy())
    }

    fn same(&self, other: &Self) -> (r: bool) {
        self.0.same(&other.0) && self.1.same(&other.1)
    }
}

impl<A: Model> Model for Option<A> {
    type M = Option<A::M>;

    open spec fn model(&self) -> Option<A::M> {
        match self {
            Some(a) => Some(a.model()),
            None => None,
        }
    }

    fn copy(&self) -> (r: Self) {
        match self {
            Some(a) => Some(a.copy()),
            None => None,
        }
    }

    fn same(&self, other: &Self) -> (r: bool) {
        match (self, other) {
            (Some(a), Some(b)) => a.same(b),
            (None, None) => true,
            _ => false,
        }
    }
}

impl<A: Model> Model for Vec<A> {
    type M = Seq<A::M>;

    open spec fn model(&self) -> Seq<A::M> {
        models(self@)
    }

    fn copy(&self) -> (r: Self) {
        copy_all(self)
    }

    fn same(&self, other: &Self) -> (r: bool) {
        same_all(self, other)
    }
}

} // verus!
