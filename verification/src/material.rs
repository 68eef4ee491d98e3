use vstd::prelude::*;

verus! {

/// A medium that rays travel through; it may bend the direction of a ray that enters or
/// leaves it.
pub trait Material<P, V> {
    /// The direction of a ray at `location` after it enters the material.
    spec fn entered(&self, location: P, direction: V) -> V;

    /// The direction of a ray at `location` after it leaves the material.
    spec fn exited(&self, location: P, direction: V) -> V;

    fn enter(&self, location: &P, direction: &mut V)
        ensures
            *final(direction) == self.entered(*location, *old(direction)),
    ;

    fn exit(&self, location: &P, direction: &mut V)
        ensures
            *final(direction) == self.exited(*location, *old(direction)),
    ;
}

/// Empty space: rays pass into and out of it unbent.
#[derive(Clone, Copy, Debug, Default, PartialEq, Eq, Structural)]
pub struct Vacuum {}

impl Vacuum {
    pub fn new() -> (vacuum: Self)
        ensures
            vacuum == (Vacuum {}),
    {
        Vacuum {}
    }
}

impl<P, V> Material<P, V> for Vacuum {
    open spec fn entered(&self, location: P, direction: V) -> V {
        direction
    }

    open spec fn exited(&self, location: P, direction: V) -> V {
        direction
    }

    fn enter(&self, location: &P, direction: &mut V) {
    }

    fn exit(&self, location: &P, direction: &mut V) {
    }
}

/// A change of the components of a vector, and the change that undoes it; `legend` names
/// the components, one character each.
pub trait LinearTransformation<V> {
    spec fn transformed(&self, vector: V, legend: String) -> V;

    spec fn inverse_transformed(&self, vector: V, legend: String) -> V;

    fn transform(&self, vector: &mut V, legend: &String)
        ensures
            *final(vector) == self.transformed(*old(vector), *legend),
    ;

    fn inverse_transform(&self, vector: &mut V, legend: &String)
        ensures
            *final(vector) == self.inverse_transformed(*old(vector), *legend),
    ;
}

/// `vector` changed by each of `transformations`, the first first.
pub open spec fn transform_all<V, T: LinearTransformation<V>>(
    transformations: Seq<T>,
    vector: V,
    legend: String,
) -> V
    decreases transformations.len(),
{
    if transformations.len() == 0 {
        vector
    } else {
        transformations.last().transformed(
            transform_all(transformations.drop_last(), vector, legend),
            legend,
        )
    }
}

/// `vector` changed by the inverse of each of `transformations`, the last first.
pub open spec fn inverse_transform_all<V, T: LinearTransformation<V>>(
    transformations: Seq<T>,
    vector: V,
    legend: String,
) -> V
    decreases transformations.len(),
{
    if transformations.len() == 0 {
        vector
    } else {
        inverse_transform_all(
            transformations.drop_last(),
            transformations.last().inverse_transformed(vector, legend),
            legend,
        )
    }
}

/// A space whose directions are changed by a series of transformations: a ray entering it
/// is transformed by each in turn, a ray leaving it by each inverse in the opposite order.
pub struct LinearSpace<T> {
    pub legend: String,
    pub transformations: Vec<T>,
}

impl<T> LinearSpace<T> {
    pub fn transform<V>(&self, vector: &mut V) where T: LinearTransformation<V>
        ensures
            *final(vector) == transform_all(self.transformations@, *old(vector), self.legend),
    {
        let mut k: usize = 0;
        while k < self.transformations.len()
            invariant
                k <= self.transformations@.len(),
                *vector == transform_all(self.transformations@.take(k as int), *old(vector), self.legend),
            decreases self.transformations.len() - k,
        {
            proof {
                assert(self.transformations@.take(k + 1).drop_last() =~= self.transformations@.take(k as int));
                assert(self.transformations@.take(k + 1).last() == self.transformations@[k as int]);
            }
            self.transformations[k].transform(vector, &self.legend);
            k = k + 1;
        }
        proof {
            assert(self.transformations@.take(k as int) =~= self.transformations@);
        }
    }

    pub fn inverse_transform<V>(&self, vector: &mut V) where T: LinearTransformation<V>
        ensures
            *final(vector) == inverse_transform_all(self.transformations@, *old(vector), self.legend),
    {
        let mut k: usize = self.transformations.len();
        proof {
            assert(self.transformations@.take(k as int) =~= self.transformations@);
        }
        while k > 0
            invariant
                k <= self.transformations@.len(),
                inverse_transform_all(self.transformations@, *old(vector), self.legend)
                    == inverse_transform_all(self.transformations@.take(k as int), *vector, self.legend),
            decreases k,
        {
            proof {
                assert(self.transformations@.take(k as int).drop_last() =~= self.transformations@.take(k - 1));
                assert(self.transformations@.take(k as int).last() == self.transformations@[k - 1]);
            }
            self.transformations[k - 1].inverse_transform(vector, &self.legend);
            k = k - 1;
        }
        proof {
            assert(self.transformations@.take(0) =~= Seq::<T>::empty());
        }
    }
}

impl<P, V, T: LinearTransformation<V>> Material<P, V> for LinearSpace<T> {
    open spec fn entered(&self, location: P, direction: V) -> V {
        transform_all(self.transformations@, direction, self.legend)
    }

    open spec fn exited(&self, location: P, direction: V) -> V {
        inverse_transform_all(self.transformations@, direction, self.legend)
    }

    fn enter(&self, location: &P, direction: &mut V) {
        self.transform(direction);
    }

    fn exit(&self, location: &P, direction: &mut V) {
        self.inverse_transform(direction);
    }
}

/// When each transformation's inverse undoes it, leaving a linear space undoes entering
/// it: the direction comes out as it went in.
pub proof fn lemma_exit_undoes_enter<V, T: LinearTransformation<V>>(
    transformations: Seq<T>,
    vector: V,
    legend: String,
)
    requires
        forall|i: int, w: V|
            0 <= i < transformations.len() ==> #[trigger] transformations[i].inverse_transformed(
                transformations[i].transformed(w, legend),
                legend,
            ) == w,
    ensures
        inverse_transform_all(transformations, transform_all(transformations, vector, legend), legend)
            == vector,
    decreases transformations.len(),
{
    if transformations.len() > 0 {
        let rest = transformations.drop_last();
        assert forall|i: int, w: V| 0 <= i < rest.len() implies #[trigger] rest[i].inverse_transformed(
            rest[i].transformed(w, legend),
            legend,
        ) == w by {
            assert(rest[i] == transformations[i]);
        }
        let last = transformations.len() - 1;
        assert(transformations.last() == transformations[last]);
        let inner = transform_all(rest, vector, legend);
        assert(transformations[last].inverse_transformed(transformations[last].transformed(inner, legend), legend) == inner);
        lemma_exit_undoes_enter(rest, vector, legend);
    }
}

} // verus!
