use vstd::prelude::*;
use crate::util::{Provider, provides, continues, output_at};
use vstd::std_specs::iter::IteratorSpec;

verus! {

/// The way in which two shapes are combined into one.
#[derive(Clone, Copy, Debug, PartialEq, Eq, Structural)]
pub enum SetOperation {
    /// Points inside either shape.
    Union,
    /// Points inside both shapes.
    Intersection,
    /// Points inside the first shape but not inside the second.
    Complement,
    /// Points inside exactly one of the two shapes.
    SymmetricDifference,
}

/// Whether a point lies inside the combination, given whether it lies inside each part.
pub open spec fn combined_membership(operation: SetOperation, in_a: bool, in_b: bool) -> bool {
    match operation {
        SetOperation::Union => in_a || in_b,
        SetOperation::Intersection => in_a && in_b,
        SetOperation::Complement => in_a && !in_b,
        SetOperation::SymmetricDifference => in_a != in_b,
    }
}

/// A region of space, given by which points lie inside it.
pub trait Shape<P> {
    /// The points that lie inside the shape.
    spec fn contains(&self, point: P) -> bool;

    fn is_point_inside(&self, point: &P) -> (inside: bool)
        ensures
            inside == self.contains(*point),
    ;
}

/// A shape that contains every point.
#[derive(Clone, Copy, Debug, Default, PartialEq, Eq, Structural)]
pub struct VoidShape {}

impl VoidShape {
    pub fn new() -> (shape: Self)
        ensures
            shape == (VoidShape {}),
    {
        VoidShape {}
    }
}

/// Where a ray meets the boundary of the void: nowhere, since the void has none.
pub fn intersect_void<P, V>(location: &P, direction: &V, void: &VoidShape) -> (hits: Vec<
    Intersection<P, V>,
>)
    ensures
        hits@ == Seq::<Intersection<P, V>>::empty(),
{
    Vec::new()
}

impl<P> Shape<P> for VoidShape {
    open spec fn contains(&self, point: P) -> bool {
        true
    }

    fn is_point_inside(&self, point: &P) -> (inside: bool) {
        true
    }
}

/// A part of a composed shape: either a simple shape or another composition.
pub enum ShapeNode<S> {
    Leaf(S),
    Composed(Box<ComposableShape<S>>),
}

/// Two shapes combined by a set operation.
pub struct ComposableShape<S> {
    pub a: Box<ShapeNode<S>>,
    pub b: Box<ShapeNode<S>>,
    pub operation: SetOperation,
}

/// Whether `point` lies inside the shape described by `node`.
pub open spec fn node_contains<P, S: Shape<P>>(node: ShapeNode<S>, point: P) -> bool
    decreases node,
{
    match node {
        ShapeNode::Leaf(s) => s.contains(point),
        ShapeNode::Composed(c) => combined_membership(
            c.operation,
            node_contains(*c.a, point),
            node_contains(*c.b, point),
        ),
    }
}

impl<P, S: Shape<P>> Shape<P> for ShapeNode<S> {
    open spec fn contains(&self, point: P) -> bool {
        node_contains(*self, point)
    }

    fn is_point_inside(&self, point: &P) -> (inside: bool)
        decreases self,
    {
        match self {
            ShapeNode::Leaf(s) => s.is_point_inside(point),
            ShapeNode::Composed(c) => {
                let in_a = c.a.is_point_inside(point);
                let in_b = c.b.is_point_inside(point);
                match c.operation {
                    SetOperation::Union => in_a || in_b,
                    SetOperation::Intersection => in_a && in_b,
                    SetOperation::Complement => in_a && !in_b,
                    SetOperation::SymmetricDifference => in_a != in_b,
                }
            },
        }
    }
}


/// Whether `point` lies inside the combination of `shape.a` and `shape.b`.
pub open spec fn composed_contains<P, S: Shape<P>>(shape: ComposableShape<S>, point: P) -> bool {
    combined_membership(shape.operation, node_contains(*shape.a, point), node_contains(*shape.b, point))
}

impl<P, S: Shape<P>> Shape<P> for ComposableShape<S> {
    open spec fn contains(&self, point: P) -> bool {
        composed_contains(*self, point)
    }

    fn is_point_inside(&self, point: &P) -> (inside: bool) {
        let in_a = self.a.is_point_inside(point);
        let in_b = self.b.is_point_inside(point);
        match self.operation {
            SetOperation::Union => in_a || in_b,
            SetOperation::Intersection => in_a && in_b,
            SetOperation::Complement => in_a && !in_b,
            SetOperation::SymmetricDifference => in_a != in_b,
        }
    }
}

/// The shape that `ComposableShape::of` builds from `shapes`: the first two shapes
/// combined, then each further shape combined with the result so far.
pub open spec fn chain<S>(shapes: Seq<S>, operation: SetOperation) -> ComposableShape<S>
    decreases shapes.len(),
{
    if shapes.len() <= 2 {
        ComposableShape {
            a: Box::new(ShapeNode::Leaf(shapes[0])),
            b: Box::new(ShapeNode::Leaf(shapes[1])),
            operation,
        }
    } else {
        ComposableShape {
            a: Box::new(ShapeNode::Composed(Box::new(chain(shapes.drop_last(), operation)))),
            b: Box::new(ShapeNode::Leaf(shapes.last())),
            operation,
        }
    }
}

impl<S> ComposableShape<S> {
    /// Combines two simple shapes.
    pub fn new(a: S, b: S, operation: SetOperation) -> (shape: Self)
        ensures
            shape.a == Box::new(ShapeNode::Leaf(a)),
            shape.b == Box::new(ShapeNode::Leaf(b)),
            shape.operation == operation,
    {
        ComposableShape {
            a: Box::new(ShapeNode::Leaf(a)),
            b: Box::new(ShapeNode::Leaf(b)),
            operation,
        }
    }

    /// Combines two or more shapes with the same operation, from the first to the last.
    pub fn of(shapes: Vec<S>, operation: SetOperation) -> (shape: Self)
        requires
            shapes.len() >= 2,
        ensures
            shape == chain(shapes@, operation),
    {
        let ghost all = shapes@;
        let mut rest = shapes;
        let first = rest.remove(0);
        let second = rest.remove(0);
        let mut result = ComposableShape::new(first, second, operation);
        let ghost mut taken: int = 2;
        proof {
            assert(all.take(2) =~= seq![first, second]);
            assert(rest@ =~= all.skip(2));
        }
        while rest.len() > 0
            invariant
                2 <= taken <= all.len(),
                rest@ =~= all.skip(taken),
                result == chain(all.take(taken), operation),
            decreases rest.len(),
        {
            let next = rest.remove(0);
            proof {
                assert(all.take(taken + 1).drop_last() =~= all.take(taken));
                assert(all.take(taken + 1).last() == next);
            }
            result = ComposableShape {
                a: Box::new(ShapeNode::Composed(Box::new(result))),
                b: Box::new(ShapeNode::Leaf(next)),
                operation,
            };
            proof {
                taken = taken + 1;
                assert(rest@ =~= all.skip(taken));
            }
        }
        proof {
            assert(all.take(taken) =~= all);
        }
        result
    }
}


/// How many of `shapes` contain `point`.
pub open spec fn count_containing<P, S: Shape<P>>(shapes: Seq<S>, point: P) -> nat
    decreases shapes.len(),
{
    if shapes.len() == 0 {
        0
    } else {
        count_containing(shapes.drop_last(), point) + if shapes.last().contains(point) {
            1nat
        } else {
            0nat
        }
    }
}

/// A point lies inside an intersection of shapes exactly when it lies inside every one of them.
pub proof fn lemma_of_intersection_contains_all<P, S: Shape<P>>(shapes: Seq<S>, point: P)
    requires
        shapes.len() >= 2,
    ensures
        chain(shapes, SetOperation::Intersection).contains(point) <==> (forall|i: int|
            0 <= i < shapes.len() ==> #[trigger] shapes[i].contains(point)),
    decreases shapes.len(),
{
    if shapes.len() > 2 {
        lemma_of_intersection_contains_all(shapes.drop_last(), point);
        assert(forall|i: int| 0 <= i < shapes.len() - 1 ==> shapes.drop_last()[i] == shapes[i]);
    }
}

/// A point lies inside a union of shapes exactly when it lies inside at least one of them.
pub proof fn lemma_of_union_contains_any<P, S: Shape<P>>(shapes: Seq<S>, point: P)
    requires
        shapes.len() >= 2,
    ensures
        chain(shapes, SetOperation::Union).contains(point) <==> (exists|i: int|
            0 <= i < shapes.len() && #[trigger] shapes[i].contains(point)),
    decreases shapes.len(),
{
    if shapes.len() > 2 {
        lemma_of_union_contains_any(shapes.drop_last(), point);
        assert(forall|i: int| 0 <= i < shapes.len() - 1 ==> shapes.drop_last()[i] == shapes[i]);
        if shapes.last().contains(point) {
            assert(shapes[shapes.len() - 1].contains(point));
        }
    } else {
        if shapes[0].contains(point) {
            assert(shapes[0].contains(point));
        }
        if shapes[1].contains(point) {
            assert(shapes[1].contains(point));
        }
    }
}

/// A point lies inside a complement chain exactly when it lies inside the first shape
/// and inside none of the others.
pub proof fn lemma_of_complement_contains_first_only<P, S: Shape<P>>(shapes: Seq<S>, point: P)
    requires
        shapes.len() >= 2,
    ensures
        chain(shapes, SetOperation::Complement).contains(point) <==> (shapes[0].contains(point)
            && forall|i: int| 1 <= i < shapes.len() ==> !#[trigger] shapes[i].contains(point)),
    decreases shapes.len(),
{
    if shapes.len() > 2 {
        lemma_of_complement_contains_first_only(shapes.drop_last(), point);
        assert(forall|i: int| 0 <= i < shapes.len() - 1 ==> shapes.drop_last()[i] == shapes[i]);
        if shapes.last().contains(point) {
            assert(shapes[shapes.len() - 1].contains(point));
        }
    }
}

/// A point lies inside a symmetric-difference chain exactly when an odd number of the
/// shapes contain it.
pub proof fn lemma_of_symmetric_difference_contains_odd<P, S: Shape<P>>(shapes: Seq<S>, point: P)
    requires
        shapes.len() >= 2,
    ensures
        chain(shapes, SetOperation::SymmetricDifference).contains(point) <==> count_containing(
            shapes,
            point,
        ) % 2 == 1,
    decreases shapes.len(),
{
    let rest = shapes.drop_last();
    let c = count_containing(rest, point);
    let last_in = shapes.last().contains(point);
    assert(count_containing(shapes, point) == c + if last_in {
        1nat
    } else {
        0nat
    });
    if shapes.len() > 2 {
        lemma_of_symmetric_difference_contains_odd(rest, point);
    } else {
        assert(rest.drop_last() =~= Seq::<S>::empty());
        assert(rest.last() == shapes[0]);
        assert(count_containing(rest.drop_last(), point) == 0);
        assert(c == if shapes[0].contains(point) {
            1nat
        } else {
            0nat
        });
    }
    assert(((c + if last_in {
        1nat
    } else {
        0nat
    }) % 2 == 1) == ((c % 2 == 1) != last_in)) by (nonlinear_arith);
}


/// A point where a ray crosses the surface of a shape.
#[derive(Clone, Copy)]
pub struct Intersection<P, V> {
    pub location: P,
    pub direction: V,
    pub normal: V,
    /// How far along the ray the point lies, as a key that orders intersections as their
    /// distances do.
    pub distance: u64,
    /// Whether the surface normal is to be read pointing the other way.
    pub normal_reversed: bool,
}

impl<P, V> Intersection<P, V> {
    /// The crossing at `location` of a ray going along `direction`, with the surface normal
    /// `normal` there, `distance` along the ray.
    pub fn new(location: P, direction: V, normal: V, distance: u64) -> (x: Self)
        ensures
            x == (Intersection { location, direction, normal, distance, normal_reversed: false }),
    {
        Intersection { location, direction, normal, distance, normal_reversed: false }
    }
}

/// `x` with its normal pointing the other way.
pub open spec fn reversed<P, V>(x: Intersection<P, V>) -> Intersection<P, V> {
    Intersection {
        location: x.location,
        direction: x.direction,
        normal: x.normal,
        distance: x.distance,
        normal_reversed: !x.normal_reversed,
    }
}

fn reverse<P: Copy, V: Copy>(x: Intersection<P, V>) -> (r: Intersection<P, V>)
    ensures
        r == reversed(x),
        r.location == x.location,
        r.direction == x.direction,
        r.normal == x.normal,
        r.distance == x.distance,
        r.normal_reversed == !x.normal_reversed,
{
    Intersection {
        location: x.location,
        direction: x.direction,
        normal: x.normal,
        distance: x.distance,
        normal_reversed: !x.normal_reversed,
    }
}

/// What one round of walking two intersection streams does.
pub enum Flow<T> {
    /// Report this intersection.
    Yield(T),
    /// Report nothing and look at the streams again.
    Skip,
    /// Report the end of the stream.
    End,
}

/// One round of walking two intersection streams: what it reports and which stream it
/// moves past its current intersection.
pub struct Step<T> {
    pub flow: Flow<T>,
    pub advance_a: bool,
    pub advance_b: bool,
}

pub open spec fn step<T>(flow: Flow<T>, advance_a: bool, advance_b: bool) -> Step<T> {
    Step { flow, advance_a, advance_b }
}

/// Whether the combination's membership changes where the first shape's does, the second
/// shape's membership there being `in_b`.
pub open spec fn flips_with_a(operation: SetOperation, in_b: bool) -> bool {
    combined_membership(operation, true, in_b) != combined_membership(operation, false, in_b)
}

/// Whether the combination's membership changes where the second shape's does, the first
/// shape's membership there being `in_a`.
pub open spec fn flips_with_b(operation: SetOperation, in_a: bool) -> bool {
    combined_membership(operation, in_a, true) != combined_membership(operation, in_a, false)
}

/// Whether, where the first shape's membership changes, the combination's changes the other
/// way round, so that its outward normal is the first shape's reversed.
pub open spec fn turns_with_a(operation: SetOperation, in_b: bool) -> bool {
    combined_membership(operation, false, in_b) && !combined_membership(operation, true, in_b)
}

/// Whether, where the second shape's membership changes, the combination's changes the other
/// way round.
pub open spec fn turns_with_b(operation: SetOperation, in_a: bool) -> bool {
    combined_membership(operation, in_a, false) && !combined_membership(operation, in_a, true)
}

/// A crossing `x` of the first shape as a crossing of the combination.
pub open spec fn as_crossing_of_a<P, V>(operation: SetOperation, x: Intersection<P, V>, in_b: bool) -> Intersection<P, V> {
    if turns_with_a(operation, in_b) {
        reversed(x)
    } else {
        x
    }
}

/// A crossing `y` of the second shape as a crossing of the combination.
pub open spec fn as_crossing_of_b<P, V>(operation: SetOperation, y: Intersection<P, V>, in_a: bool) -> Intersection<P, V> {
    if turns_with_b(operation, in_a) {
        reversed(y)
    } else {
        y
    }
}

/// One round of walking the intersection streams of two combined shapes. The nearer current
/// intersection (that of the second shape on a tie) is passed over, and it is reported, as
/// a crossing of the combination, when the combination's membership changes there; when it
/// does not, the round reports nothing, or, once the other stream has ended (so that the
/// other shape's membership no longer changes), the walk ends.
pub open spec fn operation_step<P, V, S: Shape<P>>(
    operation: SetOperation,
    a: Option<Intersection<P, V>>,
    b: Option<Intersection<P, V>>,
    shape_a: ShapeNode<S>,
    shape_b: ShapeNode<S>,
) -> Step<Intersection<P, V>> {
    match (a, b) {
        (Some(x), Some(y)) => if x.distance < y.distance {
            let in_b = node_contains(shape_b, x.location);
            step(
                if flips_with_a(operation, in_b) {
                    Flow::Yield(as_crossing_of_a(operation, x, in_b))
                } else {
                    Flow::Skip
                },
                true,
                false,
            )
        } else {
            let in_a = node_contains(shape_a, y.location);
            step(
                if flips_with_b(operation, in_a) {
                    Flow::Yield(as_crossing_of_b(operation, y, in_a))
                } else {
                    Flow::Skip
                },
                false,
                true,
            )
        },
        (Some(x), None) => {
            let in_b = node_contains(shape_b, x.location);
            step(
                if flips_with_a(operation, in_b) {
                    Flow::Yield(as_crossing_of_a(operation, x, in_b))
                } else {
                    Flow::End
                },
                true,
                false,
            )
        },
        (None, Some(y)) => {
            let in_a = node_contains(shape_a, y.location);
            step(
                if flips_with_b(operation, in_a) {
                    Flow::Yield(as_crossing_of_b(operation, y, in_a))
                } else {
                    Flow::End
                },
                false,
                true,
            )
        },
        (None, None) => step(Flow::End, false, false),
    }
}

/// Whether a point lies inside the combination, given whether it lies inside each part.
pub fn combine(operation: SetOperation, in_a: bool, in_b: bool) -> (inside: bool)
    ensures
        inside == combined_membership(operation, in_a, in_b),
{
    match operation {
        SetOperation::Union => in_a || in_b,
        SetOperation::Intersection => in_a && in_b,
        SetOperation::Complement => in_a && !in_b,
        SetOperation::SymmetricDifference => in_a != in_b,
    }
}

/// The round that passes over `x`, a crossing of the first shape; `ended` tells whether the
/// second stream has ended.
fn round_of_a<P: Copy, V: Copy, S: Shape<P>>(
    operation: SetOperation,
    x: Intersection<P, V>,
    shape_b: &ShapeNode<S>,
    ended: bool,
) -> (r: Step<Intersection<P, V>>)
    ensures
        ({
            let in_b = node_contains(*shape_b, x.location);
            r == step(
                if flips_with_a(operation, in_b) {
                    Flow::Yield(as_crossing_of_a(operation, x, in_b))
                } else if ended {
                    Flow::End
                } else {
                    Flow::Skip
                },
                true,
                false,
            )
        }),
{
    let in_b = shape_b.is_point_inside(&x.location);
    let inside_after = combine(operation, true, in_b);
    let inside_before = combine(operation, false, in_b);
    let flow = if inside_after != inside_before {
        Flow::Yield(if inside_before && !inside_after { reverse(x) } else { x })
    } else if ended {
        Flow::End
    } else {
        Flow::Skip
    };
    Step { flow, advance_a: true, advance_b: false }
}

/// The round that passes over `y`, a crossing of the second shape; `ended` tells whether the
/// first stream has ended.
fn round_of_b<P: Copy, V: Copy, S: Shape<P>>(
    operation: SetOperation,
    y: Intersection<P, V>,
    shape_a: &ShapeNode<S>,
    ended: bool,
) -> (r: Step<Intersection<P, V>>)
    ensures
        ({
            let in_a = node_contains(*shape_a, y.location);
            r == step(
                if flips_with_b(operation, in_a) {
                    Flow::Yield(as_crossing_of_b(operation, y, in_a))
                } else if ended {
                    Flow::End
                } else {
                    Flow::Skip
                },
                false,
                true,
            )
        }),
{
    let in_a = shape_a.is_point_inside(&y.location);
    let inside_after = combine(operation, in_a, true);
    let inside_before = combine(operation, in_a, false);
    let flow = if inside_after != inside_before {
        Flow::Yield(if inside_before && !inside_after { reverse(y) } else { y })
    } else if ended {
        Flow::End
    } else {
        Flow::Skip
    };
    Step { flow, advance_a: false, advance_b: true }
}

/// One round of the walk, as `operation_step` describes it.
pub fn decide_step<P: Copy, V: Copy, S: Shape<P>>(
    operation: SetOperation,
    a: Option<Intersection<P, V>>,
    b: Option<Intersection<P, V>>,
    shape_a: &ShapeNode<S>,
    shape_b: &ShapeNode<S>,
) -> (r: Step<Intersection<P, V>>)
    ensures
        r == operation_step(operation, a, b, *shape_a, *shape_b),
{
    match (a, b) {
        (Some(x), Some(y)) => {
            if x.distance < y.distance {
                round_of_a(operation, x, shape_b, false)
            } else {
                round_of_b(operation, y, shape_a, false)
            }
        },
        (Some(x), None) => round_of_a(operation, x, shape_b, true),
        (None, Some(y)) => round_of_b(operation, y, shape_a, true),
        (None, None) => Step { flow: Flow::End, advance_a: false, advance_b: false },
    }
}


/// Walks the intersection streams of the two parts of a composed shape, reporting those
/// of the composed shape.
pub struct ComposableShapeIterator<'s, P, V, S, IA, IB> {
    shape_a: &'s ShapeNode<S>,
    shape_b: &'s ShapeNode<S>,
    operation: SetOperation,
    provider_a: Provider<Intersection<P, V>, IA>,
    provider_b: Provider<Intersection<P, V>, IB>,
    index_a: usize,
    index_b: usize,
}

impl<'s, P: Copy, V: Copy, S: Shape<P>, IA: Iterator<Item = Intersection<P, V>>, IB: Iterator<
    Item = Intersection<P, V>,
>> ComposableShapeIterator<'s, P, V, S, IA, IB> {
    pub closed spec fn shape_a(&self) -> ShapeNode<S> {
        *self.shape_a
    }

    pub closed spec fn shape_b(&self) -> ShapeNode<S> {
        *self.shape_b
    }

    pub closed spec fn operation(&self) -> SetOperation {
        self.operation
    }

    /// The intersections of the first part that have been computed so far.
    pub closed spec fn seen_a(&self) -> Seq<Option<Intersection<P, V>>> {
        self.provider_a.items()
    }

    /// The intersections of the second part that have been computed so far.
    pub closed spec fn seen_b(&self) -> Seq<Option<Intersection<P, V>>> {
        self.provider_b.items()
    }

    /// The position of the current intersection of the first part.
    pub closed spec fn index_a(&self) -> nat {
        self.index_a as nat
    }

    /// The position of the current intersection of the second part.
    pub closed spec fn index_b(&self) -> nat {
        self.index_b as nat
    }

    pub closed spec fn source_a(&self) -> IA {
        self.provider_a.source()
    }

    pub closed spec fn source_b(&self) -> IB {
        self.provider_b.source()
    }

    /// Starts walking the intersections of `shape_a` (from `source_a`) and of `shape_b`
    /// (from `source_b`), combined by `operation`.
    pub fn new(
        shape_a: &'s ShapeNode<S>,
        shape_b: &'s ShapeNode<S>,
        operation: SetOperation,
        source_a: IA,
        source_b: IB,
    ) -> (iter: Self)
        ensures
            iter.shape_a() == *shape_a,
            iter.shape_b() == *shape_b,
            iter.operation() == operation,
            iter.seen_a() == Seq::<Option<Intersection<P, V>>>::empty(),
            iter.seen_b() == Seq::<Option<Intersection<P, V>>>::empty(),
            iter.source_a() == source_a,
            iter.source_b() == source_b,
            iter.index_a() == 0,
            iter.index_b() == 0,
    {
        ComposableShapeIterator {
            shape_a,
            shape_b,
            operation,
            provider_a: Provider::new(source_a),
            provider_b: Provider::new(source_b),
            index_a: 0,
            index_b: 0,
        }
    }

    /// One round of the walk: looks at the current intersection of each part and decides,
    /// by `operation_step`, what to report and which part to move on.
    pub fn step(&mut self) -> (flow: Flow<Intersection<P, V>>)
        requires
            old(self).index_a() < usize::MAX,
            old(self).index_b() < usize::MAX,
        ensures
            ({
                let a = final(self).seen_a()[old(self).index_a() as int];
                let b = final(self).seen_b()[old(self).index_b() as int];
                let s = operation_step(
                    old(self).operation(),
                    a,
                    b,
                    old(self).shape_a(),
                    old(self).shape_b(),
                );
                &&& flow == s.flow
                &&& final(self).index_a() == old(self).index_a() + if s.advance_a {
                    1nat
                } else {
                    0nat
                }
                &&& final(self).index_b() == old(self).index_b() + if s.advance_b {
                    1nat
                } else {
                    0nat
                }
            }),
            final(self).shape_a() == old(self).shape_a(),
            final(self).shape_b() == old(self).shape_b(),
            final(self).operation() == old(self).operation(),
            provides(
                old(self).seen_a(),
                final(self).seen_a(),
                old(self).index_a() as int,
                final(self).seen_a()[old(self).index_a() as int],
            ),
            provides(
                old(self).seen_b(),
                final(self).seen_b(),
                old(self).index_b() as int,
                final(self).seen_b()[old(self).index_b() as int],
            ),
            final(self).source_a().obeys_prophetic_iter_laws() == old(
                self,
            ).source_a().obeys_prophetic_iter_laws(),
            final(self).source_b().obeys_prophetic_iter_laws() == old(
                self,
            ).source_b().obeys_prophetic_iter_laws(),
            old(self).source_a().obeys_prophetic_iter_laws() ==> continues(
                old(self).source_a().remaining(),
                old(self).seen_a().len() as int,
                final(self).seen_a(),
                final(self).source_a().remaining(),
            ),
            old(self).source_b().obeys_prophetic_iter_laws() ==> continues(
                old(self).source_b().remaining(),
                old(self).seen_b().len() as int,
                final(self).seen_b(),
                final(self).source_b().remaining(),
            ),
    {
        let a = self.provider_a.get(self.index_a);
        let b = self.provider_b.get(self.index_b);
        let s = decide_step(self.operation, a, b, self.shape_a, self.shape_b);
        if s.advance_a {
            self.index_a = self.index_a + 1;
        }
        if s.advance_b {
            self.index_b = self.index_b + 1;
        }
        s.flow
    }

    /// Takes rounds of the walk, as `walk_from` describes them, until one reports an
    /// intersection of the combined shape, which is returned, or ends the walk, when `None`
    /// is returned. The streams themselves are left as they were.
    pub fn next(&mut self) -> (z: Option<Intersection<P, V>>)
        requires
            old(self).source_a().obeys_prophetic_iter_laws(),
            old(self).source_b().obeys_prophetic_iter_laws(),
            old(self).index_a() < usize::MAX,
            old(self).index_b() < usize::MAX,
            within_positions(stream_view(old(self).seen_a(), old(self).source_a().remaining())),
            within_positions(stream_view(old(self).seen_b(), old(self).source_b().remaining())),
        ensures
            ({
                let w = walk_from(
                    old(self).operation(),
                    stream_view(old(self).seen_a(), old(self).source_a().remaining()),
                    stream_view(old(self).seen_b(), old(self).source_b().remaining()),
                    old(self).shape_a(),
                    old(self).shape_b(),
                    old(self).index_a() as int,
                    old(self).index_b() as int,
                );
                &&& z == w.0
                &&& final(self).index_a() == w.1
                &&& final(self).index_b() == w.2
            }),
            final(self).index_a() < usize::MAX,
            final(self).index_b() < usize::MAX,
            final(self).shape_a() == old(self).shape_a(),
            final(self).shape_b() == old(self).shape_b(),
            final(self).operation() == old(self).operation(),
            final(self).source_a().obeys_prophetic_iter_laws(),
            final(self).source_b().obeys_prophetic_iter_laws(),
            forall|k: int|
                #[trigger] current(stream_view(final(self).seen_a(), final(self).source_a().remaining()), k)
                    == current(stream_view(old(self).seen_a(), old(self).source_a().remaining()), k),
            forall|k: int|
                #[trigger] current(stream_view(final(self).seen_b(), final(self).source_b().remaining()), k)
                    == current(stream_view(old(self).seen_b(), old(self).source_b().remaining()), k),
    {
        let ghost sa = stream_view(self.seen_a(), self.source_a().remaining());
        let ghost sb = stream_view(self.seen_b(), self.source_b().remaining());
        let ghost start = walk_from(
            self.operation(),
            sa,
            sb,
            self.shape_a(),
            self.shape_b(),
            self.index_a() as int,
            self.index_b() as int,
        );
        loop
            invariant
                self.shape_a() == old(self).shape_a(),
                self.shape_b() == old(self).shape_b(),
                self.operation() == old(self).operation(),
                sa == stream_view(old(self).seen_a(), old(self).source_a().remaining()),
                sb == stream_view(old(self).seen_b(), old(self).source_b().remaining()),
                self.source_a().obeys_prophetic_iter_laws(),
                self.source_b().obeys_prophetic_iter_laws(),
                forall|k: int|
                    #[trigger] current(stream_view(self.seen_a(), self.source_a().remaining()), k)
                        == current(sa, k),
                forall|k: int|
                    #[trigger] current(stream_view(self.seen_b(), self.source_b().remaining()), k)
                        == current(sb, k),
                within_positions(sa),
                within_positions(sb),
                self.index_a() < usize::MAX,
                self.index_b() < usize::MAX,
                start == walk_from(
                    old(self).operation(),
                    sa,
                    sb,
                    old(self).shape_a(),
                    old(self).shape_b(),
                    old(self).index_a() as int,
                    old(self).index_b() as int,
                ),
                walk_from(
                    self.operation(),
                    sa,
                    sb,
                    self.shape_a(),
                    self.shape_b(),
                    self.index_a() as int,
                    self.index_b() as int,
                ) == start,
            decreases (usize::MAX - self.index_a()) + (usize::MAX - self.index_b()),
        {
            let ghost before_a = self.seen_a();
            let ghost before_b = self.seen_b();
            let ghost rest_a = self.source_a().remaining();
            let ghost rest_b = self.source_b().remaining();
            let ghost i = self.index_a() as int;
            let ghost j = self.index_b() as int;
            let flow = self.step();
            proof {
                lemma_provider_keeps_stream(
                    before_a,
                    self.seen_a(),
                    rest_a,
                    self.source_a().remaining(),
                    i,
                    self.seen_a()[i],
                );
                lemma_provider_keeps_stream(
                    before_b,
                    self.seen_b(),
                    rest_b,
                    self.source_b().remaining(),
                    j,
                    self.seen_b()[j],
                );
                assert(current(stream_view(before_a, rest_a), i) == current(sa, i));
                assert(current(stream_view(before_b, rest_b), j) == current(sb, j));
                assert(current(sa, usize::MAX - 1) is None);
                assert(current(sb, usize::MAX - 1) is None);
            }
            match flow {
                Flow::Yield(x) => {
                    return Some(x);
                },
                Flow::End => {
                    return None;
                },
                Flow::Skip => {},
            }
        }
    }
}

impl<S> ComposableShape<S> {
    /// Starts walking the intersections of this shape with a ray, given the intersections
    /// of the ray with each of its two parts.
    pub fn intersect_linear<'s, P: Copy, V: Copy, IA: Iterator<Item = Intersection<P, V>>, IB: Iterator<
        Item = Intersection<P, V>,
    >>(&'s self, intersections_a: IA, intersections_b: IB) -> (iter: ComposableShapeIterator<
        's,
        P,
        V,
        S,
        IA,
        IB,
    >) where S: Shape<P>
        ensures
            iter.shape_a() == *self.a,
            iter.shape_b() == *self.b,
            iter.operation() == self.operation,
            iter.seen_a() == Seq::<Option<Intersection<P, V>>>::empty(),
            iter.seen_b() == Seq::<Option<Intersection<P, V>>>::empty(),
            iter.source_a() == intersections_a,
            iter.source_b() == intersections_b,
            iter.index_a() == 0,
            iter.index_b() == 0,
    {
        ComposableShapeIterator::new(&self.a, &self.b, self.operation, intersections_a, intersections_b)
    }
}


/// Everything that a stream gives, position by position, when `seen` has been computed and
/// its source still has `rest` to give; `current` reads it as `None` from its end on.
pub open spec fn stream_view<T>(seen: Seq<Option<T>>, rest: Seq<T>) -> Seq<Option<T>> {
    seen + rest.map_values(|x: T| Some(x))
}

/// How many positions of `stream` lie at or after `index`.
pub open spec fn ahead<T>(stream: Seq<T>, index: int) -> nat {
    if 0 <= index < stream.len() {
        (stream.len() - index) as nat
    } else {
        0
    }
}

/// No intersection of the stream lies at a position that an index of the machine cannot
/// move past.
pub open spec fn within_positions<T>(stream: Seq<Option<T>>) -> bool {
    forall|k: int| usize::MAX - 1 <= k ==> #[trigger] current(stream, k) is None
}

/// The walk over the streams `sa` and `sb` from the positions `i` and `j`: rounds are taken
/// by `operation_step` until one reports an intersection or ends the walk. Gives what is
/// reported, if anything, and the positions that the walk has then reached.
pub open spec fn walk_from<P, V, S: Shape<P>>(
    operation: SetOperation,
    sa: Seq<Option<Intersection<P, V>>>,
    sb: Seq<Option<Intersection<P, V>>>,
    shape_a: ShapeNode<S>,
    shape_b: ShapeNode<S>,
    i: int,
    j: int,
) -> (Option<Intersection<P, V>>, int, int)
    decreases ahead(sa, i) + ahead(sb, j),
{
    let s = operation_step(operation, current(sa, i), current(sb, j), shape_a, shape_b);
    let ni = if s.advance_a {
        i + 1
    } else {
        i
    };
    let nj = if s.advance_b {
        j + 1
    } else {
        j
    };
    match s.flow {
        Flow::Yield(x) => (Some(x), ni, nj),
        Flow::End => (None, ni, nj),
        Flow::Skip => walk_from(operation, sa, sb, shape_a, shape_b, ni, nj),
    }
}

/// A provider that answers a request keeps every position of the stream as it was, and its
/// answer is the stream's value at the position asked for.
proof fn lemma_provider_keeps_stream<T>(
    seen: Seq<Option<T>>,
    after: Seq<Option<T>>,
    rest: Seq<T>,
    rest_after: Seq<T>,
    index: int,
    item: Option<T>,
)
    requires
        0 <= index,
        provides(seen, after, index, item),
        continues(rest, seen.len() as int, after, rest_after),
    ensures
        forall|k: int|
            #[trigger] current(stream_view(after, rest_after), k) == current(
                stream_view(seen, rest),
                k,
            ),
        item == current(stream_view(seen, rest), index),
{
    let before_view = stream_view(seen, rest);
    let after_view = stream_view(after, rest_after);
    let n = after.len() - seen.len();
    let taken = if n < rest.len() {
        n
    } else {
        rest.len() as int
    };
    assert forall|k: int| #[trigger] current(after_view, k) == current(before_view, k) by {
        if 0 <= k < seen.len() {
            assert(after[k] == after.subrange(0, seen.len() as int)[k]);
        } else if seen.len() <= k < after.len() {
            assert(after[k] == output_at(rest, k - seen.len()));
        } else if after.len() <= k {
            let r = k - after.len();
            if r < rest_after.len() {
                assert(rest_after[r] == rest[r + taken]);
            }
        }
    }
    assert(current(after_view, index) == after[index]);
}

/// In every operation, when both streams have a current intersection, what a round
/// reports is the nearer of the two.
pub proof fn lemma_step_reports_nearer<P, V, S: Shape<P>>(
    operation: SetOperation,
    x: Intersection<P, V>,
    y: Intersection<P, V>,
    shape_a: ShapeNode<S>,
    shape_b: ShapeNode<S>,
)
    ensures
        operation_step(operation, Some(x), Some(y), shape_a, shape_b).flow matches Flow::Yield(z)
            ==> z.distance <= x.distance && z.distance <= y.distance,
{
}

/// A union reports only intersections that lie outside the other shape, unchanged.
pub proof fn lemma_union_reports_outside_other<P, V, S: Shape<P>>(
    a: Option<Intersection<P, V>>,
    b: Option<Intersection<P, V>>,
    shape_a: ShapeNode<S>,
    shape_b: ShapeNode<S>,
)
    ensures
        operation_step(SetOperation::Union, a, b, shape_a, shape_b).flow matches Flow::Yield(z) ==> (a == Some(z)
            && !node_contains(shape_b, z.location)) || (b == Some(z) && !node_contains(
            shape_a,
            z.location,
        )),
{
}

/// An intersection of shapes reports only intersections that lie inside the other
/// shape, unchanged.
pub proof fn lemma_intersection_reports_inside_other<P, V, S: Shape<P>>(
    a: Option<Intersection<P, V>>,
    b: Option<Intersection<P, V>>,
    shape_a: ShapeNode<S>,
    shape_b: ShapeNode<S>,
)
    ensures
        operation_step(SetOperation::Intersection, a, b, shape_a, shape_b).flow matches Flow::Yield(z) ==> (a == Some(z)
            && node_contains(shape_b, z.location)) || (b == Some(z) && node_contains(
            shape_a,
            z.location,
        )),
{
}

/// A complement reports intersections of the first shape that lie outside the second,
/// unchanged, and intersections of the second shape that lie inside the first, with their
/// normals reversed.
pub proof fn lemma_complement_reports<P, V, S: Shape<P>>(
    a: Option<Intersection<P, V>>,
    b: Option<Intersection<P, V>>,
    shape_a: ShapeNode<S>,
    shape_b: ShapeNode<S>,
)
    ensures
        operation_step(SetOperation::Complement, a, b, shape_a, shape_b).flow matches Flow::Yield(z)
            ==> (a == Some(z) && !node_contains(shape_b, z.location)) || (exists|y: Intersection<P, V>|
            b == Some(y) && z == reversed(y) && node_contains(shape_a, y.location)),
{
    if let Flow::Yield(z) = operation_step(SetOperation::Complement, a, b, shape_a, shape_b).flow {
        if let Some(y) = b {
            if z == reversed(y) && node_contains(shape_a, y.location) {
                assert(b == Some(y) && z == reversed(y) && node_contains(shape_a, y.location));
            }
        }
    }
}

/// A symmetric difference reports every intersection of both streams, one per round,
/// with the normal reversed exactly when it lies inside the other shape; it ends only
/// when both streams have ended.
pub proof fn lemma_symmetric_difference_reports_everything<P, V, S: Shape<P>>(
    a: Option<Intersection<P, V>>,
    b: Option<Intersection<P, V>>,
    shape_a: ShapeNode<S>,
    shape_b: ShapeNode<S>,
)
    ensures
        ({
            let s = operation_step(SetOperation::SymmetricDifference, a, b, shape_a, shape_b);
            &&& (s.flow is End) <==> (a is None && b is None)
            &&& !(s.flow is Skip)
            &&& s.flow matches Flow::Yield(z) ==> ((s.advance_a && !s.advance_b && a is Some && z == (
            if node_contains(shape_b, a->0.location) {
                reversed(a->0)
            } else {
                a->0
            })) || (s.advance_b && !s.advance_a && b is Some && z == (if node_contains(
                shape_a,
                b->0.location,
            ) {
                reversed(b->0)
            } else {
                b->0
            })))
        }),
{
}

/// Every round that reports or skips an intersection moves exactly one stream on by one,
/// past an intersection that it had; the walk ends only once no stream can make the
/// combination's membership change any more.
pub proof fn lemma_step_moves_one_stream<P, V, S: Shape<P>>(
    operation: SetOperation,
    a: Option<Intersection<P, V>>,
    b: Option<Intersection<P, V>>,
    shape_a: ShapeNode<S>,
    shape_b: ShapeNode<S>,
)
    ensures
        ({
            let s = operation_step(operation, a, b, shape_a, shape_b);
            &&& s.advance_a ==> a is Some
            &&& s.advance_b ==> b is Some
            &&& !(s.flow is End) ==> s.advance_a != s.advance_b
            &&& (a is None && b is None) ==> s.flow is End
        }),
{
}


/// The intersection at `index` of a stream of which `seen` has been computed; `None`
/// past what has been computed.
pub open spec fn current<T>(seen: Seq<Option<T>>, index: int) -> Option<T> {
    if 0 <= index < seen.len() {
        seen[index]
    } else {
        None
    }
}

/// The intersections of the stream come nearest first.
pub open spec fn sorted_stream<P, V>(seen: Seq<Option<Intersection<P, V>>>) -> bool {
    forall|i: int, j: int|
        #![trigger seen[i], seen[j]]
        0 <= i <= j < seen.len() && seen[i] is Some && seen[j] is Some ==> seen[i]->0.distance
            <= seen[j]->0.distance
}

/// The intersections come nearest first.
pub open spec fn sorted_by_distance<P, V>(intersections: Seq<Intersection<P, V>>) -> bool {
    forall|i: int, j: int|
        #![trigger intersections[i], intersections[j]]
        0 <= i <= j < intersections.len() ==> intersections[i].distance
            <= intersections[j].distance
}

/// What a walk has computed of a stream whose source gives its intersections nearest first
/// comes nearest first as well.
pub proof fn lemma_sorted_source_gives_sorted_stream<P, V>(
    source: Seq<Intersection<P, V>>,
    seen: Seq<Option<Intersection<P, V>>>,
    rest: Seq<Intersection<P, V>>,
)
    requires
        sorted_by_distance(source),
        continues(source, 0, seen, rest),
    ensures
        sorted_stream(seen),
{
    assert forall|i: int, j: int|
        0 <= i <= j < seen.len() && seen[i] is Some && seen[j] is Some implies #[trigger] seen[i]->0.distance
        <= #[trigger] seen[j]->0.distance by {
        assert(seen[i] == output_at(source, i));
        assert(seen[j] == output_at(source, j));
    }
}

/// The first intersection of a stream, if any.
pub open spec fn head<T>(s: Seq<T>) -> Option<T> {
    if s.len() > 0 {
        Some(s[0])
    } else {
        None
    }
}

/// What the walk of two combined shapes reports, round after round until it ends, when the
/// first shape's intersections along the ray are `xs` and the second's are `ys`.
pub open spec fn walk_output<P, V, S: Shape<P>>(
    operation: SetOperation,
    xs: Seq<Intersection<P, V>>,
    ys: Seq<Intersection<P, V>>,
    shape_a: ShapeNode<S>,
    shape_b: ShapeNode<S>,
) -> Seq<Intersection<P, V>>
    decreases xs.len() + ys.len(),
{
    let s = operation_step(operation, head(xs), head(ys), shape_a, shape_b);
    let xs2 = if s.advance_a && xs.len() > 0 {
        xs.drop_first()
    } else {
        xs
    };
    let ys2 = if s.advance_b && ys.len() > 0 {
        ys.drop_first()
    } else {
        ys
    };
    if xs2.len() + ys2.len() < xs.len() + ys.len() {
        match s.flow {
            Flow::Yield(z) => seq![z] + walk_output(operation, xs2, ys2, shape_a, shape_b),
            Flow::Skip => walk_output(operation, xs2, ys2, shape_a, shape_b),
            Flow::End => Seq::empty(),
        }
    } else {
        Seq::empty()
    }
}

/// The crossings of the combination of two shapes along a ray, nearest first, when the
/// first shape's crossings are `xs` and the second's are `ys`, each nearest first: every
/// crossing of either shape at which the combination's membership changes, with its normal
/// turned where the combination changes the other way round.
pub open spec fn combined_crossings<P, V, S: Shape<P>>(
    operation: SetOperation,
    xs: Seq<Intersection<P, V>>,
    ys: Seq<Intersection<P, V>>,
    shape_a: ShapeNode<S>,
    shape_b: ShapeNode<S>,
) -> Seq<Intersection<P, V>>
    decreases xs.len() + ys.len(),
{
    if xs.len() == 0 && ys.len() == 0 {
        Seq::empty()
    } else if ys.len() == 0 || (xs.len() > 0 && xs[0].distance < ys[0].distance) {
        let in_b = node_contains(shape_b, xs[0].location);
        let rest = combined_crossings(operation, xs.drop_first(), ys, shape_a, shape_b);
        if flips_with_a(operation, in_b) {
            seq![as_crossing_of_a(operation, xs[0], in_b)] + rest
        } else {
            rest
        }
    } else {
        let in_a = node_contains(shape_a, ys[0].location);
        let rest = combined_crossings(operation, xs, ys.drop_first(), shape_a, shape_b);
        if flips_with_b(operation, in_a) {
            seq![as_crossing_of_b(operation, ys[0], in_a)] + rest
        } else {
            rest
        }
    }
}

/// Whether `shape` holds the same of any two crossings in `other` between which none of its
/// own crossings `own` lies: its membership changes only where it is crossed.
pub open spec fn changes_only_at<P, V, S: Shape<P>>(
    shape: ShapeNode<S>,
    own: Seq<Intersection<P, V>>,
    other: Seq<Intersection<P, V>>,
) -> bool {
    forall|j: int, k: int|
        #![trigger other[j], other[k]]
        0 <= j < k < other.len() && (forall|i: int|
            0 <= i < own.len() ==> !(other[j].distance < #[trigger] own[i].distance
                < other[k].distance)) ==> node_contains(shape, other[j].location)
            == node_contains(shape, other[k].location)
}

proof fn lemma_sorted_rest<P, V>(xs: Seq<Intersection<P, V>>)
    requires
        xs.len() > 0,
        sorted_by_distance(xs),
    ensures
        sorted_by_distance(xs.drop_first()),
        forall|k: int| 0 <= k < xs.drop_first().len() ==> xs[0].distance <= #[trigger] xs.drop_first()[k].distance,
{
    assert forall|i: int, j: int| 0 <= i <= j < xs.drop_first().len() implies #[trigger] xs.drop_first()[i].distance
        <= #[trigger] xs.drop_first()[j].distance by {
        assert(xs[i + 1].distance <= xs[j + 1].distance);
    }
    assert forall|k: int| 0 <= k < xs.drop_first().len() implies xs[0].distance <= #[trigger] xs.drop_first()[k].distance by {
        assert(xs[0].distance <= xs[k + 1].distance);
    }
}

/// Dropping the nearest crossing of `own`, which lies before every crossing in `other`,
/// keeps `shape`'s membership changing only at its crossings.
proof fn lemma_changes_only_at_past_first<P, V, S: Shape<P>>(
    shape: ShapeNode<S>,
    own: Seq<Intersection<P, V>>,
    other: Seq<Intersection<P, V>>,
)
    requires
        own.len() > 0,
        changes_only_at(shape, own, other),
        forall|k: int| 0 <= k < other.len() ==> own[0].distance <= #[trigger] other[k].distance,
    ensures
        changes_only_at(shape, own.drop_first(), other),
{
    let rest = own.drop_first();
    assert forall|j: int, k: int|
        #![trigger other[j], other[k]]
        0 <= j < k < other.len() && (forall|i: int|
            0 <= i < rest.len() ==> !(other[j].distance < #[trigger] rest[i].distance
                < other[k].distance)) implies node_contains(shape, other[j].location)
        == node_contains(shape, other[k].location) by {
        assert forall|i: int| 0 <= i < own.len() implies !(other[j].distance < #[trigger] own[i].distance
            < other[k].distance) by {
            if i > 0 {
                assert(own[i] == rest[i - 1]);
            } else {
                assert(own[0].distance <= other[j].distance);
            }
        }
    }
}

/// Dropping the nearest crossing in `other` keeps `shape`'s membership changing only at its
/// crossings.
proof fn lemma_changes_only_at_fewer<P, V, S: Shape<P>>(
    shape: ShapeNode<S>,
    own: Seq<Intersection<P, V>>,
    other: Seq<Intersection<P, V>>,
)
    requires
        other.len() > 0,
        changes_only_at(shape, own, other),
    ensures
        changes_only_at(shape, own, other.drop_first()),
{
    let rest = other.drop_first();
    assert forall|j: int, k: int|
        #![trigger rest[j], rest[k]]
        0 <= j < k < rest.len() && (forall|i: int|
            0 <= i < own.len() ==> !(rest[j].distance < #[trigger] own[i].distance
                < rest[k].distance)) implies node_contains(shape, rest[j].location)
        == node_contains(shape, rest[k].location) by {
        assert(rest[j] == other[j + 1] && rest[k] == other[k + 1]);
    }
}

/// Once the other stream has ended, crossings at none of which the combination changes
/// give nothing more.
proof fn lemma_no_flips_after_a<P, V, S: Shape<P>>(
    operation: SetOperation,
    xs: Seq<Intersection<P, V>>,
    shape_a: ShapeNode<S>,
    shape_b: ShapeNode<S>,
)
    requires
        forall|k: int| 0 <= k < xs.len() ==> !flips_with_a(operation, node_contains(shape_b, #[trigger] xs[k].location)),
    ensures
        combined_crossings(operation, xs, Seq::empty(), shape_a, shape_b) == Seq::<Intersection<P, V>>::empty(),
    decreases xs.len(),
{
    if xs.len() > 0 {
        assert(!flips_with_a(operation, node_contains(shape_b, xs[0].location)));
        assert forall|k: int| 0 <= k < xs.drop_first().len() implies !flips_with_a(operation, node_contains(shape_b, #[trigger] xs.drop_first()[k].location)) by {
            assert(xs.drop_first()[k] == xs[k + 1]);
        }
        lemma_no_flips_after_a(operation, xs.drop_first(), shape_a, shape_b);
    }
}

proof fn lemma_no_flips_after_b<P, V, S: Shape<P>>(
    operation: SetOperation,
    ys: Seq<Intersection<P, V>>,
    shape_a: ShapeNode<S>,
    shape_b: ShapeNode<S>,
)
    requires
        forall|k: int| 0 <= k < ys.len() ==> !flips_with_b(operation, node_contains(shape_a, #[trigger] ys[k].location)),
    ensures
        combined_crossings(operation, Seq::empty(), ys, shape_a, shape_b) == Seq::<Intersection<P, V>>::empty(),
    decreases ys.len(),
{
    if ys.len() > 0 {
        assert(!flips_with_b(operation, node_contains(shape_a, ys[0].location)));
        assert forall|k: int| 0 <= k < ys.drop_first().len() implies !flips_with_b(operation, node_contains(shape_a, #[trigger] ys.drop_first()[k].location)) by {
            assert(ys.drop_first()[k] == ys[k + 1]);
        }
        lemma_no_flips_after_b(operation, ys.drop_first(), shape_a, shape_b);
    }
}

/// The walk of two combined shapes reports exactly the crossings of the combination, each
/// once, nearest first, and then ends: given each shape's crossings along the ray nearest
/// first, and each shape's membership changing only where it is crossed.
pub proof fn lemma_walk_reports_combined_crossings<P, V, S: Shape<P>>(
    operation: SetOperation,
    xs: Seq<Intersection<P, V>>,
    ys: Seq<Intersection<P, V>>,
    shape_a: ShapeNode<S>,
    shape_b: ShapeNode<S>,
)
    requires
        sorted_by_distance(xs),
        sorted_by_distance(ys),
        changes_only_at(shape_a, xs, ys),
        changes_only_at(shape_b, ys, xs),
    ensures
        walk_output(operation, xs, ys, shape_a, shape_b) == combined_crossings(
            operation,
            xs,
            ys,
            shape_a,
            shape_b,
        ),
    decreases xs.len() + ys.len(),
{
    if xs.len() == 0 && ys.len() == 0 {
    } else if ys.len() == 0 || (xs.len() > 0 && xs[0].distance < ys[0].distance) {
        let x = xs[0];
        let in_b = node_contains(shape_b, x.location);
        lemma_sorted_rest(xs);
        if ys.len() == 0 && !flips_with_a(operation, in_b) {
            assert forall|k: int| 0 <= k < xs.drop_first().len() implies !flips_with_a(operation, node_contains(shape_b, #[trigger] xs.drop_first()[k].location)) by {
                assert(xs.drop_first()[k] == xs[k + 1]);
                assert(forall|i: int| 0 <= i < ys.len() ==> !(xs[0].distance < #[trigger] ys[i].distance < xs[k + 1].distance));
                assert(node_contains(shape_b, xs[0].location) == node_contains(shape_b, xs[k + 1].location));
            }
            lemma_no_flips_after_a(operation, xs.drop_first(), shape_a, shape_b);
            assert(walk_output(operation, xs, ys, shape_a, shape_b) == Seq::<Intersection<P, V>>::empty());
            assert(combined_crossings(operation, xs, ys, shape_a, shape_b) == combined_crossings(
                operation,
                xs.drop_first(),
                ys,
                shape_a,
                shape_b,
            ));
            assert(ys =~= Seq::<Intersection<P, V>>::empty());
        } else {
            if ys.len() > 0 {
                assert forall|k: int| 0 <= k < ys.len() implies xs[0].distance <= #[trigger] ys[k].distance by {
                    assert(ys[0].distance <= ys[k].distance);
                }
            }
            lemma_changes_only_at_past_first(shape_a, xs, ys);
            lemma_changes_only_at_fewer(shape_b, ys, xs);
            lemma_walk_reports_combined_crossings(operation, xs.drop_first(), ys, shape_a, shape_b);
            let s = operation_step(operation, head(xs), head(ys), shape_a, shape_b);
            assert(s.advance_a && !s.advance_b);
            assert(walk_output(operation, xs, ys, shape_a, shape_b) == if flips_with_a(operation, in_b) {
                seq![as_crossing_of_a(operation, x, in_b)] + walk_output(operation, xs.drop_first(), ys, shape_a, shape_b)
            } else {
                walk_output(operation, xs.drop_first(), ys, shape_a, shape_b)
            });
        }
    } else {
        let y = ys[0];
        let in_a = node_contains(shape_a, y.location);
        lemma_sorted_rest(ys);
        if xs.len() == 0 && !flips_with_b(operation, in_a) {
            assert forall|k: int| 0 <= k < ys.drop_first().len() implies !flips_with_b(operation, node_contains(shape_a, #[trigger] ys.drop_first()[k].location)) by {
                assert(ys.drop_first()[k] == ys[k + 1]);
                assert(forall|i: int| 0 <= i < xs.len() ==> !(ys[0].distance < #[trigger] xs[i].distance < ys[k + 1].distance));
                assert(node_contains(shape_a, ys[0].location) == node_contains(shape_a, ys[k + 1].location));
            }
            lemma_no_flips_after_b(operation, ys.drop_first(), shape_a, shape_b);
            assert(walk_output(operation, xs, ys, shape_a, shape_b) == Seq::<Intersection<P, V>>::empty());
            assert(combined_crossings(operation, xs, ys, shape_a, shape_b) == combined_crossings(
                operation,
                xs,
                ys.drop_first(),
                shape_a,
                shape_b,
            ));
            assert(xs =~= Seq::<Intersection<P, V>>::empty());
        } else {
            if xs.len() > 0 {
                assert forall|k: int| 0 <= k < xs.len() implies ys[0].distance <= #[trigger] xs[k].distance by {
                    assert(xs[0].distance <= xs[k].distance);
                }
            }
            lemma_changes_only_at_past_first(shape_b, ys, xs);
            lemma_changes_only_at_fewer(shape_a, xs, ys);
            lemma_walk_reports_combined_crossings(operation, xs, ys.drop_first(), shape_a, shape_b);
            let s = operation_step(operation, head(xs), head(ys), shape_a, shape_b);
            assert(!s.advance_a && s.advance_b);
            assert(walk_output(operation, xs, ys, shape_a, shape_b) == if flips_with_b(operation, in_a) {
                seq![as_crossing_of_b(operation, y, in_a)] + walk_output(operation, xs, ys.drop_first(), shape_a, shape_b)
            } else {
                walk_output(operation, xs, ys.drop_first(), shape_a, shape_b)
            });
        }
    }
}

/// Where the walk of two streams stands after `rounds` rounds, started at `(i, j)`.
pub open spec fn walk_position<P, V, S: Shape<P>>(
    operation: SetOperation,
    seen_a: Seq<Option<Intersection<P, V>>>,
    seen_b: Seq<Option<Intersection<P, V>>>,
    shape_a: ShapeNode<S>,
    shape_b: ShapeNode<S>,
    i: int,
    j: int,
    rounds: nat,
) -> (int, int)
    decreases rounds,
{
    if rounds == 0 {
        (i, j)
    } else {
        let s = operation_step(
            operation,
            current(seen_a, i),
            current(seen_b, j),
            shape_a,
            shape_b,
        );
        walk_position(
            operation,
            seen_a,
            seen_b,
            shape_a,
            shape_b,
            i + if s.advance_a {
                1int
            } else {
                0int
            },
            j + if s.advance_b {
                1int
            } else {
                0int
            },
            (rounds - 1) as nat,
        )
    }
}

/// What the round after `rounds` rounds of the walk started at `(i, j)` reports.
pub open spec fn walk_report<P, V, S: Shape<P>>(
    operation: SetOperation,
    seen_a: Seq<Option<Intersection<P, V>>>,
    seen_b: Seq<Option<Intersection<P, V>>>,
    shape_a: ShapeNode<S>,
    shape_b: ShapeNode<S>,
    i: int,
    j: int,
    rounds: nat,
) -> Flow<Intersection<P, V>> {
    let (k, l) = walk_position(operation, seen_a, seen_b, shape_a, shape_b, i, j, rounds);
    operation_step(operation, current(seen_a, k), current(seen_b, l), shape_a, shape_b).flow
}

/// The distance of the nearer of two current intersections; past `u64::MAX` when both
/// streams have ended.
pub open spec fn nearest<P, V>(a: Option<Intersection<P, V>>, b: Option<Intersection<P, V>>) -> int {
    match (a, b) {
        (Some(x), Some(y)) => if x.distance <= y.distance {
            x.distance as int
        } else {
            y.distance as int
        },
        (Some(x), None) => x.distance as int,
        (None, Some(y)) => y.distance as int,
        (None, None) => u64::MAX as int + 1,
    }
}

proof fn lemma_round_keeps_nearest_order<P, V, S: Shape<P>>(
    operation: SetOperation,
    seen_a: Seq<Option<Intersection<P, V>>>,
    seen_b: Seq<Option<Intersection<P, V>>>,
    shape_a: ShapeNode<S>,
    shape_b: ShapeNode<S>,
    i: int,
    j: int,
)
    requires
        sorted_stream(seen_a),
        sorted_stream(seen_b),
        i >= 0,
        j >= 0,
    ensures
        ({
            let a = current(seen_a, i);
            let b = current(seen_b, j);
            let s = operation_step(operation, a, b, shape_a, shape_b);
            let i2 = i + if s.advance_a {
                1int
            } else {
                0int
            };
            let j2 = j + if s.advance_b {
                1int
            } else {
                0int
            };
            &&& nearest(a, b) <= nearest(current(seen_a, i2), current(seen_b, j2))
            &&& s.flow matches Flow::Yield(z) ==> z.distance == nearest(a, b)
        }),
{
    let a = current(seen_a, i);
    let b = current(seen_b, j);
    if a is Some && i + 1 < seen_a.len() && seen_a[i + 1] is Some {
        assert(seen_a[i]->0.distance <= seen_a[i + 1]->0.distance);
    }
    if b is Some && j + 1 < seen_b.len() && seen_b[j + 1] is Some {
        assert(seen_b[j]->0.distance <= seen_b[j + 1]->0.distance);
    }
}

proof fn lemma_walk_nearest_grows<P, V, S: Shape<P>>(
    operation: SetOperation,
    seen_a: Seq<Option<Intersection<P, V>>>,
    seen_b: Seq<Option<Intersection<P, V>>>,
    shape_a: ShapeNode<S>,
    shape_b: ShapeNode<S>,
    i: int,
    j: int,
    m: nat,
    n: nat,
)
    requires
        sorted_stream(seen_a),
        sorted_stream(seen_b),
        i >= 0,
        j >= 0,
        m <= n,
    ensures
        ({
            let (k1, l1) = walk_position(operation, seen_a, seen_b, shape_a, shape_b, i, j, m);
            let (k2, l2) = walk_position(operation, seen_a, seen_b, shape_a, shape_b, i, j, n);
            &&& k1 >= i && l1 >= j
            &&& nearest(current(seen_a, k1), current(seen_b, l1)) <= nearest(
                current(seen_a, k2),
                current(seen_b, l2),
            )
        }),
    decreases n,
{
    if n > 0 {
        let s = operation_step(
            operation,
            current(seen_a, i),
            current(seen_b, j),
            shape_a,
            shape_b,
        );
        let i2 = i + if s.advance_a {
            1int
        } else {
            0int
        };
        let j2 = j + if s.advance_b {
            1int
        } else {
            0int
        };
        lemma_round_keeps_nearest_order(operation, seen_a, seen_b, shape_a, shape_b, i, j);
        if m > 0 {
            lemma_walk_nearest_grows(
                operation,
                seen_a,
                seen_b,
                shape_a,
                shape_b,
                i2,
                j2,
                (m - 1) as nat,
                (n - 1) as nat,
            );
        } else {
            lemma_walk_nearest_grows(
                operation,
                seen_a,
                seen_b,
                shape_a,
                shape_b,
                i2,
                j2,
                0,
                (n - 1) as nat,
            );
        }
    }
}

/// When both streams come nearest first, the composed shape reports its intersections
/// nearest first too: a later round never reports an intersection nearer than an earlier
/// round did.
pub proof fn lemma_walk_reports_nearest_first<P, V, S: Shape<P>>(
    operation: SetOperation,
    seen_a: Seq<Option<Intersection<P, V>>>,
    seen_b: Seq<Option<Intersection<P, V>>>,
    shape_a: ShapeNode<S>,
    shape_b: ShapeNode<S>,
    m: nat,
    n: nat,
)
    requires
        sorted_stream(seen_a),
        sorted_stream(seen_b),
        m <= n,
    ensures
        walk_report(operation, seen_a, seen_b, shape_a, shape_b, 0, 0, m) matches Flow::Yield(x)
            ==> (walk_report(operation, seen_a, seen_b, shape_a, shape_b, 0, 0, n) matches Flow::Yield(
            y,
        ) ==> x.distance <= y.distance),
{
    lemma_walk_nearest_grows(operation, seen_a, seen_b, shape_a, shape_b, 0, 0, m, n);
    let (k1, l1) = walk_position(operation, seen_a, seen_b, shape_a, shape_b, 0, 0, m);
    let (k2, l2) = walk_position(operation, seen_a, seen_b, shape_a, shape_b, 0, 0, n);
    lemma_walk_nearest_grows(operation, seen_a, seen_b, shape_a, shape_b, 0, 0, n, n);
    lemma_round_keeps_nearest_order(operation, seen_a, seen_b, shape_a, shape_b, k1, l1);
    lemma_round_keeps_nearest_order(operation, seen_a, seen_b, shape_a, shape_b, k2, l2);
}


/// A stream that gives the intersections `xs` and then nothing.
pub open spec fn stream_of<P, V>(xs: Seq<Intersection<P, V>>) -> Seq<Option<Intersection<P, V>>> {
    xs.map_values(|x: Intersection<P, V>| Some(x))
}

/// Each call of the walk's `next` takes the walk one report further along `walk_output`:
/// from positions `i` and `j` of streams that give `xs` and `ys`, the walk either reports the
/// first intersection that `walk_output` lists for what is left of them, and stops at
/// positions from which `walk_output` lists the rest, or it ends where `walk_output` lists
/// nothing more.
pub proof fn lemma_walk_from_follows_output<P, V, S: Shape<P>>(
    operation: SetOperation,
    xs: Seq<Intersection<P, V>>,
    ys: Seq<Intersection<P, V>>,
    shape_a: ShapeNode<S>,
    shape_b: ShapeNode<S>,
    i: int,
    j: int,
)
    requires
        0 <= i <= xs.len(),
        0 <= j <= ys.len(),
    ensures
        ({
            let w = walk_from(operation, stream_of(xs), stream_of(ys), shape_a, shape_b, i, j);
            let rest = walk_output(operation, xs.skip(i), ys.skip(j), shape_a, shape_b);
            match w.0 {
                Some(z) => {
                    &&& i <= w.1 <= xs.len()
                    &&& j <= w.2 <= ys.len()
                    &&& rest == seq![z] + walk_output(
                        operation,
                        xs.skip(w.1),
                        ys.skip(w.2),
                        shape_a,
                        shape_b,
                    )
                },
                None => rest == Seq::<Intersection<P, V>>::empty(),
            }
        }),
    decreases xs.len() - i + ys.len() - j,
{
    let sa = stream_of(xs);
    let sb = stream_of(ys);
    assert(current(sa, i) == head(xs.skip(i)));
    assert(current(sb, j) == head(ys.skip(j)));
    let s = operation_step(operation, current(sa, i), current(sb, j), shape_a, shape_b);
    lemma_step_moves_one_stream(operation, current(sa, i), current(sb, j), shape_a, shape_b);
    let ni = if s.advance_a {
        i + 1
    } else {
        i
    };
    let nj = if s.advance_b {
        j + 1
    } else {
        j
    };
    if s.advance_a {
        assert(xs.skip(i).drop_first() =~= xs.skip(i + 1));
    }
    if s.advance_b {
        assert(ys.skip(j).drop_first() =~= ys.skip(j + 1));
    }
    if s.flow is Skip {
        lemma_walk_from_follows_output(operation, xs, ys, shape_a, shape_b, ni, nj);
    }
}

/// Turning a crossing's normal around changes nothing but the flag that says which way the
/// normal is read: the place, the ray, the surface normal and the distance stay, the flag
/// flips, and turning the crossing around twice gives it back.
pub proof fn lemma_reversed_turns_only_the_flag<P, V>(x: Intersection<P, V>)
    ensures
        reversed(x).location == x.location,
        reversed(x).direction == x.direction,
        reversed(x).normal == x.normal,
        reversed(x).distance == x.distance,
        reversed(x).normal_reversed == !x.normal_reversed,
        reversed(reversed(x)) == x,
{
}

/// What a round reports is the crossing that it passes over, at the same place, on the same
/// ray, with the same surface normal and distance; only the flag that says which way the
/// normal is read may differ, and it differs exactly where the combination is entered where
/// the crossed part is left, or the other way round.
pub proof fn lemma_report_is_the_crossing_passed<P, V, S: Shape<P>>(
    operation: SetOperation,
    a: Option<Intersection<P, V>>,
    b: Option<Intersection<P, V>>,
    shape_a: ShapeNode<S>,
    shape_b: ShapeNode<S>,
)
    ensures
        ({
            let s = operation_step(operation, a, b, shape_a, shape_b);
            s.flow matches Flow::Yield(z) ==> {
                ||| (a matches Some(x) && s.advance_a && {
                    &&& z.location == x.location
                    &&& z.direction == x.direction
                    &&& z.normal == x.normal
                    &&& z.distance == x.distance
                    &&& (z.normal_reversed != x.normal_reversed) == (combined_membership(
                        operation,
                        false,
                        node_contains(shape_b, x.location),
                    ) && !combined_membership(operation, true, node_contains(shape_b, x.location)))
                })
                ||| (b matches Some(y) && s.advance_b && {
                    &&& z.location == y.location
                    &&& z.direction == y.direction
                    &&& z.normal == y.normal
                    &&& z.distance == y.distance
                    &&& (z.normal_reversed != y.normal_reversed) == (combined_membership(
                        operation,
                        node_contains(shape_a, y.location),
                        false,
                    ) && !combined_membership(operation, node_contains(shape_a, y.location), true))
                })
            }
        }),
{
}

/// A round passes over the nearer of the two current crossings, the second shape's when both
/// lie equally far; a stream that has ended is never passed over while the other has not.
pub proof fn lemma_round_passes_the_nearer<P, V, S: Shape<P>>(
    operation: SetOperation,
    a: Option<Intersection<P, V>>,
    b: Option<Intersection<P, V>>,
    shape_a: ShapeNode<S>,
    shape_b: ShapeNode<S>,
)
    ensures
        ({
            let s = operation_step(operation, a, b, shape_a, shape_b);
            &&& (a matches Some(x) && b matches Some(y) && x.distance < y.distance) ==> s.advance_a
                && !s.advance_b
            &&& (a matches Some(x) && b matches Some(y) && y.distance <= x.distance) ==> s.advance_b
                && !s.advance_a
            &&& (a is Some && b is None) ==> s.advance_a && !s.advance_b
            &&& (a is None && b is Some) ==> s.advance_b && !s.advance_a
        }),
{
}

} // verus!
