use euclider::shape::{
    decide_step, intersect_void, ComposableShape, Flow, Intersection, SetOperation, Shape, ShapeNode, VoidShape,
};

/// The points of a line from `lo` to `hi`, both included.
#[derive(Clone, Copy, Debug)]
struct Interval {
    lo: i64,
    hi: i64,
}

impl Shape<i64> for Interval {
    fn contains(&self, point: i64) -> bool {
        self.lo <= point && point <= self.hi
    }

    fn is_point_inside(&self, point: &i64) -> bool {
        self.lo <= *point && *point <= self.hi
    }
}

/// Where a ray walking the line from far on the left meets the boundary of `i`.
fn hits(i: Interval) -> std::vec::IntoIter<Intersection<i64, ()>> {
    vec![hit(i.lo), hit(i.hi)].into_iter()
}

fn hit(at: i64) -> Intersection<i64, ()> {
    Intersection::new(at, (), (), at as u64)
}

/// The intersections that the combination of `a` and `b` reports, as (distance, reversed).
fn walk(a: Interval, b: Interval, operation: SetOperation) -> Vec<(u64, bool)> {
    let shape = ComposableShape::new(a, b, operation);
    let mut iter = shape.intersect_linear(hits(a), hits(b));
    let mut out = Vec::new();
    while let Some(x) = iter.next() {
        out.push((x.distance, x.normal_reversed));
        assert!(out.len() <= 4, "the walk reports each crossing once");
    }
    assert!(iter.next().is_none());
    out
}

/// The same walk, taken round by round.
fn walk_by_rounds(a: Interval, b: Interval, operation: SetOperation) -> Vec<(u64, bool)> {
    let shape = ComposableShape::new(a, b, operation);
    let mut iter = shape.intersect_linear(hits(a), hits(b));
    let mut out = Vec::new();
    for _ in 0..8 {
        match iter.step() {
            Flow::Yield(x) => out.push((x.distance, x.normal_reversed)),
            Flow::Skip => {}
            Flow::End => return out,
        }
    }
    panic!("the walk does not end");
}

const A: Interval = Interval { lo: 0, hi: 10 };
const B: Interval = Interval { lo: 5, hi: 15 };

#[test]
fn union_reports_the_outer_boundary() {
    assert_eq!(walk(A, B, SetOperation::Union), vec![(0, false), (15, false)]);
}

#[test]
fn intersection_reports_the_inner_boundary() {
    assert_eq!(walk(A, B, SetOperation::Intersection), vec![(5, false), (10, false)]);
}

#[test]
fn complement_reports_the_remaining_part_with_reversed_normals() {
    assert_eq!(walk(A, B, SetOperation::Complement), vec![(0, false), (5, true)]);
}

#[test]
fn symmetric_difference_reports_every_boundary() {
    assert_eq!(
        walk(A, B, SetOperation::SymmetricDifference),
        vec![(0, false), (5, true), (10, true), (15, false)]
    );
}

#[test]
fn rounds_and_next_agree() {
    for operation in [
        SetOperation::Union,
        SetOperation::Intersection,
        SetOperation::Complement,
        SetOperation::SymmetricDifference,
    ] {
        assert_eq!(walk(A, B, operation), walk_by_rounds(A, B, operation));
    }
}

#[test]
fn complement_ends_after_the_second_shape_is_passed() {
    let wide = Interval { lo: 0, hi: 20 };
    let hole = Interval { lo: 5, hi: 10 };
    assert_eq!(
        walk(wide, hole, SetOperation::Complement),
        vec![(0, false), (5, true), (10, true), (20, false)]
    );
    assert_eq!(
        walk_by_rounds(wide, hole, SetOperation::Complement),
        vec![(0, false), (5, true), (10, true), (20, false)]
    );
}

#[test]
fn disjoint_union_reports_both_parts() {
    let c = Interval { lo: 20, hi: 30 };
    assert_eq!(
        walk(A, c, SetOperation::Union),
        vec![(0, false), (10, false), (20, false), (30, false)]
    );
    assert_eq!(walk(A, c, SetOperation::Intersection), vec![]);
}

#[test]
fn composed_membership() {
    let union = ComposableShape::new(A, B, SetOperation::Union);
    let inter = ComposableShape::new(A, B, SetOperation::Intersection);
    let comp = ComposableShape::new(A, B, SetOperation::Complement);
    let sym = ComposableShape::new(A, B, SetOperation::SymmetricDifference);
    for p in [-1i64, 0, 3, 5, 7, 10, 12, 15, 16] {
        let in_a = A.is_point_inside(&p);
        let in_b = B.is_point_inside(&p);
        assert_eq!(union.is_point_inside(&p), in_a || in_b);
        assert_eq!(inter.is_point_inside(&p), in_a && in_b);
        assert_eq!(comp.is_point_inside(&p), in_a && !in_b);
        assert_eq!(sym.is_point_inside(&p), in_a != in_b);
    }
}

#[test]
fn composable_shape_of_chains_the_shapes() {
    let shapes = vec![A, B, Interval { lo: 8, hi: 9 }];
    let all = ComposableShape::of(shapes.clone(), SetOperation::Intersection);
    assert!(all.is_point_inside(&8));
    assert!(!all.is_point_inside(&7));
    let any = ComposableShape::of(shapes.clone(), SetOperation::Union);
    assert!(any.is_point_inside(&14));
    assert!(!any.is_point_inside(&16));
    let first_only = ComposableShape::of(shapes.clone(), SetOperation::Complement);
    assert!(first_only.is_point_inside(&2));
    assert!(!first_only.is_point_inside(&8));
    let odd = ComposableShape::of(
        vec![A, B, Interval { lo: 9, hi: 20 }],
        SetOperation::SymmetricDifference,
    );
    assert!(odd.is_point_inside(&9));
    assert!(!odd.is_point_inside(&7));
    assert!(odd.is_point_inside(&3));
    assert!(!odd.is_point_inside(&12));
}

#[test]
fn void_shape_contains_everything() {
    let void = VoidShape::new();
    assert!(Shape::<i64>::is_point_inside(&void, &-5));
    assert!(Shape::<u8>::is_point_inside(&void, &200));
    let hits: Vec<Intersection<i64, ()>> = intersect_void(&3, &(), &void);
    assert!(hits.is_empty());
}

#[test]
fn decide_step_prefers_the_nearer_intersection() {
    let a = ShapeNode::Leaf(A);
    let b = ShapeNode::Leaf(B);
    let s = decide_step(SetOperation::Union, Some(hit(10)), Some(hit(5)), &a, &b);
    assert!(matches!(s.flow, Flow::Skip));
    assert!(!s.advance_a && s.advance_b);
    let s = decide_step(SetOperation::Union, Some(hit(0)), Some(hit(5)), &a, &b);
    assert!(matches!(s.flow, Flow::Yield(x) if x.distance == 0));
    assert!(s.advance_a && !s.advance_b);
    let s = decide_step::<i64, (), Interval>(SetOperation::Complement, None, None, &a, &b);
    assert!(matches!(s.flow, Flow::End));
    let s = decide_step(SetOperation::Complement, Some(hit(20)), None, &a, &b);
    assert!(matches!(s.flow, Flow::Yield(x) if x.distance == 20 && !x.normal_reversed));
    assert!(s.advance_a && !s.advance_b);
    let s = decide_step(SetOperation::Complement, Some(hit(12)), None, &a, &b);
    assert!(matches!(s.flow, Flow::End));
    assert!(s.advance_a && !s.advance_b);
}

#[test]
fn new_intersection_keeps_its_normal() {
    let x: Intersection<i64, i8> = Intersection::new(3, 1, -1, 7);
    assert_eq!((x.location, x.direction, x.normal, x.distance), (3, 1, -1, 7));
    assert!(!x.normal_reversed);
}
