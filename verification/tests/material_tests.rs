use euclider::material::{LinearSpace, LinearTransformation, Material, Vacuum};
use euclider::surface::MappedTextureTransparent;

#[test]
fn vacuum_leaves_directions_unbent() {
    let vacuum = Vacuum::new();
    let mut direction = (3i32, -4i32);
    Material::<(), (i32, i32)>::enter(&vacuum, &(), &mut direction);
    assert_eq!(direction, (3, -4));
    Material::<(), (i32, i32)>::exit(&vacuum, &(), &mut direction);
    assert_eq!(direction, (3, -4));
}

/// Adds a fixed amount to the component that the legend names first.
struct Shift(i32);

impl LinearTransformation<(i32, i32)> for Shift {
    fn transformed(&self, vector: (i32, i32), legend: String) -> (i32, i32) {
        let mut v = vector;
        self.transform(&mut v, &legend);
        v
    }

    fn inverse_transformed(&self, vector: (i32, i32), legend: String) -> (i32, i32) {
        let mut v = vector;
        self.inverse_transform(&mut v, &legend);
        v
    }

    fn transform(&self, vector: &mut (i32, i32), legend: &String) {
        if legend.starts_with('x') {
            vector.0 += self.0;
        } else {
            vector.1 += self.0;
        }
    }

    fn inverse_transform(&self, vector: &mut (i32, i32), legend: &String) {
        if legend.starts_with('x') {
            vector.0 -= self.0;
        } else {
            vector.1 -= self.0;
        }
    }
}

/// Swaps the two components.
struct Swap;

impl LinearTransformation<(i32, i32)> for Swap {
    fn transformed(&self, vector: (i32, i32), _legend: String) -> (i32, i32) {
        (vector.1, vector.0)
    }

    fn inverse_transformed(&self, vector: (i32, i32), _legend: String) -> (i32, i32) {
        (vector.1, vector.0)
    }

    fn transform(&self, vector: &mut (i32, i32), _legend: &String) {
        *vector = (vector.1, vector.0);
    }

    fn inverse_transform(&self, vector: &mut (i32, i32), _legend: &String) {
        *vector = (vector.1, vector.0);
    }
}

#[test]
fn linear_space_transforms_in_order() {
    let space = LinearSpace { legend: "xy".to_string(), transformations: vec![Shift(5)] };
    let mut v = (1, 2);
    space.transform(&mut v);
    assert_eq!(v, (6, 2));
    space.inverse_transform(&mut v);
    assert_eq!(v, (1, 2));
}

enum Either {
    S(Shift),
    W(Swap),
}

impl LinearTransformation<(i32, i32)> for Either {
    fn transformed(&self, vector: (i32, i32), legend: String) -> (i32, i32) {
        let mut v = vector;
        self.transform(&mut v, &legend);
        v
    }

    fn inverse_transformed(&self, vector: (i32, i32), legend: String) -> (i32, i32) {
        let mut v = vector;
        self.inverse_transform(&mut v, &legend);
        v
    }

    fn transform(&self, vector: &mut (i32, i32), legend: &String) {
        match self {
            Either::S(s) => s.transform(vector, legend),
            Either::W(w) => w.transform(vector, legend),
        }
    }

    fn inverse_transform(&self, vector: &mut (i32, i32), legend: &String) {
        match self {
            Either::S(s) => s.inverse_transform(vector, legend),
            Either::W(w) => w.inverse_transform(vector, legend),
        }
    }
}

#[test]
fn exit_undoes_enter() {
    let space = LinearSpace {
        legend: "xy".to_string(),
        transformations: vec![Either::S(Shift(5)), Either::W(Swap), Either::S(Shift(-2))],
    };
    let mut v = (1, 2);
    Material::<(), (i32, i32)>::enter(&space, &(), &mut v);
    assert_eq!(v, (0, 6));
    Material::<(), (i32, i32)>::exit(&space, &(), &mut v);
    assert_eq!(v, (1, 2));
}

#[test]
fn transparent_texture() {
    assert_eq!(MappedTextureTransparent::new(), MappedTextureTransparent {});
}
