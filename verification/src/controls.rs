use vstd::prelude::*;
use crate::input::{InputState, InputModel, Key};

verus! {

/// `1` when only `plus` is held, `-1` when only `minus` is held, `0` otherwise.
pub open spec fn key_axis(m: InputModel, plus: Key, minus: Key) -> int {
    (if m.keys.contains(plus) {
        1int
    } else {
        0int
    }) - (if m.keys.contains(minus) {
        1int
    } else {
        0int
    })
}

fn axis(state: &InputState, plus: Key, minus: Key) -> (a: i8)
    ensures
        a == key_axis(state.model(), plus, minus),
{
    let p: i8 = if state.is_pressed(plus) {
        1
    } else {
        0
    };
    let n: i8 = if state.is_pressed(minus) {
        1
    } else {
        0
    };
    p - n
}

/// In which directions the held keys move a camera, each `-1`, `0` or `1`: forward
/// (`W`, back with `S`), left (`A`, right with `D`), up (`Left Shift`, down with
/// `Left Control`) and, in four dimensions, ana (`Q`, kata with `E`).
#[derive(Clone, Copy, Debug, PartialEq, Eq, Structural)]
pub struct Movement {
    pub forward: i8,
    pub left: i8,
    pub up: i8,
    pub ana: i8,
}

/// The directions that the held keys move a camera in.
pub fn movement(state: &InputState) -> (m: Movement)
    ensures
        m.forward == key_axis(state.model(), Key::W, Key::S),
        m.left == key_axis(state.model(), Key::A, Key::D),
        m.up == key_axis(state.model(), Key::LShift, Key::LControl),
        m.ana == key_axis(state.model(), Key::Q, Key::E),
{
    Movement {
        forward: axis(state, Key::W, Key::S),
        left: axis(state, Key::A, Key::D),
        up: axis(state, Key::LShift, Key::LControl),
        ana: axis(state, Key::Q, Key::E),
    }
}

/// Which way the three-dimensional free camera rolls: `E` one way, `Q` the other.
pub fn roll(state: &InputState) -> (r: i8)
    ensures
        r == key_axis(state.model(), Key::E, Key::Q),
{
    axis(state, Key::E, Key::Q)
}

/// Which way the four-dimensional camera rotates: `C` one way, `M` the other.
pub fn rotation_direction_4(state: &InputState) -> (r: i8)
    ensures
        r == key_axis(state.model(), Key::C, Key::M),
{
    axis(state, Key::C, Key::M)
}

/// The axes that the four-dimensional camera rotates in: `I`, `O`, `K` and `L` select the
/// x, y, z and w axis.
pub fn rotation_axes_4(state: &InputState) -> (axes: [bool; 4])
    ensures
        axes[0] == state.model().keys.contains(Key::I),
        axes[1] == state.model().keys.contains(Key::O),
        axes[2] == state.model().keys.contains(Key::K),
        axes[3] == state.model().keys.contains(Key::L),
{
    [state.is_pressed(Key::I), state.is_pressed(Key::O), state.is_pressed(Key::K), state.is_pressed(Key::L)]
}

/// How many of the axes are selected.
pub open spec fn selected_count(axes: [bool; 4]) -> int {
    (if axes[0] { 1int } else { 0int }) + (if axes[1] { 1int } else { 0int }) + (if axes[2] {
        1int
    } else {
        0int
    }) + (if axes[3] { 1int } else { 0int })
}

/// Whether the camera rotates at all: it does when exactly two axes are selected.
pub fn rotates_in_plane(axes: [bool; 4]) -> (rotates: bool)
    ensures
        rotates == (selected_count(axes) == 2),
{
    let mut count: u8 = 0;
    if axes[0] {
        count = count + 1;
    }
    if axes[1] {
        count = count + 1;
    }
    if axes[2] {
        count = count + 1;
    }
    if axes[3] {
        count = count + 1;
    }
    count == 2
}

/// What an entry of the four-dimensional rotation matrix holds, for a rotation by some
/// angle.
#[derive(Clone, Copy, Debug, PartialEq, Eq, Structural)]
pub enum RotationEntry {
    /// The entry of the identity matrix.
    Kept,
    /// The cosine of the angle.
    Cos,
    /// The negated sine of the angle.
    NegatedSin,
    /// The sine of the angle.
    Sin,
}

/// The entry at `row` and `column` of the matrix that rotates in the plane of the
/// selected axes: entries where both the row and the column are selected axes hold the
/// cosine on the diagonal, the sine above it and the negated sine below it; the others
/// are those of the identity.
pub open spec fn rotation_entry_spec(axes: [bool; 4], row: int, column: int) -> RotationEntry {
    if axes[row] && axes[column] {
        if row == column {
            RotationEntry::Cos
        } else if row < column {
            RotationEntry::Sin
        } else {
            RotationEntry::NegatedSin
        }
    } else {
        RotationEntry::Kept
    }
}

/// What the rotation matrix holds at `row` and `column`.
pub fn rotation_entry(axes: [bool; 4], row: usize, column: usize) -> (entry: RotationEntry)
    requires
        row < 4,
        column < 4,
    ensures
        entry == rotation_entry_spec(axes, row as int, column as int),
{
    if axes[row] && axes[column] {
        if row == column {
            RotationEntry::Cos
        } else if row < column {
            RotationEntry::Sin
        } else {
            RotationEntry::NegatedSin
        }
    } else {
        RotationEntry::Kept
    }
}

/// The rotation matrix is a rotation: its entries in the plane of the two selected axes
/// form `[[cos, sin], [-sin, cos]]`, and each entry mirrored across the diagonal holds the
/// sine with the opposite sign.
pub proof fn lemma_rotation_entries_antisymmetric(axes: [bool; 4], row: int, column: int)
    requires
        0 <= row < 4,
        0 <= column < 4,
        row != column,
    ensures
        rotation_entry_spec(axes, row, column) == RotationEntry::NegatedSin <==> rotation_entry_spec(
            axes,
            column,
            row,
        ) == RotationEntry::Sin,
        rotation_entry_spec(axes, row, column) == RotationEntry::Kept <==> rotation_entry_spec(
            axes,
            column,
            row,
        ) == RotationEntry::Kept,
{
}

/// Whether the axes `i` and `j`, and no other, are selected.
pub open spec fn only_axes(axes: [bool; 4], i: int, j: int) -> bool {
    &&& 0 <= i < j < 4
    &&& axes[i]
    &&& axes[j]
    &&& forall|k: int| 0 <= k < 4 && k != i && k != j ==> !#[trigger] axes[k]
}

/// The camera rotates exactly when two different axes are selected and no other one, in the
/// plane of those two; selecting a single axis, whichever it is, counts as one.
pub proof fn lemma_rotates_in_the_plane_of_two_axes(axes: [bool; 4])
    ensures
        (selected_count(axes) == 2) <==> exists|i: int, j: int| #[trigger] only_axes(axes, i, j),
        0 <= selected_count(axes) <= 4,
        selected_count([true, false, false, false]) == 1,
        selected_count([false, true, false, false]) == 1,
        selected_count([false, false, true, false]) == 1,
        selected_count([false, false, false, true]) == 1,
{
    if selected_count(axes) == 2 {
        if axes[0] && axes[1] {
            assert(only_axes(axes, 0, 1));
        } else if axes[0] && axes[2] {
            assert(only_axes(axes, 0, 2));
        } else if axes[0] && axes[3] {
            assert(only_axes(axes, 0, 3));
        } else if axes[1] && axes[2] {
            assert(only_axes(axes, 1, 2));
        } else if axes[1] && axes[3] {
            assert(only_axes(axes, 1, 3));
        } else {
            assert(only_axes(axes, 2, 3));
        }
    }
    if exists|i: int, j: int| #[trigger] only_axes(axes, i, j) {
        let (i, j) = choose|i: int, j: int| #[trigger] only_axes(axes, i, j);
        assert(!axes[0] || i == 0 || j == 0);
        assert(!axes[1] || i == 1 || j == 1);
        assert(!axes[2] || i == 2 || j == 2);
        assert(!axes[3] || i == 3 || j == 3);
    }
}

/// When the axes `i` and `j` are selected, the rotation matrix is the identity but for the
/// plane of those two: the cosine on their diagonal entries, the sine at row `i`, column `j`,
/// and the negated sine at row `j`, column `i`.
pub proof fn lemma_rotation_matrix_of_a_plane(axes: [bool; 4], i: int, j: int)
    requires
        only_axes(axes, i, j),
    ensures
        rotation_entry_spec(axes, i, i) == RotationEntry::Cos,
        rotation_entry_spec(axes, j, j) == RotationEntry::Cos,
        rotation_entry_spec(axes, i, j) == RotationEntry::Sin,
        rotation_entry_spec(axes, j, i) == RotationEntry::NegatedSin,
        forall|row: int, column: int|
            0 <= row < 4 && 0 <= column < 4 && !((row == i || row == j) && (column == i
                || column == j)) ==> #[trigger] rotation_entry_spec(axes, row, column)
                == RotationEntry::Kept,
{
}

/// Holding only the key of one direction moves that way, holding only the other moves back,
/// and holding both or neither does not move.
pub proof fn lemma_keys_move_one_way(m: InputModel, plus: Key, minus: Key)
    requires
        plus != minus,
    ensures
        m.keys.contains(plus) && !m.keys.contains(minus) ==> key_axis(m, plus, minus) == 1,
        !m.keys.contains(plus) && m.keys.contains(minus) ==> key_axis(m, plus, minus) == -1,
        m.keys.contains(plus) == m.keys.contains(minus) ==> key_axis(m, plus, minus) == 0,
        key_axis(m, minus, plus) == -key_axis(m, plus, minus),
{
}

/// Swapping two axes selects as many: the count does not depend on which axis is which.
pub proof fn lemma_selected_count_ignores_order(axes: [bool; 4], swapped: [bool; 4], i: int, j: int)
    requires
        0 <= i < 4,
        0 <= j < 4,
        swapped[i] == axes[j],
        swapped[j] == axes[i],
        forall|k: int| 0 <= k < 4 && k != i && k != j ==> swapped[k] == axes[k],
    ensures
        selected_count(swapped) == selected_count(axes),
{
    assert(0 != i && 0 != j ==> swapped[0] == axes[0]);
    assert(1 != i && 1 != j ==> swapped[1] == axes[1]);
    assert(2 != i && 2 != j ==> swapped[2] == axes[2]);
    assert(3 != i && 3 != j ==> swapped[3] == axes[3]);
}

} // verus!
