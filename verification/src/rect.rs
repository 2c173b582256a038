//! Axis-aligned rectangles, as far as they are a choice of axes, and the six
//! of them that make a box.

use vstd::prelude::*;

verus! {

/// The axes of a rectangle, each by its number: 0 for x, 1 for y, 2 for z.
/// The first two span the rectangle, and it lies across the third.
#[derive(Debug, Clone, Copy, PartialEq, Eq, Structural)]
pub struct RectAxes {
    pub first: usize,
    pub second: usize,
    pub across: usize,
}

/// Whether the three numbers name the three axes, each of them once.
pub open spec fn names_the_axes(axis: RectAxes) -> bool {
    &&& axis.first < 3 && axis.second < 3 && axis.across < 3
    &&& axis.first != axis.second && axis.second != axis.across && axis.first != axis.across
}

/// A rectangle that lies across one axis and is spanned by the two others.
#[derive(Debug, Clone)]
pub struct AARect<G, M> {
    pub axis: RectAxes,
    pub metrics: G,
    pub material: M,
}

impl<G, M> AARect<G, M> {
    /// A rectangle spanned by x and y, across z.
    pub fn new_xy(metrics: G, material: M) -> (rect: Self)
        ensures
            rect == (AARect { axis: RectAxes { first: 0, second: 1, across: 2 }, metrics, material }),
            names_the_axes(rect.axis),
    {
        Self { metrics, material, axis: RectAxes { first: 0, second: 1, across: 2 } }
    }

    /// A rectangle spanned by x and z, across y.
    pub fn new_xz(metrics: G, material: M) -> (rect: Self)
        ensures
            rect == (AARect { axis: RectAxes { first: 0, second: 2, across: 1 }, metrics, material }),
            names_the_axes(rect.axis),
    {
        Self { metrics, material, axis: RectAxes { first: 0, second: 2, across: 1 } }
    }

    /// A rectangle spanned by y and z, across x.
    pub fn new_yz(metrics: G, material: M) -> (rect: Self)
        ensures
            rect == (AARect { axis: RectAxes { first: 1, second: 2, across: 0 }, metrics, material }),
            names_the_axes(rect.axis),
    {
        Self { metrics, material, axis: RectAxes { first: 1, second: 2, across: 0 } }
    }
}

/// The end of a box along an axis.
#[derive(Debug, Clone, Copy, PartialEq, Eq, Structural)]
pub enum Side {
    /// Where the coordinate is smallest.
    Low,
    /// Where the coordinate is largest.
    High,
}

/// A face of a box: the axes of its rectangle, and the end of the box at
/// which it lies along the axis that it is across.
#[derive(Debug, Clone, Copy, PartialEq, Eq, Structural)]
pub struct Face {
    pub axis: RectAxes,
    pub side: Side,
}

/// The six faces of a box: back and front, left and right, down and up.
pub open spec fn spec_carton_faces() -> Seq<Face> {
    seq![
        Face { axis: RectAxes { first: 0, second: 1, across: 2 }, side: Side::Low },
        Face { axis: RectAxes { first: 0, second: 1, across: 2 }, side: Side::High },
        Face { axis: RectAxes { first: 1, second: 2, across: 0 }, side: Side::Low },
        Face { axis: RectAxes { first: 1, second: 2, across: 0 }, side: Side::High },
        Face { axis: RectAxes { first: 0, second: 2, across: 1 }, side: Side::Low },
        Face { axis: RectAxes { first: 0, second: 2, across: 1 }, side: Side::High },
    ]
}

/// The six faces of a box: back and front, left and right, down and up.
pub fn carton_faces() -> (faces: Vec<Face>)
    ensures
        faces@ == spec_carton_faces(),
{
    let faces = vec![
        Face { axis: RectAxes { first: 0, second: 1, across: 2 }, side: Side::Low },
        Face { axis: RectAxes { first: 0, second: 1, across: 2 }, side: Side::High },
        Face { axis: RectAxes { first: 1, second: 2, across: 0 }, side: Side::Low },
        Face { axis: RectAxes { first: 1, second: 2, across: 0 }, side: Side::High },
        Face { axis: RectAxes { first: 0, second: 2, across: 1 }, side: Side::Low },
        Face { axis: RectAxes { first: 0, second: 2, across: 1 }, side: Side::High },
    ];
    proof {
        assert(faces@ =~= spec_carton_faces());
    }
    faces
}

/// The faces close the box: at each end of each axis lies one face and no
/// more, and every face names the three axes.
pub proof fn lemma_carton_is_closed()
    ensures
        forall|i: int|
            0 <= i < spec_carton_faces().len() ==> names_the_axes((#[trigger] face_at(i)).axis),
        forall|across: usize, side: Side| across < 3 ==> #[trigger] has_face(across, side),
        forall|i: int, j: int, across: usize, side: Side|
            #[trigger] lies_at(i, across, side) && #[trigger] lies_at(j, across, side) ==> i == j,
{
    let faces = spec_carton_faces();
    assert forall|across: usize, side: Side| across < 3 implies #[trigger] has_face(
        across,
        side,
    ) by {
        let first: int = if across == 2 {
            0
        } else if across == 0 {
            2
        } else {
            4
        };
        let i: int = if side == Side::Low {
            first
        } else {
            first + 1
        };
        assert(lies_at(i, across, side));
    }
}

/// Whether a face lies across the given axis, at the given end of the box.
pub open spec fn has_face(across: usize, side: Side) -> bool {
    exists|i: int| #[trigger] lies_at(i, across, side)
}

/// The face at a place of the list.
pub open spec fn face_at(place: int) -> Face {
    spec_carton_faces()[place]
}

/// Whether the face at a place of the list lies across the given axis, at
/// the given end of the box.
pub open spec fn lies_at(place: int, across: usize, side: Side) -> bool {
    &&& 0 <= place < spec_carton_faces().len()
    &&& face_at(place).axis.across == across
    &&& face_at(place).side == side
}

} // verus!
