use remda::material::{Glass, Lambertian, LambertianMathType};
use remda::rect::{carton_faces, AARect, RectAxes, Side};
use remda::texture::{texel, Checker};
use remda::transform::{ByXAxis, ByYAxis, ByZAxis};

#[test]
fn a_diffuse_material_scatters_by_a_true_cosine_unless_told() {
    let material = Lambertian::new("grey");
    assert_eq!(material.texture, "grey");
    assert_eq!(material.math_type, LambertianMathType::True);
    let material = material.math_type(LambertianMathType::Hemisphere);
    assert_eq!(material.texture, "grey");
    assert_eq!(material.math_type, LambertianMathType::Hemisphere);
    let material = material.math_type(LambertianMathType::Approximates);
    assert_eq!(material.math_type, LambertianMathType::Approximates);
}

#[test]
fn glass_is_glass() {
    assert_eq!(Glass {}, Glass {});
}

#[test]
fn the_axes_of_a_turn_are_values() {
    assert_eq!(ByXAxis, ByXAxis);
    assert_eq!(ByYAxis, ByYAxis);
    assert_eq!(ByZAxis, ByZAxis);
}

#[test]
fn a_checker_holds_its_two_textures() {
    let checker = Checker::new("odd", 2u8);
    assert_eq!(checker.odd, "odd");
    assert_eq!(checker.even, 2);
}

#[test]
fn a_coordinate_beyond_the_image_takes_the_last_pixel() {
    assert_eq!(texel(0, 10), 0);
    assert_eq!(texel(9, 10), 9);
    assert_eq!(texel(10, 10), 9);
    assert_eq!(texel(11, 10), 9);
    assert_eq!(texel(u32::MAX, 10), 9);
    assert_eq!(texel(0, 1), 0);
    assert_eq!(texel(5, 1), 0);
}

#[test]
fn a_rectangle_lies_across_the_axis_that_does_not_span_it() {
    let xy = AARect::new_xy("metrics", "material");
    assert_eq!(xy.axis, RectAxes { first: 0, second: 1, across: 2 });
    assert_eq!(xy.metrics, "metrics");
    assert_eq!(xy.material, "material");
    assert_eq!(AARect::new_xz((), ()).axis, RectAxes { first: 0, second: 2, across: 1 });
    assert_eq!(AARect::new_yz((), ()).axis, RectAxes { first: 1, second: 2, across: 0 });
}

#[test]
fn a_box_has_six_faces_two_across_each_axis() {
    let faces = carton_faces();
    assert_eq!(faces.len(), 6);
    for across in 0..3 {
        for side in [Side::Low, Side::High] {
            let count = faces.iter().filter(|face| face.axis.across == across && face.side == side).count();
            assert_eq!(count, 1);
        }
    }
    for face in &faces {
        let mut axes = [face.axis.first, face.axis.second, face.axis.across];
        axes.sort();
        assert_eq!(axes, [0, 1, 2]);
    }
}

#[test]
fn the_faces_of_a_box_come_back_front_left_right_down_up() {
    let faces = carton_faces();
    assert_eq!(faces[0].axis, AARect::new_xy((), ()).axis);
    assert_eq!(faces[0].side, Side::Low);
    assert_eq!(faces[1].axis, AARect::new_xy((), ()).axis);
    assert_eq!(faces[1].side, Side::High);
    assert_eq!(faces[2].axis, AARect::new_yz((), ()).axis);
    assert_eq!(faces[2].side, Side::Low);
    assert_eq!(faces[3].axis, AARect::new_yz((), ()).axis);
    assert_eq!(faces[3].side, Side::High);
    assert_eq!(faces[4].axis, AARect::new_xz((), ()).axis);
    assert_eq!(faces[4].side, Side::Low);
    assert_eq!(faces[5].axis, AARect::new_xz((), ()).axis);
    assert_eq!(faces[5].side, Side::High);
}
