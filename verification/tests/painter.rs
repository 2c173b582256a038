use remda::color::RGBInt;
use remda::painter::{pool_size, Painter};
use remda::ppm::encode_row;
use remda::seq_iter::SeqBuffer;
use std::cell::Cell;

#[test]
fn a_new_painter_has_the_usual_settings() {
    let painter = Painter::new(192, 108);
    assert_eq!(painter.width, 192);
    assert_eq!(painter.height, 108);
    assert_eq!(painter.samples, 50);
    assert!(painter.gamma);
    assert_eq!(painter.threads, 0);
    assert!(painter.parallel);
}

#[test]
fn each_setting_changes_by_itself() {
    let painter = Painter::new(4, 3).gamma(false);
    assert!(!painter.gamma);
    assert_eq!((painter.width, painter.height, painter.samples, painter.threads, painter.parallel), (4, 3, 50, 0, true));
    let painter = painter.samples(7);
    assert_eq!(painter.samples, 7);
    assert!(!painter.gamma);
    let painter = painter.threads(5);
    assert_eq!(painter.threads, 5);
    assert_eq!(painter.samples, 7);
    let painter = painter.parallel(false);
    assert!(!painter.parallel);
    assert_eq!((painter.width, painter.height, painter.samples, painter.threads, painter.gamma), (4, 3, 7, 5, false));
    let painter = painter.set_samples(1);
    assert_eq!(painter.samples, 1);
}

#[test]
fn the_pool_has_one_thread_more_than_workers() {
    assert_eq!(pool_size(1, 8), Some(2));
    assert_eq!(pool_size(4, 8), Some(5));
    assert_eq!(pool_size(4, 1), Some(5));
}

#[test]
fn no_number_of_workers_asks_for_one_for_each_processor() {
    assert_eq!(pool_size(0, 8), Some(9));
    assert_eq!(pool_size(0, 1), Some(2));
}

#[test]
fn a_pool_that_cannot_be_counted_is_none() {
    assert_eq!(pool_size(usize::MAX, 8), None);
    assert_eq!(pool_size(0, usize::MAX), None);
    assert_eq!(pool_size(usize::MAX - 1, 8), Some(usize::MAX));
}

#[test]
fn the_painter_counts_its_pool() {
    assert_eq!(Painter::new(2, 2).threads(3).worker_threads(), Some(4));
    assert_eq!(Painter::new(2, 2).threads(usize::MAX).worker_threads(), None);
    let detected = Painter::new(2, 2).worker_threads().unwrap();
    assert!(detected >= 2);
}

#[test]
fn a_single_sample_is_not_jittered() {
    assert!(!Painter::new(2, 2).samples(1).jitter());
    assert!(Painter::new(2, 2).samples(2).jitter());
    assert!(Painter::new(2, 2).samples(0).jitter());
    assert!(Painter::new(2, 2).jitter());
}

#[test]
fn rows_are_counted_from_the_bottom_for_the_camera() {
    let painter = Painter::new(4, 3);
    assert_eq!(painter.row_from_bottom(0), 2);
    assert_eq!(painter.row_from_bottom(1), 1);
    assert_eq!(painter.row_from_bottom(2), 0);
}

#[test]
fn the_header_gives_the_size_of_the_picture() {
    assert_eq!(Painter::new(2, 1).header(), b"P3\n2 1\n255\n".to_vec());
    assert_eq!(Painter::new(192, 108).header(), b"P3\n192 108\n255\n".to_vec());
}

#[test]
fn a_row_is_rendered_from_the_left() {
    let painter = Painter::new(3, 2);
    let order = Cell::new(0u8);
    let row = painter.seq_render_row(1, &|row: usize, column: usize| {
        order.set(order.get() + 1);
        RGBInt::new(row as u8, column as u8, order.get())
    });
    assert_eq!(row, vec![RGBInt::new(1, 0, 1), RGBInt::new(1, 1, 2), RGBInt::new(1, 2, 3)]);
}

#[test]
fn a_row_of_a_picture_without_width_is_empty() {
    let painter = Painter::new(0, 2);
    let row = painter.seq_render_row(0, &|_: usize, _: usize| -> RGBInt { panic!("no pixel is rendered") });
    assert!(row.is_empty());
}

#[test]
fn a_row_that_is_not_cancelled_is_rendered() {
    let painter = Painter::new(3, 2);
    let row = painter.parallel_render_row(0, &|| false, &|row: usize, column: usize| {
        RGBInt::new(10 + row as u8, 20 + column as u8, 30)
    });
    assert_eq!(row, vec![RGBInt::new(10, 20, 30), RGBInt::new(10, 21, 30), RGBInt::new(10, 22, 30)]);
}

#[test]
fn a_cancelled_row_is_black_and_costs_nothing() {
    let painter = Painter::new(3, 2);
    let row = painter.parallel_render_row(0, &|| true, &|_: usize, _: usize| -> RGBInt {
        panic!("no pixel is rendered")
    });
    assert_eq!(row, vec![RGBInt::new(0, 0, 0); 3]);
}

#[test]
fn a_row_cancelled_on_the_way_is_black_from_there() {
    let painter = Painter::new(4, 1);
    let asked = Cell::new(0);
    let row = painter.parallel_render_row(
        0,
        &|| {
            asked.set(asked.get() + 1);
            asked.get() > 2
        },
        &|_: usize, column: usize| RGBInt::new(255, column as u8, 255),
    );
    assert_eq!(
        row,
        vec![RGBInt::new(255, 0, 255), RGBInt::new(255, 1, 255), RGBInt::new(0, 0, 0), RGBInt::new(0, 0, 0)]
    );
}

fn shade(row: usize, column: usize) -> RGBInt {
    RGBInt::new((row * 16 + column) as u8, (row * 3) as u8, (column * 5) as u8)
}

fn picture_in_order(painter: &Painter) -> Vec<u8> {
    let mut out = painter.header();
    for row in 0..painter.height {
        out.extend(encode_row(&painter.seq_render_row(row, &shade)));
    }
    out
}

#[test]
fn rows_that_finish_in_reverse_are_put_out_from_the_top() {
    let painter = Painter::new(5, 9);
    let mut out = painter.header();
    let mut buffer = SeqBuffer::new();
    for row in (0..painter.height).rev() {
        let pixels = painter.parallel_render_row(row, &|| false, &shade);
        for ready in buffer.accept(row, pixels) {
            out.extend(encode_row(&ready));
        }
    }
    assert_eq!(out, picture_in_order(&painter));
}

#[test]
fn rows_that_finish_in_any_order_are_put_out_from_the_top() {
    let painter = Painter::new(3, 8);
    for order in [[3, 1, 0, 2, 7, 6, 4, 5], [7, 0, 6, 1, 5, 2, 4, 3], [0, 2, 1, 4, 3, 6, 5, 7]] {
        let mut out = painter.header();
        let mut buffer = SeqBuffer::new();
        for row in order {
            let pixels = painter.parallel_render_row(row, &|| false, &shade);
            for ready in buffer.accept(row, pixels) {
                out.extend(encode_row(&ready));
            }
        }
        assert_eq!(out, picture_in_order(&painter));
    }
}

#[test]
fn the_same_picture_is_the_same_bytes() {
    let painter = Painter::new(7, 5).parallel(false);
    assert_eq!(picture_in_order(&painter), picture_in_order(&painter));
}
