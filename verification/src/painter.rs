//! The settings of a render, and what the render puts out: the header of the
//! image, then the rows of pixels from the top of the picture to its bottom.

use crate::color::RGBInt;
use crate::ppm::{document, header, pixel_lines, write_header};
use crate::seq_iter::{
    arrived, deliver, distinct_indices, index_at, lemma_deliver_settles,
    lemma_delivery_in_sequence,
};
use vstd::prelude::*;

verus! {

/// `num_cpus::get`: the number of processors that the machine offers to this
/// process. The contract claims that there is at least one, as the outside
/// crate documents.
#[verifier::external_body]
fn available_cpus() -> (count: usize)
    ensures
        count >= 1,
{
    num_cpus::get()
}

/// One more than the given number, where that fits.
pub open spec fn one_more(count: usize) -> Option<usize> {
    if count < usize::MAX {
        Some((count + 1) as usize)
    } else {
        None
    }
}

/// The number of threads of the pool that renders with `threads` workers
/// asked for on a machine with `cpus` processors: one for each worker and one
/// that puts the rows out, where no number of workers was asked for as many
/// workers as there are processors.
pub open spec fn spec_pool_size(threads: usize, cpus: usize) -> Option<usize> {
    if threads == 0 {
        one_more(cpus)
    } else {
        one_more(threads)
    }
}

/// The number of threads of the pool: see `spec_pool_size`. `None` where the
/// number does not fit the machine's integers.
#[verifier::when_used_as_spec(spec_pool_size)]
pub fn pool_size(threads: usize, cpus: usize) -> (size: Option<usize>)
    ensures
        size == spec_pool_size(threads, cpus),
{
    let workers = if threads == 0 {
        cpus
    } else {
        threads
    };
    if workers < usize::MAX {
        Some(workers + 1)
    } else {
        None
    }
}

/// How a picture is rendered: its size in pixels, the number of samples
/// taken for each pixel, whether the colours are gamma corrected, the number
/// of worker threads (0 for as many as the machine has processors) and
/// whether rows are rendered in parallel at all.
#[derive(Debug)]
pub struct Painter {
    pub width: usize,
    pub height: usize,
    pub samples: usize,
    pub gamma: bool,
    pub threads: usize,
    pub parallel: bool,
}

impl Painter {
    /// A painter for a picture of the given size: 50 samples for each pixel,
    /// gamma corrected, rendered in parallel by as many workers as the
    /// machine has processors.
    pub fn new(width: usize, height: usize) -> (painter: Self)
        ensures
            painter == (Painter {
                width,
                height,
                samples: 50,
                gamma: true,
                threads: 0,
                parallel: true,
            }),
    {
        Self { width, height, gamma: true, samples: 50, threads: 0, parallel: true }
    }

    /// The same painter, with gamma correction switched on or off.
    pub fn gamma(self, gamma: bool) -> (painter: Self)
        ensures
            painter == (Painter { gamma, ..self }),
    {
        Self { gamma, ..self }
    }

    /// The same painter, with another number of samples for each pixel.
    pub fn samples(self, samples: usize) -> (painter: Self)
        ensures
            painter == (Painter { samples, ..self }),
    {
        Self { samples, ..self }
    }

    /// The same painter, with another number of samples for each pixel.
    pub fn set_samples(self, samples: usize) -> (painter: Self)
        ensures
            painter == (Painter { samples, ..self }),
    {
        self.samples(samples)
    }

    /// The same painter, with another number of worker threads; 0 asks for
    /// as many as the machine has processors.
    pub fn threads(self, threads: usize) -> (painter: Self)
        ensures
            painter == (Painter { threads, ..self }),
    {
        Self { threads, ..self }
    }

    /// The same painter, rendering rows in parallel or one after the other.
    pub fn parallel(self, parallel: bool) -> (painter: Self)
        ensures
            painter == (Painter { parallel, ..self }),
    {
        Self { parallel, ..self }
    }

    /// The number of threads of the pool that renders this picture: one more
    /// than the number of workers asked for, or one more than the number of
    /// processors where none was asked for. `None` where that number does not
    /// fit the machine's integers.
    pub fn worker_threads(&self) -> (size: Option<usize>)
        ensures
            self.threads != 0 ==> size == pool_size(self.threads, 0),
            self.threads == 0 ==> exists|cpus: usize| cpus >= 1 && size == pool_size(0, cpus),
    {
        if self.threads == 0 {
            let cpus = available_cpus();
            pool_size(0, cpus)
        } else {
            pool_size(self.threads, 0)
        }
    }

    /// Whether the place of a sample within its pixel is drawn at random: it
    /// is, unless a single sample is taken, which looks through the corner of
    /// the pixel.
    pub fn jitter(&self) -> (jitter: bool)
        ensures
            jitter == (self.samples != 1),
    {
        self.samples != 1
    }

    /// The row of the picture counted from its bottom, for a row counted from
    /// its top: the vertical image coordinate grows upwards, while rows are
    /// put out from the top.
    pub fn row_from_bottom(&self, row: usize) -> (up: usize)
        requires
            row < self.height,
        ensures
            up == self.height - 1 - row,
    {
        self.height - 1 - row
    }

    /// The header of the picture's image.
    pub fn header(&self) -> (out: Vec<u8>)
        ensures
            out@ == header(self.width as nat, self.height as nat),
    {
        let mut out: Vec<u8> = Vec::new();
        write_header(&mut out, self.width, self.height);
        proof {
            assert(out@ =~= header(self.width as nat, self.height as nat));
        }
        out
    }

    /// Whether the outcome of rendering a row is what `seq_render_row` may give:
    /// as many pixels as the picture is wide, each of them what `pixel`
    /// gave for its row and column.
    pub open spec fn rendered<P: Fn(usize, usize) -> RGBInt>(
        &self,
        row: usize,
        pixel: &P,
        out: Seq<RGBInt>,
    ) -> bool {
        &&& out.len() == self.width
        &&& forall|column: usize|
            column < self.width ==> call_ensures(*pixel, (row, column), #[trigger] out[column as int])
    }

    /// Renders one row, pixel by pixel from the left.
    pub fn seq_render_row<P: Fn(usize, usize) -> RGBInt>(&self, row: usize, pixel: &P) -> (out:
        Vec<RGBInt>)
        requires
            forall|column: usize| column < self.width ==> call_requires(*pixel, (row, column)),
        ensures
            self.rendered(row, pixel, out@),
    {
        let mut out: Vec<RGBInt> = Vec::new();
        let mut column: usize = 0;
        while column < self.width
            invariant
                column <= self.width,
                out.len() == column,
                forall|c: usize| c < self.width ==> call_requires(*pixel, (row, c)),
                forall|c: usize| c < column ==> call_ensures(*pixel, (row, c), #[trigger] out[c as int]),
            decreases self.width - column,
        {
            let color = pixel(row, column);
            out.push(color);
            column += 1;
        }
        out
    }

    /// Whether a pixel is what `parallel_render_row` may put in a column:
    /// what `pixel` gave for the row and column where `cancelled` had
    /// answered no, black where it had answered yes.
    pub open spec fn pixel_unless_cancelled<C: Fn() -> bool, P: Fn(usize, usize) -> RGBInt>(
        row: usize,
        column: usize,
        cancelled: &C,
        pixel: &P,
        color: RGBInt,
    ) -> bool {
        ||| call_ensures(*cancelled, (), false) && call_ensures(*pixel, (row, column), color)
        ||| call_ensures(*cancelled, (), true) && color == RGBInt::black()
    }

    /// Whether the outcome of rendering a row is what `parallel_render_row`
    /// may give: as many pixels as the picture is wide, each of them as
    /// `pixel_unless_cancelled` says.
    pub open spec fn rendered_unless_cancelled<C: Fn() -> bool, P: Fn(usize, usize) -> RGBInt>(
        &self,
        row: usize,
        cancelled: &C,
        pixel: &P,
        out: Seq<RGBInt>,
    ) -> bool {
        &&& out.len() == self.width
        &&& forall|column: usize|
            column < self.width ==> #[trigger] Self::pixel_unless_cancelled(
                row,
                column,
                cancelled,
                pixel,
                out[column as int],
            )
    }

    /// Renders one row, pixel by pixel from the left, for as long as the
    /// render has not been cancelled: before each pixel it asks `cancelled`,
    /// and puts a black pixel in place of one that it no longer renders.
    pub fn parallel_render_row<C: Fn() -> bool, P: Fn(usize, usize) -> RGBInt>(
        &self,
        row: usize,
        cancelled: &C,
        pixel: &P,
    ) -> (out: Vec<RGBInt>)
        requires
            call_requires(*cancelled, ()),
            forall|column: usize| column < self.width ==> call_requires(*pixel, (row, column)),
        ensures
            self.rendered_unless_cancelled(row, cancelled, pixel, out@),
    {
        let mut out: Vec<RGBInt> = Vec::new();
        let mut column: usize = 0;
        while column < self.width
            invariant
                column <= self.width,
                out.len() == column,
                call_requires(*cancelled, ()),
                forall|c: usize| c < self.width ==> call_requires(*pixel, (row, c)),
                forall|c: usize|
                    c < column ==> #[trigger] Self::pixel_unless_cancelled(
                        row,
                        c,
                        cancelled,
                        pixel,
                        out[c as int],
                    ),
            decreases self.width - column,
        {
            let color = if cancelled() {
                RGBInt::new(0, 0, 0)
            } else {
                pixel(row, column)
            };
            out.push(color);
            column += 1;
        }
        out
    }
}

/// The pixels of some rows, one row after the other.
pub open spec fn row_major(rows: Seq<Seq<RGBInt>>) -> Seq<RGBInt>
    decreases rows.len(),
{
    if rows.len() == 0 {
        Seq::empty()
    } else {
        row_major(rows.drop_last()) + rows.last()
    }
}

/// The lines of some rows, each row encoded by itself, one after the other.
pub open spec fn rows_lines(rows: Seq<Seq<RGBInt>>) -> Seq<u8>
    decreases rows.len(),
{
    if rows.len() == 0 {
        Seq::empty()
    } else {
        rows_lines(rows.drop_last()) + pixel_lines(rows.last())
    }
}

/// The header followed by the lines of each row, from the top row down, is
/// the image of the rows' pixels in row-major order.
pub proof fn lemma_rows_make_the_document(width: nat, height: nat, rows: Seq<Seq<RGBInt>>)
    ensures
        header(width, height) + rows_lines(rows) == document(width, height, row_major(rows)),
    decreases rows.len(),
{
    if rows.len() == 0 {
    } else {
        lemma_rows_make_the_document(width, height, rows.drop_last());
        crate::ppm::lemma_pixel_lines_concat(row_major(rows.drop_last()), rows.last());
        let before = rows.drop_last();
        assert(header(width, height) + rows_lines(rows) =~= (header(width, height) + rows_lines(
            before,
        )) + pixel_lines(rows.last()));
        assert(document(width, height, row_major(rows)) =~= document(
            width,
            height,
            row_major(before),
        ) + pixel_lines(rows.last()));
    }
}

/// Output in row-major order. Let the rows of a picture arrive at the buffer
/// in any order whatever, each of them once, with its number counted from
/// the top. Then the header followed by the lines of the rows as the buffer
/// hands them out is the image of the picture, row by row from the top.
pub proof fn lemma_rows_leave_from_the_top(
    width: nat,
    height: nat,
    rows: Seq<Seq<RGBInt>>,
    arrivals: Seq<(usize, Seq<RGBInt>)>,
)
    requires
        arrivals.len() == rows.len(),
        distinct_indices(arrivals),
        forall|i: int|
            0 <= i < arrivals.len() ==> #[trigger] index_at(arrivals, i) < rows.len()
                && arrivals[i].1 == rows[arrivals[i].0 as int],
    ensures
        deliver(arrivals).out == rows,
        header(width, height) + rows_lines(deliver(arrivals).out) == document(
            width,
            height,
            row_major(rows),
        ),
{
    let out = deliver(arrivals).out;
    lemma_deliver_settles(arrivals);
    lemma_delivery_in_sequence(arrivals);
    assert forall|row: int| 0 <= row < rows.len() implies out[row] == rows[row] by {
        assert(arrived(arrivals, row as nat));
        let i = choose|i: int|
            0 <= i < arrivals.len() && #[trigger] index_at(arrivals, i) == row as nat;
        assert(out[index_at(arrivals, i) as int] == arrivals[i].1);
    }
    assert(out =~= rows);
    lemma_rows_make_the_document(width, height, rows);
}

/// Whether `pixel` answers as the function does.
pub open spec fn shades_as<P: Fn(usize, usize) -> RGBInt>(
    pixel: P,
    shade: spec_fn(usize, usize) -> RGBInt,
) -> bool {
    forall|row: usize, column: usize, color: RGBInt| #[trigger]
        call_ensures(pixel, (row, column), color) ==> color == shade(row, column)
}

/// The pixels of a picture, row by row from the top, where the colour of a
/// pixel is a function of its row and its column.
pub open spec fn picture(width: nat, height: nat, shade: spec_fn(usize, usize) -> RGBInt) -> Seq<
    RGBInt,
> {
    Seq::new(
        width * height,
        |place: int| shade((place / width as int) as usize, (place % width as int) as usize),
    )
}

/// The rows of a picture, each rendered by itself, make the picture.
proof fn lemma_rows_make_the_picture(
    width: nat,
    rows: Seq<Seq<RGBInt>>,
    shade: spec_fn(usize, usize) -> RGBInt,
)
    requires
        width * rows.len() <= usize::MAX,
        rows.len() <= usize::MAX,
        forall|row: int, column: int|
            0 <= row < rows.len() && 0 <= column < width ==> (#[trigger] rows[row]).len() == width
                && #[trigger] rows[row][column] == shade(row as usize, column as usize),
        forall|row: int| 0 <= row < rows.len() ==> (#[trigger] rows[row]).len() == width,
    ensures
        row_major(rows) == picture(width, rows.len(), shade),
    decreases rows.len(),
{
    if rows.len() == 0 {
        assert(width * 0 == 0) by (nonlinear_arith);
        assert(row_major(rows) =~= picture(width, rows.len(), shade));
    } else {
        let before = rows.drop_last();
        let last = rows.len() - 1;
        assert(width * before.len() <= width * rows.len()) by (nonlinear_arith)
            requires
                before.len() <= rows.len(),
        ;
        assert forall|row: int, column: int|
            0 <= row < before.len() && 0 <= column < width implies (#[trigger] before[row]).len()
            == width && #[trigger] before[row][column] == shade(row as usize, column as usize) by {
            assert(before[row] == rows[row]);
        }
        assert forall|row: int| 0 <= row < before.len() implies (#[trigger] before[row]).len()
            == width by {
            assert(before[row] == rows[row]);
        }
        lemma_rows_make_the_picture(width, before, shade);
        let whole = picture(width, rows.len(), shade);
        let joined = row_major(before) + rows.last();
        assert(width * rows.len() == width * before.len() + width) by (nonlinear_arith)
            requires
                rows.len() == before.len() + 1,
        ;
        assert(joined.len() == whole.len());
        assert forall|place: int| 0 <= place < whole.len() implies joined[place]
            == whole[place] by {
            let w = width as int;
            if place < w * last {
                assert(joined[place] == picture(width, before.len(), shade)[place]);
            } else {
                let column = place - w * last;
                assert(joined[place] == rows[last][column]);
                vstd::arithmetic::div_mod::lemma_fundamental_div_mod_converse(
                    place,
                    w,
                    last,
                    column,
                );
            }
        }
        assert(joined =~= whole);
    }
}

/// The same picture is the same bytes. Where the colour of a pixel is a
/// function of its row and column, as it is when every random draw comes
/// from a generator with a fixed seed, the header followed by the lines of
/// the rendered rows is one image only, whichever way the rows were
/// rendered: the image of the picture that the function makes.
pub proof fn lemma_picture_is_determined<P: Fn(usize, usize) -> RGBInt>(
    painter: Painter,
    pixel: P,
    shade: spec_fn(usize, usize) -> RGBInt,
    rows: Seq<Seq<RGBInt>>,
)
    requires
        painter.width * painter.height <= usize::MAX,
        rows.len() == painter.height,
        forall|row: usize| row < painter.height ==> painter.rendered(row, &pixel, #[trigger] rows[row as int]),
        shades_as(pixel, shade),
    ensures
        header(painter.width as nat, painter.height as nat) + rows_lines(rows) == document(
            painter.width as nat,
            painter.height as nat,
            picture(painter.width as nat, painter.height as nat, shade),
        ),
{
    assert forall|row: int, column: int|
        0 <= row < rows.len() && 0 <= column < painter.width implies (#[trigger] rows[row]).len()
        == painter.width && #[trigger] rows[row][column] == shade(
        row as usize,
        column as usize,
    ) by {
        assert(painter.rendered(row as usize, &pixel, rows[row as usize as int]));
        assert(call_ensures(pixel, (row as usize, column as usize), rows[row][column as usize as int]));
    }
    assert forall|row: int| 0 <= row < rows.len() implies (#[trigger] rows[row]).len()
        == painter.width by {
        assert(painter.rendered(row as usize, &pixel, rows[row as usize as int]));
    }
    lemma_rows_make_the_picture(painter.width as nat, rows, shade);
    lemma_rows_make_the_document(painter.width as nat, painter.height as nat, rows);
}

} // verus!
