//! Rendering: every `travel` block of a program gives as many frames as it
//! declares, each drawn on a fresh black canvas by one run of its body.

use vstd::prelude::*;
use crate::ast::{block_view, Expr, ExprView, Stmt, StmtView};
use crate::canvas::{draw_circle, with_circle};
use crate::error::ArithmeticError;
use crate::eval::{eval_condition, holds};
use crate::text::str_eq;

verus! {

/// The width of every frame, in pixels.
pub const WIDTH: usize = 200;

/// The height of every frame, in pixels.
pub const HEIGHT: usize = 200;

/// The radius of the circle that `circle()` draws.
pub const CIRCLE_RADIUS: i32 = 50;

/// The colour of the circle that `circle()` draws: solid red.
pub open spec fn circle_color() -> Seq<u8> {
    seq![255u8, 0u8, 0u8]
}

/// A black canvas of `w` by `h` pixels.
pub open spec fn blank_canvas(w: int, h: int) -> Seq<u8> {
    Seq::new((w * h * 3) as nat, |i: int| 0u8)
}

/// The canvas after `circle()`: a red circle of radius 50 about the centre.
pub open spec fn with_centered_circle(canvas: Seq<u8>, w: int, h: int) -> Seq<u8> {
    with_circle(canvas, w, h, w / 2, h / 2, CIRCLE_RADIUS as int, circle_color())
}

/// The canvas after one statement of a block, at a frame index. The
/// statement `circle()` draws the circle, whatever its repeat count; an `if`
/// runs one of its two bodies, by its condition; every other statement
/// leaves the canvas as it is and evaluates nothing.
pub open spec fn after_stmt(
    stmt: StmtView,
    canvas: Seq<u8>,
    w: int,
    h: int,
    frame: u32,
) -> Result<Seq<u8>, ArithmeticError>
    decreases stmt, 0nat,
{
    match stmt {
        StmtView::Expr(expr, _) => if expr == ExprView::Call("circle"@) {
            Ok(with_centered_circle(canvas, w, h))
        } else {
            Ok(canvas)
        },
        StmtView::If { condition, then_body, else_body } => match holds(condition, frame) {
            Err(e) => Err(e),
            Ok(true) => after_block(then_body, canvas, w, h, frame),
            Ok(false) => after_block(else_body, canvas, w, h, frame),
        },
        StmtView::Travel { .. } => Ok(canvas),
    }
}

/// The canvas after the statements of a block, in order, at a frame index,
/// or the first failure met.
pub open spec fn after_block(
    block: Seq<StmtView>,
    canvas: Seq<u8>,
    w: int,
    h: int,
    frame: u32,
) -> Result<Seq<u8>, ArithmeticError>
    decreases block, 1nat,
{
    if block.len() == 0 {
        Ok(canvas)
    } else {
        match after_block(block.drop_last(), canvas, w, h, frame) {
            Err(e) => Err(e),
            Ok(drawn) => after_stmt(block.last(), drawn, w, h, frame),
        }
    }
}

/// Whether an expression statement is the call `circle()`.
fn is_circle_call(expr: &Expr) -> (yes: bool)
    ensures
        yes == (expr@ == ExprView::Call("circle"@)),
{
    match expr {
        Expr::Call(name) => str_eq(name.as_str(), "circle"),
        _ => false,
    }
}

/// Runs the statements of a block, in order, against the canvas of the frame
/// with index `t` out of `n`. It stops at the first condition that has no
/// value. The canvas has `w` by `h` pixels, and the coordinates of its
/// centre, where the circle goes, have to fit an `i32`.
pub fn execute_block(block: &[Stmt], buf: &mut [u8], w: usize, h: usize, t: u32, n: u32) -> (out:
    Result<(), ArithmeticError>)
    requires
        old(buf)@.len() == w * h * 3,
        w / 2 <= i32::MAX,
        h / 2 <= i32::MAX,
    ensures
        final(buf)@.len() == old(buf)@.len(),
        match after_block(block_view(block@), old(buf)@, w as int, h as int, t) {
            Ok(canvas) => out is Ok && final(buf)@ == canvas,
            Err(e) => out == Err::<(), ArithmeticError>(e),
        },
    decreases block@,
{
    let ghost before = buf@;
    let ghost stmts = block_view(block@);
    let mut i: usize = 0;
    while i < block.len()
        invariant
            i <= block.len(),
            stmts == block_view(block@),
            buf@.len() == w * h * 3,
            before == old(buf)@,
            before.len() == w * h * 3,
            w / 2 <= i32::MAX,
            h / 2 <= i32::MAX,
            after_block(stmts.take(i as int), before, w as int, h as int, t) == Ok::<
                Seq<u8>,
                ArithmeticError,
            >(buf@),
        decreases block.len() - i,
    {
        let ghost drawn = buf@;
        proof {
            assert(stmts.take(i + 1).drop_last() =~= stmts.take(i as int));
            assert(stmts.take(i + 1).last() == block@[i as int]@);
            assert(after_block(stmts.take(i + 1), before, w as int, h as int, t) == after_stmt(
                block@[i as int]@,
                drawn,
                w as int,
                h as int,
                t,
            ));
        }
        match &block[i] {
            Stmt::Expr(expr, _times) => {
                if is_circle_call(expr) {
                    let cx: i32 = (w / 2) as i32;
                    let cy: i32 = (h / 2) as i32;
                    draw_circle(buf, w, h, cx, cy, CIRCLE_RADIUS, [255, 0, 0]);
                    proof {
                        assert([255u8, 0u8, 0u8]@ =~= circle_color());
                    }
                }
            },
            Stmt::If { condition, then_body, else_body } => {
                let cond_value = match eval_condition(condition, t) {
                    Ok(value) => value,
                    Err(e) => {
                        proof {
                            lemma_block_failure_stays(stmts, i + 1, before, w as int, h as int, t);
                        }
                        return Err(e);
                    },
                };
                let branch = if cond_value {
                    execute_block(then_body.as_slice(), buf, w, h, t, n)
                } else {
                    execute_block(else_body.as_slice(), buf, w, h, t, n)
                };
                match branch {
                    Ok(()) => {},
                    Err(e) => {
                        proof {
                            lemma_block_failure_stays(stmts, i + 1, before, w as int, h as int, t);
                        }
                        return Err(e);
                    },
                }
            },
            _ => {},
        }
        i += 1;
    }
    proof {
        assert(stmts.take(i as int) =~= stmts);
    }
    Ok(())
}

/// A block whose first `k` statements fail fails as they do.
pub proof fn lemma_block_failure_stays(
    block: Seq<StmtView>,
    k: int,
    canvas: Seq<u8>,
    w: int,
    h: int,
    frame: u32,
)
    requires
        0 <= k <= block.len(),
        after_block(block.take(k), canvas, w, h, frame) is Err,
    ensures
        after_block(block, canvas, w, h, frame) == after_block(block.take(k), canvas, w, h, frame),
    decreases block.len() - k,
{
    if k == block.len() {
        assert(block.take(k) =~= block);
    } else {
        assert(block.take(k + 1).drop_last() =~= block.take(k));
        lemma_block_failure_stays(block, k + 1, canvas, w, h, frame);
    }
}

/// The first `count` frames of a `travel` block with the given body: frame
/// `k` is a black canvas after the body has run at index `k`. A failure in
/// some frame is the result for every larger count.
pub open spec fn travel_frames(body: Seq<StmtView>, count: nat) -> Result<
    Seq<Seq<u8>>,
    ArithmeticError,
>
    decreases count,
{
    if count == 0 {
        Ok(Seq::empty())
    } else {
        match travel_frames(body, (count - 1) as nat) {
            Err(e) => Err(e),
            Ok(frames) => match after_block(
                body,
                blank_canvas(WIDTH as int, HEIGHT as int),
                WIDTH as int,
                HEIGHT as int,
                (count - 1) as u32,
            ) {
                Err(e) => Err(e),
                Ok(canvas) => Ok(frames.push(canvas)),
            },
        }
    }
}

/// The frames of one top-level statement: those of a `travel` block, and
/// none for any other statement.
pub open spec fn stmt_frames(stmt: StmtView) -> Result<Seq<Seq<u8>>, ArithmeticError> {
    match stmt {
        StmtView::Travel { frames, body } => travel_frames(body, frames as nat),
        _ => Ok(Seq::empty()),
    }
}

/// The frames of a program: those of its top-level statements, in order, or
/// the first failure met.
pub open spec fn rendered(program: Seq<StmtView>) -> Result<Seq<Seq<u8>>, ArithmeticError>
    decreases program.len(),
{
    if program.len() == 0 {
        Ok(Seq::empty())
    } else {
        match rendered(program.drop_last()) {
            Err(e) => Err(e),
            Ok(frames) => match stmt_frames(program.last()) {
                Err(e) => Err(e),
                Ok(more) => Ok(frames + more),
            },
        }
    }
}

/// The number of frames that a program declares: the sum of the frame
/// counts of its top-level `travel` blocks.
pub open spec fn frame_count(program: Seq<StmtView>) -> nat
    decreases program.len(),
{
    if program.len() == 0 {
        0
    } else {
        frame_count(program.drop_last()) + match program.last() {
            StmtView::Travel { frames, .. } => frames as nat,
            _ => 0,
        }
    }
}

/// The contents of a list of frame buffers.
pub open spec fn buffers(frames: Seq<Vec<u8>>) -> Seq<Seq<u8>> {
    Seq::new(frames.len(), |i: int| frames[i]@)
}

/// A `travel` block that fails within its first `k` frames fails alike for
/// every larger count.
pub proof fn lemma_travel_failure_stays(body: Seq<StmtView>, k: nat, count: nat)
    requires
        k <= count,
        travel_frames(body, k) is Err,
    ensures
        travel_frames(body, count) == travel_frames(body, k),
    decreases count - k,
{
    if k < count {
        lemma_travel_failure_stays(body, k + 1, count);
    }
}

/// A program whose first `k` statements fail fails as they do.
pub proof fn lemma_program_failure_stays(program: Seq<StmtView>, k: int)
    requires
        0 <= k <= program.len(),
        rendered(program.take(k)) is Err,
    ensures
        rendered(program) == rendered(program.take(k)),
    decreases program.len() - k,
{
    if k == program.len() {
        assert(program.take(k) =~= program);
    } else {
        assert(program.take(k + 1).drop_last() =~= program.take(k));
        lemma_program_failure_stays(program, k + 1);
    }
}

/// Renders a program: every top-level `travel` block gives its frames, in
/// order, each a canvas of 200 by 200 pixels; other top-level statements give
/// none. The first condition without a value ends the rendering.
pub fn run_program(stmts: Vec<Stmt>) -> (out: Result<Vec<Vec<u8>>, ArithmeticError>)
    ensures
        match rendered(block_view(stmts@)) {
            Ok(frames) => out is Ok && buffers(out->Ok_0@) == frames,
            Err(e) => out == Err::<Vec<Vec<u8>>, ArithmeticError>(e),
        },
        out matches Ok(frames) ==> {
            &&& frames@.len() == frame_count(block_view(stmts@))
            &&& forall|k: int| 0 <= k < frames@.len() ==> (#[trigger] frames@[k]).len() == WIDTH
                * HEIGHT * 3
        },
{
    let ghost program = block_view(stmts@);
    let mut frames: Vec<Vec<u8>> = Vec::new();
    let mut i: usize = 0;
    proof {
        assert(program.take(0) =~= Seq::empty());
        assert(buffers(frames@) =~= Seq::empty());
    }
    while i < stmts.len()
        invariant
            i <= stmts.len(),
            program == block_view(stmts@),
            rendered(program.take(i as int)) == Ok::<Seq<Seq<u8>>, ArithmeticError>(
                buffers(frames@),
            ),
        decreases stmts.len() - i,
    {
        proof {
            assert(program.take(i + 1).drop_last() =~= program.take(i as int));
            assert(program.take(i + 1).last() == stmts@[i as int]@);
        }
        let ghost earlier = buffers(frames@);
        match &stmts[i] {
            Stmt::Travel { frames: count, body } => {
                let n: u32 = *count;
                let ghost steps = block_view(body@);
                let mut t: u32 = 0;
                while t < n
                    invariant
                        t <= n,
                        i < stmts.len(),
                        program == block_view(stmts@),
                        rendered(program.take(i as int)) == Ok::<Seq<Seq<u8>>, ArithmeticError>(
                            earlier,
                        ),
                        program.take(i + 1).drop_last() == program.take(i as int),
                        program.take(i + 1).last() == (StmtView::Travel { frames: n, body: steps }),
                        steps == block_view(body@),
                        travel_frames(steps, t as nat) is Ok,
                        buffers(frames@) == earlier + travel_frames(steps, t as nat)->Ok_0,
                    ensures
                        t == n,
                    decreases n - t,
                {
                    let mut buf: Vec<u8> = vec![0u8; WIDTH * HEIGHT * 3];
                    proof {
                        assert(buf@ =~= blank_canvas(WIDTH as int, HEIGHT as int));
                    }
                    match execute_block(body.as_slice(), buf.as_mut_slice(), WIDTH, HEIGHT, t, n) {
                        Ok(()) => {},
                        Err(e) => {
                            proof {
                                lemma_travel_failure_stays(steps, (t + 1) as nat, n as nat);
                                lemma_program_failure_stays(program, i + 1);
                            }
                            return Err(e);
                        },
                    }
                    proof {
                        let done = travel_frames(steps, t as nat)->Ok_0;
                        assert(buffers(frames@.push(buf)) =~= (earlier + done).push(buf@));
                        assert((earlier + done).push(buf@) =~= earlier + done.push(buf@));
                    }
                    frames.push(buf);
                    t += 1;
                }
            },
            _ => {
                proof {
                    assert(earlier + Seq::<Seq<u8>>::empty() =~= earlier);
                }
            },
        }
        i += 1;
    }
    proof {
        assert(program.take(i as int) =~= program);
        lemma_rendered_shape(program);
        assert forall|k: int| 0 <= k < frames@.len() implies (#[trigger] frames@[k]).len() == WIDTH
            * HEIGHT * 3 by {
            assert(buffers(frames@)[k] == frames@[k]@);
        }
    }
    Ok(frames)
}

/// Running a statement keeps the size of the canvas.
pub proof fn lemma_stmt_keeps_size(stmt: StmtView, canvas: Seq<u8>, w: int, h: int, frame: u32)
    ensures
        after_stmt(stmt, canvas, w, h, frame) matches Ok(drawn) ==> drawn.len() == canvas.len(),
    decreases stmt, 0nat,
{
    match stmt {
        StmtView::If { condition, then_body, else_body } => {
            lemma_block_keeps_size(then_body, canvas, w, h, frame);
            lemma_block_keeps_size(else_body, canvas, w, h, frame);
        },
        _ => {},
    }
}

/// Running a block keeps the size of the canvas.
pub proof fn lemma_block_keeps_size(
    block: Seq<StmtView>,
    canvas: Seq<u8>,
    w: int,
    h: int,
    frame: u32,
)
    ensures
        after_block(block, canvas, w, h, frame) matches Ok(drawn) ==> drawn.len() == canvas.len(),
    decreases block, 1nat,
{
    if block.len() > 0 {
        lemma_block_keeps_size(block.drop_last(), canvas, w, h, frame);
        match after_block(block.drop_last(), canvas, w, h, frame) {
            Ok(drawn) => {
                lemma_stmt_keeps_size(block.last(), drawn, w, h, frame);
            },
            Err(_) => {},
        }
    }
}

/// A `travel` block that renders gives exactly the frames it declares, each
/// of 200 by 200 pixels with three bytes a pixel.
pub proof fn lemma_travel_shape(body: Seq<StmtView>, count: nat)
    ensures
        travel_frames(body, count) matches Ok(frames) ==> {
            &&& frames.len() == count
            &&& forall|k: int| 0 <= k < frames.len() ==> (#[trigger] frames[k]).len() == WIDTH
                * HEIGHT * 3
        },
    decreases count,
{
    if count > 0 {
        lemma_travel_shape(body, (count - 1) as nat);
        lemma_block_keeps_size(
            body,
            blank_canvas(WIDTH as int, HEIGHT as int),
            WIDTH as int,
            HEIGHT as int,
            (count - 1) as u32,
        );
    }
}

/// A program that renders gives exactly the frames it declares, the sum of
/// the frame counts of its top-level `travel` blocks, and each frame has 200
/// by 200 pixels with three bytes a pixel.
pub proof fn lemma_rendered_shape(program: Seq<StmtView>)
    ensures
        rendered(program) matches Ok(frames) ==> {
            &&& frames.len() == frame_count(program)
            &&& forall|k: int| 0 <= k < frames.len() ==> (#[trigger] frames[k]).len() == WIDTH
                * HEIGHT * 3
        },
    decreases program.len(),
{
    if program.len() > 0 {
        lemma_rendered_shape(program.drop_last());
        match program.last() {
            StmtView::Travel { frames, body } => {
                lemma_travel_shape(body, frames as nat);
            },
            _ => {},
        }
    }
}

/// An `if` whose condition has a value runs exactly one of its bodies: the
/// first where the condition holds, the second where it does not.
pub proof fn lemma_if_runs_one_body(
    condition: ExprView,
    then_body: Seq<StmtView>,
    else_body: Seq<StmtView>,
    canvas: Seq<u8>,
    w: int,
    h: int,
    frame: u32,
)
    requires
        holds(condition, frame) is Ok,
    ensures
        after_stmt(StmtView::If { condition, then_body, else_body }, canvas, w, h, frame) == (if holds(
            condition,
            frame,
        )->Ok_0 {
            after_block(then_body, canvas, w, h, frame)
        } else {
            after_block(else_body, canvas, w, h, frame)
        }),
{
}

/// Frames carry nothing over: frame `k` of a `travel` block that renders is
/// what its body draws on a black canvas at index `k`, whatever the other
/// frames are.
pub proof fn lemma_travel_frame(body: Seq<StmtView>, count: nat, k: int)
    requires
        travel_frames(body, count) is Ok,
        0 <= k < count,
    ensures
        travel_frames(body, count)->Ok_0.len() == count,
        after_block(
            body,
            blank_canvas(WIDTH as int, HEIGHT as int),
            WIDTH as int,
            HEIGHT as int,
            k as u32,
        ) == Ok::<Seq<u8>, ArithmeticError>(travel_frames(body, count)->Ok_0[k]),
    decreases count,
{
    lemma_travel_shape(body, count);
    lemma_travel_shape(body, (count - 1) as nat);
    if k < count - 1 {
        lemma_travel_frame(body, (count - 1) as nat, k);
    }
}

/// The program `travel n: circle()`, with any repeat count on the call.
pub open spec fn travel_circle(n: u32, times: u32) -> Seq<StmtView> {
    seq![
        StmtView::Travel {
            frames: n,
            body: seq![StmtView::Expr(ExprView::Call("circle"@), times)],
        },
    ]
}

/// The program `travel n: circle()` renders exactly `n` frames, and each is
/// the black canvas of 200 by 200 pixels with the red circle on it.
pub proof fn lemma_travel_circle_frames(n: u32, times: u32)
    ensures
        rendered(travel_circle(n, times)) == Ok::<Seq<Seq<u8>>, ArithmeticError>(
            Seq::new(
                n as nat,
                |k: int|
                    with_centered_circle(
                        blank_canvas(WIDTH as int, HEIGHT as int),
                        WIDTH as int,
                        HEIGHT as int,
                    ),
            ),
        ),
{
    let body = seq![StmtView::Expr(ExprView::Call("circle"@), times)];
    let program = travel_circle(n, times);
    lemma_circle_body_frames(body, times, n as nat);
    assert(program.drop_last() =~= Seq::empty());
    assert(program.last() == (StmtView::Travel { frames: n, body }));
    assert(rendered(program.drop_last()) == Ok::<Seq<Seq<u8>>, ArithmeticError>(Seq::empty()));
    assert(Seq::<Seq<u8>>::empty() + travel_frames(body, n as nat)->Ok_0 =~= travel_frames(
        body,
        n as nat,
    )->Ok_0);
}

/// The first `count` frames of a `travel` block whose body is `circle()`.
proof fn lemma_circle_body_frames(body: Seq<StmtView>, times: u32, count: nat)
    requires
        body == seq![StmtView::Expr(ExprView::Call("circle"@), times)],
    ensures
        travel_frames(body, count) == Ok::<Seq<Seq<u8>>, ArithmeticError>(
            Seq::new(
                count,
                |k: int|
                    with_centered_circle(
                        blank_canvas(WIDTH as int, HEIGHT as int),
                        WIDTH as int,
                        HEIGHT as int,
                    ),
            ),
        ),
    decreases count,
{
    let blank = blank_canvas(WIDTH as int, HEIGHT as int);
    let frame = with_centered_circle(blank, WIDTH as int, HEIGHT as int);
    if count > 0 {
        lemma_circle_body_frames(body, times, (count - 1) as nat);
        let index: u32 = (count - 1) as u32;
        assert(body.drop_last() =~= Seq::empty());
        assert(after_block(body.drop_last(), blank, WIDTH as int, HEIGHT as int, index) == Ok::<
            Seq<u8>,
            ArithmeticError,
        >(blank));
        assert(body.last() == StmtView::Expr(ExprView::Call("circle"@), times));
        assert(after_stmt(body.last(), blank, WIDTH as int, HEIGHT as int, index) == Ok::<
            Seq<u8>,
            ArithmeticError,
        >(frame));
        assert(after_block(body, blank, WIDTH as int, HEIGHT as int, index) == Ok::<
            Seq<u8>,
            ArithmeticError,
        >(frame));
        assert(Seq::new((count - 1) as nat, |k: int| frame).push(frame) =~= Seq::new(
            count,
            |k: int| frame,
        ));
    } else {
        assert(Seq::new(count, |k: int| frame) =~= Seq::empty());
    }
}

} // verus!
