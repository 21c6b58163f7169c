//! The decisions of a window capture through the Windows GDI: which handles
//! to release when a step fails, the flags and sizes it passes, and how the
//! raw bitmap becomes an image.

use vstd::prelude::*;
use crate::raster::{Image, raster_from_bytes, flip_spec};

verus! {

/// Why a window capture failed.
#[derive(Clone, Copy, Debug, PartialEq, Eq, Structural)]
pub enum WSError {
    GetDCIsNull,
    GetClientRectIsZero,
    CreateCompatibleDCIsNull,
    CreateCompatibleBitmapIsNull,
    SelectObjectError,
    PrintWindowIsZero,
    GetDIBitsError,
    GetSystemMetricsIsZero,
    StretchBltIsZero,
}

/// Which part of the window to capture.
#[derive(Clone, Copy, Debug, PartialEq, Eq, Structural)]
pub enum Area {
    /// The whole window, frame included.
    Full,
    /// The client area only.
    ClientOnly,
}

/// The steps of a capture, in the order they run.
#[derive(Clone, Copy, Debug, PartialEq, Eq, Structural)]
pub enum CaptureStep {
    /// Get the window's device context.
    GetDc,
    /// Get the window's (or client area's) rectangle.
    GetRect,
    /// Create a memory device context.
    CreateDc,
    /// Create the bitmap to draw into.
    CreateBitmap,
    /// Select the bitmap into the memory device context.
    SelectBitmap,
    /// Have the window draw itself into the memory device context.
    PrintWindow,
    /// Copy the bitmap's bits out.
    GetBits,
}

/// The position of a step in the capture sequence.
pub open spec fn step_rank(s: CaptureStep) -> int {
    match s {
        CaptureStep::GetDc => 0,
        CaptureStep::GetRect => 1,
        CaptureStep::CreateDc => 2,
        CaptureStep::CreateBitmap => 3,
        CaptureStep::SelectBitmap => 4,
        CaptureStep::PrintWindow => 5,
        CaptureStep::GetBits => 6,
    }
}

/// The handles to give back.
#[derive(Clone, Copy, Debug, PartialEq, Eq, Structural)]
pub struct Release {
    /// Delete the memory device context.
    pub memory_dc: bool,
    /// Delete the bitmap.
    pub bitmap: bool,
    /// Release the window's device context.
    pub screen_dc: bool,
}

/// The error a capture reports when `step` fails, and the handles it then
/// releases: those acquired by the steps that succeeded before it.
pub open spec fn failure_spec(step: CaptureStep) -> (WSError, Release) {
    let e = match step {
        CaptureStep::GetDc => WSError::GetDCIsNull,
        CaptureStep::GetRect => WSError::GetClientRectIsZero,
        CaptureStep::CreateDc => WSError::CreateCompatibleDCIsNull,
        CaptureStep::CreateBitmap => WSError::CreateCompatibleBitmapIsNull,
        CaptureStep::SelectBitmap => WSError::SelectObjectError,
        CaptureStep::PrintWindow => WSError::PrintWindowIsZero,
        CaptureStep::GetBits => WSError::GetDIBitsError,
    };
    (
        e,
        Release {
            memory_dc: step_rank(step) >= 3,
            bitmap: step_rank(step) >= 4,
            screen_dc: step_rank(step) >= 1,
        },
    )
}

/// The error a capture reports when `step` fails, and the handles it then
/// releases: exactly those acquired by the steps that succeeded before.
pub fn failure_of(step: CaptureStep) -> (r: (WSError, Release))
    ensures
        r == failure_spec(step),
        r.1.screen_dc == (step_rank(step) >= 1),
        r.1.memory_dc == (step_rank(step) >= 3),
        r.1.bitmap == (step_rank(step) >= 4),
        step == CaptureStep::GetDc ==> r.0 == WSError::GetDCIsNull,
        step == CaptureStep::GetRect ==> r.0 == WSError::GetClientRectIsZero,
        step == CaptureStep::CreateDc ==> r.0 == WSError::CreateCompatibleDCIsNull,
        step == CaptureStep::CreateBitmap ==> r.0 == WSError::CreateCompatibleBitmapIsNull,
        step == CaptureStep::SelectBitmap ==> r.0 == WSError::SelectObjectError,
        step == CaptureStep::PrintWindow ==> r.0 == WSError::PrintWindowIsZero,
        step == CaptureStep::GetBits ==> r.0 == WSError::GetDIBitsError,
{
    match step {
        CaptureStep::GetDc => (
            WSError::GetDCIsNull,
            Release { memory_dc: false, bitmap: false, screen_dc: false },
        ),
        CaptureStep::GetRect => (
            WSError::GetClientRectIsZero,
            Release { memory_dc: false, bitmap: false, screen_dc: true },
        ),
        CaptureStep::CreateDc => (
            WSError::CreateCompatibleDCIsNull,
            Release { memory_dc: false, bitmap: false, screen_dc: true },
        ),
        CaptureStep::CreateBitmap => (
            WSError::CreateCompatibleBitmapIsNull,
            Release { memory_dc: true, bitmap: false, screen_dc: true },
        ),
        CaptureStep::SelectBitmap => (
            WSError::SelectObjectError,
            Release { memory_dc: true, bitmap: true, screen_dc: true },
        ),
        CaptureStep::PrintWindow => (
            WSError::PrintWindowIsZero,
            Release { memory_dc: true, bitmap: true, screen_dc: true },
        ),
        CaptureStep::GetBits => (
            WSError::GetDIBitsError,
            Release { memory_dc: true, bitmap: true, screen_dc: true },
        ),
    }
}

/// The step that runs after `step` succeeds; none after the last.
pub open spec fn step_after(step: CaptureStep) -> Option<CaptureStep> {
    match step {
        CaptureStep::GetDc => Some(CaptureStep::GetRect),
        CaptureStep::GetRect => Some(CaptureStep::CreateDc),
        CaptureStep::CreateDc => Some(CaptureStep::CreateBitmap),
        CaptureStep::CreateBitmap => Some(CaptureStep::SelectBitmap),
        CaptureStep::SelectBitmap => Some(CaptureStep::PrintWindow),
        CaptureStep::PrintWindow => Some(CaptureStep::GetBits),
        CaptureStep::GetBits => None,
    }
}

/// What a capture does after a step.
#[derive(Clone, Copy, Debug, PartialEq, Eq, Structural)]
pub enum CaptureAction {
    /// Run this step next.
    Run(CaptureStep),
    /// Stop with this error after releasing these handles.
    Fail(WSError, Release),
    /// The capture is complete: release these handles and build the image.
    Done(Release),
}

/// The first step of a capture.
pub fn first_capture_step() -> (s: CaptureStep)
    ensures
        step_rank(s) == 0,
{
    CaptureStep::GetDc
}

/// A capture runs its steps in order and stops at the first that fails,
/// releasing what the steps before it acquired; after the last step it
/// releases every handle.
pub fn next_capture_action(step: CaptureStep, succeeded: bool) -> (a: CaptureAction)
    ensures
        !succeeded ==> a == CaptureAction::Fail(failure_spec(step).0, failure_spec(step).1),
        succeeded && step_after(step) is Some ==> a == CaptureAction::Run(step_after(step)->Some_0),
        succeeded && step_after(step) is Some ==> step_rank(step_after(step)->Some_0) == step_rank(step) + 1,
        succeeded && step_after(step) is None ==> a == CaptureAction::Done(
            Release { memory_dc: true, bitmap: true, screen_dc: true },
        ),
{
    if !succeeded {
        let (e, r) = failure_of(step);
        return CaptureAction::Fail(e, r);
    }
    match step {
        CaptureStep::GetDc => CaptureAction::Run(CaptureStep::GetRect),
        CaptureStep::GetRect => CaptureAction::Run(CaptureStep::CreateDc),
        CaptureStep::CreateDc => CaptureAction::Run(CaptureStep::CreateBitmap),
        CaptureStep::CreateBitmap => CaptureAction::Run(CaptureStep::SelectBitmap),
        CaptureStep::SelectBitmap => CaptureAction::Run(CaptureStep::PrintWindow),
        CaptureStep::PrintWindow => CaptureAction::Run(CaptureStep::GetBits),
        CaptureStep::GetBits => CaptureAction::Done(release_on_success()),
    }
}

/// After a capture succeeds, every handle is given back.
pub fn release_on_success() -> (r: Release)
    ensures
        r.memory_dc && r.bitmap && r.screen_dc,
{
    Release { memory_dc: true, bitmap: true, screen_dc: true }
}

/// A full capture measures the window's rectangle; a client-area capture
/// measures the client rectangle.
pub fn uses_window_rect(area: Area) -> (r: bool)
    ensures
        r == (area == Area::Full),
{
    match area {
        Area::Full => true,
        Area::ClientOnly => false,
    }
}

/// The flags the window is asked to draw itself with: its full content,
/// restricted to the client area for a client-area capture.
pub fn print_window_flags(area: Area, client_only: u32, render_full_content: u32) -> (f: u32)
    ensures
        area == Area::Full ==> f == render_full_content,
        area == Area::ClientOnly ==> f == client_only | render_full_content,
{
    match area {
        Area::Full => render_full_content,
        Area::ClientOnly => client_only | render_full_content,
    }
}

/// The number of bytes of a 32-bit `width` by `height` bitmap, computed as
/// `4 * width * height` in 32-bit signed arithmetic; `None` when that
/// overflows or is negative.
pub fn capture_buffer_len(width: i32, height: i32) -> (r: Option<usize>)
    ensures
        ({
            let w4 = 4 * width;
            let n = w4 * height;
            r is Some <==> (i32::MIN <= w4 <= i32::MAX && 0 <= n <= i32::MAX)
        }),
        r matches Some(n) ==> n == 4 * width * height,
{
    let w4: i64 = 4 * (width as i64);
    if w4 < i32::MIN as i64 || w4 > i32::MAX as i64 {
        return None;
    }
    assert(-0x8000_0000 * 0x8000_0000 <= w4 * height <= 0x8000_0000 * 0x8000_0000) by (nonlinear_arith)
        requires
            -0x8000_0000 <= w4 <= 0x7fff_ffff,
            -0x8000_0000 <= height <= 0x7fff_ffff,
    ;
    let n: i64 = w4 * (height as i64);
    if n < 0 || n > i32::MAX as i64 {
        return None;
    }
    Some(n as usize)
}

/// Whether copying the bitmap's lines failed: no line was copied, or the
/// call reported an invalid parameter.
pub fn get_dibits_failed(lines: i32, invalid_parameter: i32) -> (r: bool)
    ensures
        r == (lines == 0 || lines == invalid_parameter),
{
    lines == 0 || lines == invalid_parameter
}

/// The buffer with the first and third byte of each complete group of four
/// swapped (blue-green-red-alpha turned into red-green-blue-alpha); a
/// trailing incomplete group is left as it is.
pub open spec fn swap_red_blue(bs: Seq<u8>) -> Seq<u8> {
    Seq::new(
        bs.len(),
        |i: int|
            if i < 4 * (bs.len() / 4) {
                if i % 4 == 0 {
                    bs[i + 2]
                } else if i % 4 == 2 {
                    bs[i - 2]
                } else {
                    bs[i]
                }
            } else {
                bs[i]
            },
    )
}

/// Swapping the red and blue bytes twice gives the buffer back.
pub proof fn lemma_swap_involution(bs: Seq<u8>)
    ensures
        swap_red_blue(swap_red_blue(bs)) == bs,
{
    let s = swap_red_blue(bs);
    assert forall|i: int| 0 <= i < bs.len() implies #[trigger] swap_red_blue(s)[i] == bs[i] by {
        if i < 4 * (bs.len() / 4) {
            if i % 4 == 0 {
                assert(s[i + 2] == bs[i]);
            } else if i % 4 == 2 {
                assert(s[i - 2] == bs[i]);
            }
        }
    }
    assert(swap_red_blue(s) =~= bs);
}

/// Turns a blue-green-red-alpha buffer into a red-green-blue-alpha one,
/// swapping the first and third byte of every complete group of four.
pub fn bgra_to_rgba(buf: &mut Vec<u8>)
    ensures
        final(buf)@ == swap_red_blue(old(buf)@),
{
    let ghost orig = buf@;
    let len = buf.len();
    let groups = len / 4;
    let mut k: usize = 0;
    while k < groups
        invariant
            len == orig.len(),
            groups == orig.len() / 4,
            buf@.len() == orig.len(),
            k <= groups,
            forall|i: int| 0 <= i < 4 * k ==> #[trigger] buf@[i] == swap_red_blue(orig)[i],
            forall|i: int| 4 * k <= i < orig.len() ==> #[trigger] buf@[i] == orig[i],
        decreases groups - k,
    {
        let first = buf[4 * k];
        let third = buf[4 * k + 2];
        buf.set(4 * k, third);
        buf.set(4 * k + 2, first);
        proof {
            assert forall|i: int| 0 <= i < 4 * (k + 1) implies #[trigger] buf@[i] == swap_red_blue(
                orig,
            )[i] by {
                if i >= 4 * k {
                    assert(i / 4 == k);
                }
            }
        }
        k = k + 1;
    }
    assert(buf@ =~= swap_red_blue(orig));
}

/// Turns the raw bits of a captured bitmap (blue-green-red-alpha, bottom row
/// first) into an image, top row first; `None` when the buffer is shorter
/// than `4 * width * height` bytes.
pub fn finish_capture(buf: Vec<u8>, width: u32, height: u32) -> (r: Option<Image>)
    ensures
        ({
            let raw = raster_from_bytes(width as nat, height as nat, swap_red_blue(buf@));
            match r {
                Some(img) => img.wf() && raw is Some && img@ == flip_spec(raw.unwrap()),
                None => raw is None,
            }
        }),
{
    let mut buf = buf;
    bgra_to_rgba(&mut buf);
    match Image::from_rgba_bytes(width, height, &buf) {
        Some(img) => Some(img.flip_vertical()),
        None => None,
    }
}

} // verus!
