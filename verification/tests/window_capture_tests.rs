use wow_serdes::capture::{
    bgra_to_rgba, capture_buffer_len, failure_of, finish_capture, first_capture_step,
    get_dibits_failed, next_capture_action, print_window_flags, release_on_success,
    uses_window_rect, Area, CaptureAction, CaptureStep, Release, WSError,
};
use wow_serdes::pixel::Pixel;
use wow_serdes::window::{next_action, window_status, ReadAction, WindowStatus};

#[test]
fn window_status_classifies() {
    assert_eq!(window_status(false, true, false), WindowStatus::Destroyed);
    assert_eq!(window_status(true, false, false), WindowStatus::Minimized);
    assert_eq!(window_status(true, true, true), WindowStatus::Minimized);
    assert_eq!(window_status(true, true, false), WindowStatus::Visible);
}

#[test]
fn read_loop_actions() {
    assert_eq!(next_action(WindowStatus::Destroyed), ReadAction::Stop);
    assert_eq!(next_action(WindowStatus::Minimized), ReadAction::Wait { millis: 1 });
    assert_eq!(next_action(WindowStatus::Visible), ReadAction::Capture);
}

#[test]
fn capture_failures_release_what_was_acquired() {
    let (e, r) = failure_of(CaptureStep::GetDc);
    assert_eq!(e, WSError::GetDCIsNull);
    assert!(!r.screen_dc && !r.memory_dc && !r.bitmap);
    let (e, r) = failure_of(CaptureStep::GetRect);
    assert_eq!(e, WSError::GetClientRectIsZero);
    assert!(r.screen_dc && !r.memory_dc && !r.bitmap);
    let (e, r) = failure_of(CaptureStep::CreateBitmap);
    assert_eq!(e, WSError::CreateCompatibleBitmapIsNull);
    assert!(r.screen_dc && r.memory_dc && !r.bitmap);
    let (e, r) = failure_of(CaptureStep::GetBits);
    assert_eq!(e, WSError::GetDIBitsError);
    assert!(r.screen_dc && r.memory_dc && r.bitmap);
    let r = release_on_success();
    assert!(r.screen_dc && r.memory_dc && r.bitmap);
}

#[test]
fn capture_area_choices() {
    assert!(uses_window_rect(Area::Full));
    assert!(!uses_window_rect(Area::ClientOnly));
    assert_eq!(print_window_flags(Area::Full, 1, 2), 2);
    assert_eq!(print_window_flags(Area::ClientOnly, 1, 2), 3);
}

#[test]
fn capture_buffer_sizes() {
    assert_eq!(capture_buffer_len(200, 200), Some(160000));
    assert_eq!(capture_buffer_len(0, 5), Some(0));
    assert_eq!(capture_buffer_len(-2, 3), None);
    assert_eq!(capture_buffer_len(-2, -3), Some(24));
    assert_eq!(capture_buffer_len(0x2000_0000, 1), None);
    assert_eq!(capture_buffer_len(40000, 40000), None);
    assert!(get_dibits_failed(0, 87));
    assert!(get_dibits_failed(87, 87));
    assert!(!get_dibits_failed(6, 87));
}

#[test]
fn bgra_swap_leaves_tail_alone() {
    let mut buf = vec![1, 2, 3, 4, 5, 6, 7, 8, 9, 10];
    bgra_to_rgba(&mut buf);
    assert_eq!(buf, vec![3, 2, 1, 4, 7, 6, 5, 8, 9, 10]);
    bgra_to_rgba(&mut buf);
    assert_eq!(buf, vec![1, 2, 3, 4, 5, 6, 7, 8, 9, 10]);
}

#[test]
fn finish_capture_swaps_and_flips() {
    // 1 x 2 bitmap, bottom row first, blue-green-red-alpha
    let buf = vec![10, 20, 30, 255, 40, 50, 60, 255];
    let img = finish_capture(buf, 1, 2).unwrap();
    assert_eq!(img.pixels, vec![Pixel::new(60, 50, 40, 255), Pixel::new(30, 20, 10, 255)]);
    assert!(finish_capture(vec![0; 7], 1, 2).is_none());
}

#[test]
fn capture_steps_run_in_order_and_stop_at_first_failure() {
    let mut step = first_capture_step();
    let mut order = vec![step];
    loop {
        match next_capture_action(step, true) {
            CaptureAction::Run(s) => {
                order.push(s);
                step = s;
            }
            CaptureAction::Done(r) => {
                assert_eq!(r, Release { memory_dc: true, bitmap: true, screen_dc: true });
                break;
            }
            CaptureAction::Fail(..) => panic!("no step failed"),
        }
    }
    assert_eq!(
        order,
        vec![
            CaptureStep::GetDc,
            CaptureStep::GetRect,
            CaptureStep::CreateDc,
            CaptureStep::CreateBitmap,
            CaptureStep::SelectBitmap,
            CaptureStep::PrintWindow,
            CaptureStep::GetBits,
        ]
    );
    let (e, r) = failure_of(CaptureStep::SelectBitmap);
    assert_eq!(next_capture_action(CaptureStep::SelectBitmap, false), CaptureAction::Fail(e, r));
    assert_eq!(e, WSError::SelectObjectError);
}
