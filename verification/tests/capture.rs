use gamescope_led_sync::capture::{
    after_session, discovery_tick, is_gamescope, keep_waiting, requested_size, subsample_step,
    worth_inspecting, DiscoveryTick, Next, Reason, Session,
};
use gamescope_led_sync::cli::valid_sample_height;

#[test]
fn sessions_end_or_retry() {
    assert_eq!(after_session(Some(&Reason::OnceDone), true), Next::Exit { success: true });
    assert_eq!(after_session(Some(&Reason::Interrupted), false), Next::Exit { success: true });
    assert_eq!(after_session(Some(&Reason::OnceFailed("no node".into())), true), Next::Exit { success: false });
    assert_eq!(after_session(Some(&Reason::Stopped("gone".into())), false), Next::Retry);
    assert_eq!(after_session(Some(&Reason::Stopped("gone".into())), true), Next::Exit { success: false });
    assert_eq!(after_session(None, false), Next::Retry);
    assert_eq!(after_session(None, true), Next::Exit { success: false });
}

#[test]
fn reconnect_wait_lasts_two_seconds() {
    assert!(keep_waiting(0, false));
    assert!(keep_waiting(1, false));
    assert!(!keep_waiting(2, false));
    assert!(!keep_waiting(0, true));
}

#[test]
fn requested_size_is_about_sixteen_by_nine() {
    assert_eq!(requested_size(240), (426, 240));
    assert_eq!(requested_size(9), (16, 9));
    assert_eq!(requested_size(0), (0, 0));
    assert_eq!(requested_size(u32::MAX), (u32::MAX / 9, u32::MAX));
}

#[test]
fn subsample_step_brings_the_height_down() {
    assert_eq!(subsample_step(2160, 240), 9);
    assert_eq!(subsample_step(240, 240), 1);
    assert_eq!(subsample_step(100, 240), 1);
    assert_eq!(subsample_step(2160, 0), 2160);
    assert_eq!(subsample_step(0, 0), 1);
}

#[test]
fn video_nodes_are_inspected() {
    assert!(worth_inspecting(Some("Video/Source")));
    assert!(worth_inspecting(Some("Stream/Output/Video")));
    assert!(worth_inspecting(None));
    assert!(!worth_inspecting(Some("Audio/Sink")));
    assert!(!worth_inspecting(Some("Vide")));
    assert!(!worth_inspecting(Some("")));
}

#[test]
fn gamescope_is_found_by_media_name() {
    assert!(is_gamescope(Some("gamescope")));
    assert!(!is_gamescope(Some(".gamescope-wrapped")));
    assert!(!is_gamescope(Some("Gamescope")));
    assert!(!is_gamescope(None));
}

#[test]
fn discovery_ticks() {
    assert_eq!(discovery_tick(true, false, false, false, 0), DiscoveryTick { announce: false, stop: true });
    assert_eq!(discovery_tick(false, true, false, true, 0), DiscoveryTick { announce: false, stop: true });
    assert_eq!(discovery_tick(false, false, false, false, 99_000), DiscoveryTick { announce: true, stop: false });
    assert_eq!(discovery_tick(false, false, true, true, 14_999), DiscoveryTick { announce: false, stop: false });
    assert_eq!(discovery_tick(false, false, true, true, 15_000), DiscoveryTick { announce: false, stop: true });
}

#[test]
fn sample_height_bounds() {
    assert!(!valid_sample_height(0));
    assert!(valid_sample_height(1));
    assert!(valid_sample_height(16384));
    assert!(!valid_sample_height(16385));
}

fn bgrx(width: usize, height: usize) -> Vec<u8> {
    (0..width * height * 4).map(|i| (i % 256) as u8).collect()
}

#[test]
fn session_takes_a_whole_frame_once() {
    let mut s = Session::new(1000);
    assert!(!s.take_fresh());
    assert!(s.set_size(4, 2));
    assert!(!s.set_size(4, 2));
    let bytes = bgrx(4, 2);
    s.take_buffer(&bytes, 0, bytes.len(), 16);
    let f = s.frame(240).unwrap();
    assert_eq!((f.width, f.height, f.stride, f.step), (4, 2, 16, 1));
    assert_eq!(f.data, &bytes[..]);
    assert!(s.take_fresh());
    assert!(!s.take_fresh());
    assert!(s.frame(240).is_some());
}

#[test]
fn session_clamps_the_chunk_to_the_mapped_region() {
    let mut s = Session::new(0);
    s.set_size(1, 1);
    let bytes: Vec<u8> = (0..10).collect();
    s.take_buffer(&bytes, 6, 100, 0);
    let f = s.frame(1).unwrap();
    assert_eq!(f.data, &[6, 7, 8, 9]);
    assert_eq!(f.stride, 4);
    s.take_buffer(&bytes, 20, 5, 0);
    assert!(s.frame(1).is_none());
    assert!(!s.take_fresh());
    s.take_buffer(&bytes, usize::MAX, usize::MAX, 4);
    assert!(s.frame(1).is_none());
}

#[test]
fn session_refuses_a_short_frame() {
    let mut s = Session::new(0);
    s.set_size(4, 2);
    let bytes = bgrx(4, 2);
    s.take_buffer(&bytes, 0, 31, 16);
    assert!(s.frame(240).is_none());
    assert!(!s.take_fresh());
    s.take_buffer(&bytes, 0, 32, 12);
    assert!(s.frame(240).is_none());
    s.set_size(0, 2);
    s.take_buffer(&bytes, 0, 32, 16);
    assert!(s.frame(240).is_none());
}

#[test]
fn session_keepalive_and_stats() {
    let mut s = Session::new(1000);
    assert!(!s.keepalive_due(1999));
    assert!(s.keepalive_due(2000));
    assert!(!s.keepalive_due(500));
    s.sent_at(2000);
    assert!(!s.keepalive_due(2500));
    assert!(!s.stats_due(9000));
    s.count_frame();
    s.count_frame();
    assert_eq!(s.frames(), 2);
    assert!(!s.stats_due(5999));
    assert!(s.stats_due(6000));
    assert_eq!(s.stats_elapsed_ms(6500), 5500);
    s.reset_stats(6500);
    assert_eq!(s.frames(), 0);
    assert!(!s.stats_due(20000));
}
