use model_viewer::config::Config;
use model_viewer::fps::{FpsCounter, FpsRate};
use model_viewer::main_loop::{LoopAction, LoopEvent, MainLoop};
use model_viewer::ratio::Ratio;

#[test]
fn fps_is_zero_before_first_window() {
    let config = Config::default();
    let mut fps = FpsCounter::new(&config);
    assert_eq!(fps.fps(), FpsRate { frames: 0, nanos: 0 });
    fps.update(1_000_000_000);
    assert_eq!(fps.fps(), FpsRate { frames: 0, nanos: 0 });
    assert_eq!(fps.time_acc(), 1_000_000_000);
    assert_eq!(fps.frames_acc(), 1);
}

#[test]
fn fps_window_closes_after_overshoot() {
    let config = Config::default();
    let n: u64 = 4;
    let dt = config.fps_interval / n;
    let mut fps = FpsCounter::new(&config);
    for _ in 0..n {
        fps.update(dt);
    }
    assert_eq!(fps.fps(), FpsRate { frames: 0, nanos: 0 });
    assert_eq!(fps.time_acc(), config.fps_interval as u128);
    assert_eq!(fps.frames_acc(), n);
    fps.update(dt);
    assert_eq!(fps.fps(), FpsRate { frames: 5, nanos: 2_500_000_000 });
    assert_eq!(fps.time_acc(), 0);
    assert_eq!(fps.frames_acc(), 0);
}

#[test]
fn fps_counts_frames_of_zero_length() {
    let config = Config::default();
    let mut fps = FpsCounter::new(&config);
    for _ in 0..10 {
        fps.update(0);
    }
    fps.update(3_000_000_000);
    assert_eq!(fps.fps(), FpsRate { frames: 11, nanos: 3_000_000_000 });
}

#[test]
fn no_models_no_loop() {
    let config = Config::default();
    assert!(MainLoop::start(&config, 0).is_none());
    assert!(MainLoop::start(&config, 1).is_some());
}

#[test]
fn fixed_steps_conserve_time() {
    let config = Config::default();
    let mut ml = MainLoop::start(&config, 3).unwrap();
    let dts: [u64; 4] = [10_000_000, 7_000_000, 30_000_000, 1_000_000_000];
    let expected: [u128; 4] = [0, 1, 1, 60];
    let mut steps: u128 = 0;
    for (dt, want) in dts.iter().zip(expected.iter()) {
        match ml.handle(LoopEvent::Frame { dt: *dt }) {
            LoopAction::Animate { steps: s } => {
                assert_eq!(s, *want);
                steps += s;
            }
            other => panic!("unexpected {:?}", other),
        }
    }
    let total: u128 = dts.iter().map(|d| *d as u128).sum();
    let step = config.animation_framerate.num as u128 * 1_000_000_000;
    let den = config.animation_framerate.den as u128;
    assert_eq!(steps * step + ml.animation_debt(), total * den);
    assert!(ml.animation_debt() < step);
    assert_eq!(ml.fps_counter().frames_acc(), 4);
}

#[test]
fn frames_feed_the_fps_counter() {
    let config = Config::default();
    let mut ml = MainLoop::start(&config, 1).unwrap();
    ml.handle(LoopEvent::Frame { dt: 1_500_000_000 });
    ml.handle(LoopEvent::Frame { dt: 1_000_000_000 });
    assert_eq!(ml.fps_counter().fps(), FpsRate { frames: 2, nanos: 2_500_000_000 });
}

#[test]
fn loop_state_machine() {
    let config = Config::default();
    let mut ml = MainLoop::start(&config, 1).unwrap();
    assert!(ml.is_running());
    assert_eq!(ml.handle(LoopEvent::PollFailed), LoopAction::Continue);
    assert!(ml.is_running());
    assert_eq!(ml.handle(LoopEvent::Exit), LoopAction::Stop);
    assert!(!ml.is_running());
    assert_eq!(ml.handle(LoopEvent::Frame { dt: 1_000_000_000 }), LoopAction::Stop);
    assert_eq!(ml.animation_debt(), 0);
    assert_eq!(ml.handle(LoopEvent::Fatal), LoopAction::Stop);
}

#[test]
fn fatal_error_fails_loop() {
    let config = Config::default();
    let mut ml = MainLoop::start(&config, 1).unwrap();
    assert_eq!(ml.handle(LoopEvent::Fatal), LoopAction::Fail);
    assert!(!ml.is_running());
}

#[test]
fn throttle_waits_out_render_period() {
    let mut config = Config::default();
    let ml = MainLoop::start(&config, 1).unwrap();
    assert_eq!(ml.throttle_nanos(5_000_000), 0);
    config.max_render_framerate = Some(Ratio { num: 1, den: 30 });
    let ml = MainLoop::start(&config, 1).unwrap();
    assert_eq!(ml.throttle_nanos(10_000_000), 23_333_334);
    assert_eq!(ml.throttle_nanos(40_000_000), 0);
}
