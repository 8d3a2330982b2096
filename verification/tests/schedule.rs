//! Fixed steps, frame lengths and parallel batches.
use aurora::schedule::{
    fixed_plan, par_ranges, run_parallel, Batch, FixedClock, FrameClock, Measure,
    MAX_CATCHUP_STEPS,
};

/// The fixed clock over seconds.
struct Clock {
    clock: FixedClock,
    owed: f64,
    step: f64,
}

impl Clock {
    fn new(rate: f64) -> Clock {
        let mut c = Clock { clock: FixedClock::new(), owed: 0.0, step: 1.0 / 60.0 };
        c.set_tick_rate(rate);
        c
    }

    fn set_tick_rate(&mut self, hz: f64) {
        if hz.is_finite() && (1.0..=1000.0).contains(&hz) {
            self.step = 1.0 / hz;
        }
    }

    fn tick(&mut self, dt: f64) -> i64 {
        if dt.is_finite() && dt > 0.0 {
            self.owed += dt;
        }
        let want = (self.owed / self.step) as i64;
        let (run, written_off) = self.clock.advance(want);
        self.owed -= run as f64 * self.step;
        if written_off {
            self.owed = 0.0;
        }
        run
    }

    fn alpha(&self) -> f64 {
        (self.owed / self.step).clamp(0.0, 1.0)
    }
}

#[test]
fn ticks_follow_wall_time_not_call_count() {
    let mut c = Clock::new(60.0);
    // Sixty frames of exactly one step each.
    for _ in 0..60 {
        assert_eq!(c.tick(1.0 / 60.0), 1);
    }
    assert_eq!(c.clock.ticks, 60);

    // One frame worth four steps counts as four, not as one.
    assert_eq!(c.tick(4.0 / 60.0), 4);
    assert_eq!(c.clock.ticks, 64);
}

#[test]
fn a_frame_shorter_than_a_step_runs_nothing_until_the_debt_adds_up() {
    let mut c = Clock::new(60.0);
    // Three frames at a third of a step: the first two run nothing, and the
    // third pays for the whole step. Time is banked, never lost.
    assert_eq!(c.tick(1.0 / 180.0), 0);
    assert_eq!(c.tick(1.0 / 180.0), 0);
    assert_eq!(c.tick(1.0 / 180.0), 1);
    assert_eq!(c.clock.ticks, 1);
}

#[test]
fn a_long_stall_is_written_off_rather_than_chased() {
    let mut c = Clock::new(60.0);
    // Ten seconds of debt is 600 steps. Running them would make this frame
    // enormous and the next one worse; the program would never return.
    let ran = c.tick(10.0);
    assert!(ran <= 8, "ran {ran} steps in one frame");

    // And the debt does not survive to be chased next frame.
    let next = c.tick(1.0 / 60.0);
    assert_eq!(next, 1, "leftover debt was banked instead of dropped");
}

#[test]
fn nonsense_frame_times_do_not_move_the_clock() {
    let mut c = Clock::new(60.0);
    for bad in [0.0, -1.0, f64::NAN, f64::INFINITY] {
        assert_eq!(c.tick(bad), 0, "dt {bad} produced steps");
    }
    assert_eq!(c.clock.ticks, 0);
}

#[test]
fn the_tick_rate_sets_the_step_and_rejects_nonsense() {
    let mut c = Clock::new(120.0);
    assert!((c.step - 1.0 / 120.0).abs() < 1e-12);
    assert_eq!(c.tick(1.0 / 120.0), 1);

    for bad in [0.0, -60.0, f64::NAN, 1e9] {
        c.set_tick_rate(bad);
        assert!((c.step - 1.0 / 120.0).abs() < 1e-12, "rate {bad} took effect");
    }
}

#[test]
fn alpha_reports_the_position_between_ticks() {
    let mut c = Clock::new(60.0);
    assert!(c.alpha().abs() < 1e-9, "a fresh clock is on a tick");

    // Half a step of debt sits halfway to the next tick.
    c.tick(0.5 / 60.0);
    assert!((c.alpha() - 0.5).abs() < 1e-6, "alpha {}", c.alpha());

    // Paying the rest lands back on a tick.
    c.tick(0.5 / 60.0);
    assert!(c.alpha().abs() < 1e-6, "alpha {}", c.alpha());
}

#[test]
fn the_schedule_runs_once_per_step_in_layer_order() {
    let mut c = Clock::new(60.0);
    // Two layers of one system each.
    let steps = c.tick(3.0 / 60.0);
    let plan = fixed_plan(&[1, 1], steps);

    assert_eq!(steps, 3);
    let ran: usize = plan.iter().map(|w| w.1).sum();
    assert_eq!(ran, 6, "expected two systems across three steps");
    assert_eq!(plan, vec![(0, 1), (1, 1), (0, 1), (1, 1), (0, 1), (1, 1)]);
}

#[test]
fn layers_are_windows_into_one_list() {
    assert_eq!(fixed_plan(&[2, 0, 3], 1), vec![(0, 2), (2, 3)]);
    assert_eq!(fixed_plan(&[2, -5, 3], 1), vec![(0, 2), (2, 3)]);
    assert!(fixed_plan(&[2, 3], 0).is_empty());
    assert!(fixed_plan(&[], 4).is_empty());
}

#[test]
fn the_catch_up_is_bounded() {
    let mut c = FixedClock::new();
    assert_eq!(c.advance(0), (0, false));
    assert_eq!(c.advance(MAX_CATCHUP_STEPS), (8, false));
    assert_eq!(c.advance(MAX_CATCHUP_STEPS + 1), (8, true));
    assert_eq!(c.ticks, 16);
}

#[test]
fn fixed_dt_overrides_and_restores() {
    let mut f = FrameClock::new();
    let mut virtual_time = 0.0f64;
    let mut ask = |f: &mut FrameClock, pinned: Option<f64>, wall: f64| {
        match f.frame_dt(pinned.map(|p| p.to_bits())) {
            Measure::Known(dt) => f64::from_bits(dt),
            Measure::Pinned(dt) => {
                virtual_time += f64::from_bits(dt);
                f64::from_bits(dt)
            }
            Measure::Wall => {
                f.measure(wall.to_bits());
                wall
            }
        }
    };
    let pin = Some(1.0 / 120.0);
    let d1 = ask(&mut f, pin, 0.05);
    let d2 = ask(&mut f, pin, 0.05);
    assert_eq!(d1, 1.0 / 120.0);
    assert_eq!(d2, 1.0 / 120.0);
    // And the next frame does advance it again - the cache is per frame.
    f.end_frame();
    let _ = ask(&mut f, pin, 0.05);
    f.end_frame();
    let d3 = ask(&mut f, None, 0.05);
    assert!(d3 > 0.0 && d3 <= 0.1, "wall clock restored, got {d3}");
    assert_eq!(ask(&mut f, None, 0.07), 0.05, "one length per frame");
    // ONE step per frame, however many callers ask.
    assert!((virtual_time - 2.0 / 120.0).abs() < 1e-9);
}

#[test]
fn ranges_cover_everything_once() {
    for n in [0usize, 1, 2, 7, 64, 1000] {
        for offered in [1usize, 3, 8, 100] {
            let mut seen = vec![0; n];
            for (a, b) in par_ranges(n, offered) {
                for i in a..b {
                    seen[i] += 1;
                }
            }
            assert!(seen.iter().all(|s| *s == 1), "{n} over {offered}");
        }
    }
}

#[test]
fn a_batch_runs_where_it_must() {
    assert_eq!(run_parallel(0, false), Batch::Nothing);
    assert_eq!(run_parallel(-3, true), Batch::Nothing);
    assert_eq!(run_parallel(1, false), Batch::Inline);
    assert_eq!(run_parallel(2, true), Batch::Inherit);
    assert_eq!(run_parallel(2, false), Batch::Own);
}
