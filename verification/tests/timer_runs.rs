use pomodoro::state::{encode_state, SavedState};
use pomodoro::timer::{Countdown, PomApp};

#[test]
fn fresh_run_completes() {
    // fresh run, 25 minutes requested, no prior state, never interrupted
    let app = PomApp {
        arg_restart: false,
        arg_duration: 25,
        saved_state: SavedState { seconds_remaining: 0 },
    };
    assert_eq!(app.effective_duration(), 1500);
    let r = app.run(None);
    assert!(r.completed_naturally);
    assert_eq!(r.remaining, 0);
    let persisted = encode_state(&SavedState { seconds_remaining: r.remaining });
    assert_eq!(persisted, b"{\"seconds_remaining\":0}".to_vec());
}

#[test]
fn interrupted_run_persists_remaining() {
    // interrupted 10 seconds into a 1500 second run
    let app = PomApp {
        arg_restart: false,
        arg_duration: 25,
        saved_state: SavedState { seconds_remaining: 0 },
    };
    let r = app.run(Some(10));
    assert!(!r.completed_naturally);
    assert_eq!(r.remaining, 1490);
    let persisted = encode_state(&SavedState { seconds_remaining: r.remaining });
    assert_eq!(persisted, b"{\"seconds_remaining\":1490}".to_vec());
}

#[test]
fn resume_wins_over_request() {
    let app = PomApp {
        arg_restart: false,
        arg_duration: 25,
        saved_state: SavedState { seconds_remaining: 1490 },
    };
    assert!(app.is_resume());
    assert_eq!(app.effective_duration(), 1490);
}

#[test]
fn restart_wins_over_state() {
    let app = PomApp {
        arg_restart: true,
        arg_duration: 25,
        saved_state: SavedState { seconds_remaining: 1490 },
    };
    assert!(!app.is_resume());
    assert_eq!(app.effective_duration(), 1500);
}

#[test]
fn positive_request_is_minutes() {
    let app = PomApp {
        arg_restart: false,
        arg_duration: 1,
        saved_state: SavedState { seconds_remaining: 0 },
    };
    assert_eq!(app.effective_duration(), 60);
}

#[test]
fn non_positive_request_is_literal_seconds() {
    let zero = PomApp {
        arg_restart: false,
        arg_duration: 0,
        saved_state: SavedState { seconds_remaining: 0 },
    };
    assert_eq!(zero.effective_duration(), 0);
    let neg = PomApp {
        arg_restart: false,
        arg_duration: -90,
        saved_state: SavedState { seconds_remaining: 0 },
    };
    assert_eq!(neg.effective_duration(), 90);
    let least = PomApp {
        arg_restart: false,
        arg_duration: i32::MIN,
        saved_state: SavedState { seconds_remaining: 0 },
    };
    assert_eq!(least.effective_duration(), 2147483648);
}

#[test]
fn interruption_at_first_and_last_tick() {
    let app = PomApp {
        arg_restart: false,
        arg_duration: -5,
        saved_state: SavedState { seconds_remaining: 0 },
    };
    let first = app.run(Some(1));
    assert!(!first.completed_naturally);
    assert_eq!(first.remaining, 4);
    let last = app.run(Some(5));
    assert!(!last.completed_naturally);
    assert_eq!(last.remaining, 0);
}

#[test]
fn interruption_after_the_end_changes_nothing() {
    let app = PomApp {
        arg_restart: false,
        arg_duration: -5,
        saved_state: SavedState { seconds_remaining: 0 },
    };
    let r = app.run(Some(6));
    assert!(r.completed_naturally);
    assert_eq!(r.remaining, 0);
}

#[test]
fn zero_duration_completes_at_once() {
    let app = PomApp {
        arg_restart: false,
        arg_duration: 0,
        saved_state: SavedState { seconds_remaining: 0 },
    };
    let r = app.run(Some(1));
    assert!(r.completed_naturally);
    assert_eq!(r.remaining, 0);
}

#[test]
fn countdown_steps_tick_by_tick() {
    let mut c = Countdown::new(3);
    assert!(c.running());
    c.tick(false);
    assert!(c.running());
    c.tick(true);
    assert!(!c.running());
    let r = c.outcome();
    assert!(!r.completed_naturally);
    assert_eq!(r.remaining, 1);
}

#[test]
fn countdown_runs_out() {
    let mut c = Countdown::new(2);
    c.tick(false);
    assert!(c.running());
    c.tick(false);
    assert!(!c.running());
    let r = c.outcome();
    assert!(r.completed_naturally);
    assert_eq!(r.remaining, 0);
}
