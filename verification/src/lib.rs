//! A pomodoro countdown library: the duration-selection rule, the
//! tick/interrupt state machine of one run, and the byte-exact codec of the
//! persisted state record.

pub mod state;
pub mod timer;
