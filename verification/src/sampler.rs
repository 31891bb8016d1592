//! Sampler and controller decisions.
//!
//! The concurrent shell of the program — worker threads, the event channel,
//! blocking command execution and key polling — stays outside the library.
//! Verified here is every decision those loops make: what a sampler emits
//! for each command outcome (including diff mode), which keys quit, and how
//! the controller applies an event to the store.

use vstd::prelude::*;

use crate::datastore::DataStore;
use crate::ringbuffer::push_step;
use crate::{Sample, VALUE_LIMIT};

verus! {

/// Largest magnitude a raw sampled value may have; half the fixed-point
/// limit, so a diff of two readings still fits the stored range.
pub const SAMPLE_LIMIT: i64 = 500000000000000;

/// A key press, reduced to what the controller reacts to.
#[derive(Clone, Copy, Debug, PartialEq, Eq, Structural)]
pub enum Key {
    /// A plain character key.
    Char(char),
    /// A character pressed together with the control modifier.
    CtrlChar(char),
    /// The escape key.
    Esc,
    /// Anything else.
    Other,
}

/// An event on the bus: a tagged sample from one sampler, or a key press
/// from the input watcher.
#[derive(Clone, Copy, Debug, PartialEq, Eq, Structural)]
pub enum Event {
    /// Series `cmd_index` produced the sample.
    Update { cmd_index: usize, sample: Sample },
    /// The input watcher saw a key.
    Input { key: Key },
}

/// What the controller decides to do with one event.
#[derive(Clone, Copy, Debug, PartialEq, Eq, Structural)]
pub enum Action {
    /// The store changed; render a new frame.
    Redraw,
    /// Raise cancellation and leave the loop.
    Quit,
    /// Nothing to do.
    Ignore,
}

/// Whether `k` requests shutdown: 'q', escape, or control-c.
pub open spec fn spec_quit_key(k: Key) -> bool {
    match k {
        Key::Char(c) => c == 'q',
        Key::CtrlChar(c) => c == 'c',
        Key::Esc => true,
        Key::Other => false,
    }
}

/// Recognizes the quit keys: 'q', escape, or control-c.
pub fn is_quit_key(k: &Key) -> (r: bool)
    ensures
        r == spec_quit_key(*k),
{
    match k {
        Key::Char(c) => *c == 'q',
        Key::CtrlChar(c) => *c == 'c',
        Key::Esc => true,
        Key::Other => false,
    }
}

/// Per-command sampling state: the sample counter and, in diff mode, the
/// last successful reading.
pub struct Sampler {
    diff_mode: bool,
    idx: u64,
    previous: i64,
}

impl Sampler {
    /// Whether this sampler emits deltas instead of raw readings.
    pub closed spec fn diff_mode(&self) -> bool {
        self.diff_mode
    }

    /// Index the next sample will carry.
    pub closed spec fn index(&self) -> int {
        self.idx as int
    }

    /// The last successful reading (0 before the first success).
    pub closed spec fn previous(&self) -> int {
        self.previous as int
    }

    /// The stored reading stays within the sampling limit.
    pub closed spec fn wf(&self) -> bool {
        -SAMPLE_LIMIT <= self.previous <= SAMPLE_LIMIT
    }

    /// A fresh sampler about to take sample 0.
    pub fn new(diff_mode: bool) -> (r: Self)
        ensures
            r.wf(),
            r.diff_mode() == diff_mode,
            r.index() == 0,
            r.previous() == 0,
    {
        Sampler { diff_mode, idx: 0, previous: 0 }
    }

    /// Digests one command outcome (`Some` reading, or `None` for a failed
    /// or unparsable run) and returns what to put on the bus, if anything.
    ///
    /// Raw mode emits every outcome, failures as missing samples, so the
    /// cadence stays visible.  Diff mode emits the delta from the previous
    /// successful reading, skips the very first sample, and emits nothing
    /// for failures.
    pub fn observe(&mut self, outcome: Option<i64>) -> (emit: Option<Sample>)
        requires
            old(self).wf(),
            old(self).index() < u64::MAX,
            match outcome {
                Some(v) => -SAMPLE_LIMIT <= v <= SAMPLE_LIMIT,
                None => true,
            },
        ensures
            final(self).wf(),
            final(self).diff_mode() == old(self).diff_mode(),
            final(self).index() == old(self).index() + 1,
            final(self).previous() == if old(self).diff_mode() && outcome is Some {
                outcome->0 as int
            } else {
                old(self).previous()
            },
            !old(self).diff_mode() ==> emit == Some(
                Sample { x: old(self).index() as u64, value: outcome },
            ),
            old(self).diff_mode() ==> emit == match outcome {
                Some(v) => if old(self).index() == 0 {
                    None::<Sample>
                } else {
                    Some(
                        Sample {
                            x: old(self).index() as u64,
                            value: Some((v - old(self).previous()) as i64),
                        },
                    )
                },
                None => None::<Sample>,
            },
            match emit {
                Some(s) => s.x == old(self).index() as u64 && (match s.value {
                    Some(v) => -VALUE_LIMIT <= v <= VALUE_LIMIT,
                    None => true,
                }),
                None => true,
            },
    {
        let x = self.idx;
        self.idx = self.idx + 1;
        if self.diff_mode {
            match outcome {
                Some(v) => {
                    let prev = self.previous;
                    self.previous = v;
                    if x != 0 {
                        Some(Sample { x, value: Some(v - prev) })
                    } else {
                        None
                    }
                },
                None => None,
            }
        } else {
            Some(Sample { x, value: outcome })
        }
    }
}

/// Applies one bus event to the store: a sample is recorded and triggers a
/// redraw; a quit key asks for shutdown; any other key is ignored.
pub fn controller_step(store: &mut DataStore, event: &Event) -> (a: Action)
    requires
        old(store).wf(),
        match *event {
            Event::Update { cmd_index, sample } => {
                &&& cmd_index < old(store).series_count()
                &&& old(store).window_max_of(cmd_index as int) < u64::MAX
                &&& match sample.value {
                    Some(v) => -VALUE_LIMIT <= v <= VALUE_LIMIT,
                    None => true,
                }
            },
            Event::Input { .. } => true,
        },
    ensures
        final(store).wf(),
        match *event {
            Event::Update { cmd_index, sample } => {
                &&& a == Action::Redraw
                &&& final(store).series(cmd_index as int) == push_step(
                    old(store).series(cmd_index as int),
                    sample,
                    old(store).capacity(),
                )
                &&& forall|i: int|
                    0 <= i < old(store).series_count() && i != cmd_index ==> final(store).series(
                        i,
                    ) == old(store).series(i)
            },
            Event::Input { key } => {
                &&& *final(store) == *old(store)
                &&& a == if spec_quit_key(key) {
                    Action::Quit
                } else {
                    Action::Ignore
                }
            },
        },
{
    match event {
        Event::Update { cmd_index, sample } => {
            store.update(*cmd_index, sample.x, sample.value);
            Action::Redraw
        },
        Event::Input { key } => {
            if is_quit_key(key) {
                Action::Quit
            } else {
                Action::Ignore
            }
        },
    }
}

} // verus!
