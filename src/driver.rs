//! The decisions of the read loop: what each input event yields, and the
//! configuration that the loop starts from.
use vstd::prelude::*;
use crate::lines::{run, LineAccumulator};
use crate::rotation::RotationPolicy;
use crate::size::{
    digits_value, is_digits, is_readable, is_unit_form, parse_size_limit, positive, scaled, size_ok,
    unbytify_of, SizeError,
};

verus! {

/// Why a configuration was refused.
#[derive(Debug, Clone, Copy, PartialEq, Eq, Structural)]
pub enum ConfigError {
    /// The size bound is not a positive byte size.
    Size(SizeError),
    /// No file may be retained.
    Count,
}

/// What the size bound of a file is, for a size string.
pub open spec fn size_bound(s: Seq<char>) -> Result<u64, SizeError> {
    if !is_readable(s) {
        Err(SizeError::Invalid)
    } else {
        positive(unbytify_of(s))
    }
}

/// The configuration that a retained file count and a size bound give.
pub open spec fn config_of(count: usize, bound: Result<u64, SizeError>) -> Result<
    RotationPolicy,
    ConfigError,
> {
    match bound {
        Err(e) => Err(ConfigError::Size(e)),
        Ok(v) => if count == 0 {
            Err(ConfigError::Count)
        } else {
            Ok(RotationPolicy { max_size: v, max_count: count })
        },
    }
}

/// Builds the rotation policy from the retained file count and the size
/// string of the configuration.
pub fn configure(count: usize, size: &str) -> (r: Result<RotationPolicy, ConfigError>)
    ensures
        r == config_of(count, size_bound(size@)),
        is_digits(size@) && digits_value(size@) <= u64::MAX ==> r == config_of(count, positive(size_ok(digits_value(size@)))),
        forall|n: Seq<char>, i: nat| #[trigger] is_unit_form(size@, n, i) && digits_value(n) < 0x20_0000_0000_0000 ==> r == config_of(count, positive(scaled(digits_value(n), i))),
        r is Ok ==> r->Ok_0.wf(),
{
    match parse_size_limit(size) {
        Err(e) => Err(ConfigError::Size(e)),
        Ok(v) => if count == 0 {
            Err(ConfigError::Count)
        } else {
            Ok(RotationPolicy { max_size: v, max_count: count })
        },
    }
}

/// What the input source reports.
#[derive(Debug, PartialEq, Eq)]
pub enum InputEvent {
    /// Bytes that were read.
    Data(Vec<u8>),
    /// The end of the stream, or the writer hung up.
    HangUp,
}

/// What the loop does after an event: log these lines in order, then stop
/// or wait for more input.
pub struct Dispatch {
    pub lines: Vec<Vec<u8>>,
    pub stop: bool,
}

/// The state of the read loop.
pub struct Driver {
    acc: LineAccumulator,
    stopped: bool,
}

impl Driver {
    /// The bytes of the line being read.
    pub closed spec fn pending_view(&self) -> Seq<u8> {
        self.acc@
    }

    pub closed spec fn stopped_view(&self) -> bool {
        self.stopped
    }

    pub closed spec fn wf(&self) -> bool {
        self.acc.wf() && (self.stopped ==> self.acc@.len() == 0)
    }

    pub fn new() -> (r: Driver)
        ensures
            r.wf(),
            r.pending_view() == Seq::<u8>::empty(),
            !r.stopped_view(),
    {
        Driver { acc: LineAccumulator::new(), stopped: false }
    }

    /// Handles one event. Data yields the lines it completes; a hang-up
    /// yields what is pending, if anything, and stops the loop. Once stopped,
    /// every event yields nothing.
    pub fn on_event(&mut self, ev: &InputEvent) -> (r: Dispatch)
        requires
            old(self).wf(),
        ensures
            final(self).wf(),
            old(self).stopped_view() ==> r.lines@.len() == 0 && r.stop && final(self).stopped_view(),
            !old(self).stopped_view() ==> match ev {
                InputEvent::Data(bs) => {
                    &&& !r.stop
                    &&& !final(self).stopped_view()
                    &&& (final(self).pending_view(), r.lines@.map_values(|v: Vec<u8>| v@)) == run(
                        old(self).pending_view(),
                        bs@,
                    )
                },
                InputEvent::HangUp => {
                    &&& r.stop
                    &&& final(self).stopped_view()
                    &&& final(self).pending_view() == Seq::<u8>::empty()
                    &&& r.lines@.map_values(|v: Vec<u8>| v@) == (if old(self).pending_view().len()
                        == 0 {
                        Seq::<Seq<u8>>::empty()
                    } else {
                        seq![old(self).pending_view()]
                    })
                },
            },
    {
        if self.stopped {
            return Dispatch { lines: Vec::new(), stop: true };
        }
        match ev {
            InputEvent::Data(bs) => {
                let lines = self.acc.feed_all(bs.as_slice());
                Dispatch { lines, stop: false }
            },
            InputEvent::HangUp => {
                let mut lines: Vec<Vec<u8>> = Vec::new();
                let ghost pending = self.acc@;
                match self.acc.finish() {
                    Some(l) => {
                        lines.push(l);
                        assert(lines@.map_values(|v: Vec<u8>| v@) =~= seq![pending]);
                    },
                    None => {
                        assert(lines@.map_values(|v: Vec<u8>| v@) =~= Seq::<Seq<u8>>::empty());
                    },
                }
                self.stopped = true;
                Dispatch { lines, stop: true }
            },
        }
    }
}

} // verus!
