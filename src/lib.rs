//! A pipe logger: byte-size configuration parsing, line accumulation over a
//! byte stream, record formatting and the rotation policy of a bounded set
//! of log files.

pub mod driver;
pub mod format;
pub mod lines;
pub mod rotation;
pub mod size;
pub mod stamp;

pub use driver::{configure, ConfigError, Dispatch, Driver, InputEvent};
pub use format::{format_record, frame_record};
pub use lines::{split_lines, LineAccumulator, MAX_CHUNK};
pub use rotation::{rotation_plan, FileOp, LogFiles, RotationPolicy, RotationState};
pub use size::{parse_size, parse_size_limit, size_limit, SizeError};
pub use stamp::{format_stamp, utc_time, UtcTime, STAMP_LIMIT};
