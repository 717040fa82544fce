//! Trace model and performance analysis: spans linked by parent ids, the
//! flamegraph fold, the critical path, bottleneck ranking, and a span collector.

pub mod span;
pub mod order;
pub mod error;
pub mod text;
pub mod trace;
pub mod critical_path;
pub mod flamegraph;
pub mod report;
pub mod percentile;
pub mod render;
pub mod clock;
pub mod collector;
pub mod laws;

pub use clock::{Clock, ManualClock, SystemClock};
pub use collector::Collector;
pub use critical_path::{critical_path, CriticalSpan};
pub use error::CoreError;
pub use flamegraph::{fold, FoldedStack};
pub use report::{rank_bottlenecks, Bottleneck};
pub use span::{Span, SpanId};
pub use trace::Trace;
