//! Renders issue and pull-request counts as proportional colored bars on a
//! 16 by 16 LED grid.
//!
//! The verified core is the quantizer (`quantize`), which turns arbitrary
//! counts into a bounded number of lit positions, the column renderer
//! (`column`), and the grid composer (`display`). The repository settings
//! (`settings`) and the per-repository issue tally (`tally`) feed them.
pub mod color;
pub mod column;
pub mod display;
pub mod quantize;
pub mod settings;
pub mod tally;

pub use color::Color;
pub use column::{render_column, DisplayError, HardwareFault};
pub use display::{compose_metrics, finish_pass, Grid, MetricType, GRID_HEIGHT, GRID_WIDTH};
pub use quantize::{vector_of_leds, CAPACITY};
pub use settings::{RepositorySettings, Settings, Since, SinceParseError, SinceSpan, UnixTime};
pub use tally::IssueTally;
