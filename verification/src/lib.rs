//! Deterministic analysis of GPU profiling sessions.

pub mod analysis;
pub mod attribution;
pub mod breakdown;
pub mod breakdown_text;
pub mod budget;
pub mod clock;
pub mod columns;
pub mod command_buffers;
pub mod commands;
pub mod comparison;
pub mod conservation;
pub mod crash_join;
pub mod degraded;
pub mod diff;
pub mod dispatch_origins;
pub mod double;
pub mod embedded_dylib;
pub mod event;
pub mod export;
pub mod finding;
pub mod footprint;
pub mod frames;
pub mod gauges;
pub mod ids;
pub mod json;
pub mod lifetimes;
pub mod memory;
pub mod memory_report;
pub mod op_clamp;
pub mod op_kinds;
pub mod op_tables;
pub mod ownership;
pub mod pairing;
pub mod parse;
pub mod paths;
pub mod peaks;
pub mod places;
pub mod protocol;
pub mod quoted;
pub mod reading;
pub mod regrouping;
pub mod report;
pub mod rounding;
pub mod rule;
pub mod rules;
pub mod scope_memory;
pub mod select;
pub mod session_resolver;
pub mod sort;
pub mod tables;
pub mod tally;
pub mod text;
pub mod trace;
pub mod tree;
pub mod verdicts;
pub mod wall_clock;
pub mod windows;
pub mod wording;

pub use analysis::{analyze, analyze_session};
pub use breakdown::{
    compute as compute_breakdown, BreakdownError, Diagnostics, ModuleBreakdown, OpAttribution,
};
pub use breakdown_text::{render_chrome_trace, render_ops_flat, render_table};
pub use commands::breakdown::prune_by_field_filter;
pub use degraded::degraded_advice;
pub use finding::{Category, EvidenceRef, Finding, Severity};
pub use op_kinds::resolve_kind;
pub use op_tables::{aggregate_ops_flat, apply_op_group_by, OpFlatRow, OpGroupBy};
pub use report::Report;
pub use rule::Rule;
