//! The rules.

pub mod counting;
pub mod duplicate_model_load;
pub mod hook_degradation;
pub mod jetsam_risk;
pub mod lazy_eval_attribution;
pub mod maxima;
pub mod memory_pressure;
pub mod metal_error;
pub mod mlx_cache_growth;
pub mod mlx_timing;
pub mod percentiles;
pub mod queue_depth;
pub mod queue_pressure;
pub mod residency_pressure;
pub mod sidecar_absent;
pub mod system_pressure;
