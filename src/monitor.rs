use vstd::prelude::*;

verus! {

/// Health levels reported by the monitoring layer.
#[derive(Debug, Clone, Copy, PartialEq, Eq, Structural)]
pub enum HealthStatus {
    Healthy,
    Warning,
    Degraded,
    Critical,
    Down,
}

/// The upper-case name of a health level.
pub open spec fn health_name(h: HealthStatus) -> Seq<char> {
    match h {
        HealthStatus::Healthy => "HEALTHY"@,
        HealthStatus::Warning => "WARNING"@,
        HealthStatus::Degraded => "DEGRADED"@,
        HealthStatus::Critical => "CRITICAL"@,
        HealthStatus::Down => "DOWN"@,
    }
}

impl HealthStatus {
    /// The upper-case name of the level.
    pub fn to_string(&self) -> (r: String)
        ensures
            r@ == health_name(*self),
    {
        proof {
            reveal_strlit("HEALTHY");
            reveal_strlit("WARNING");
            reveal_strlit("DEGRADED");
            reveal_strlit("CRITICAL");
            reveal_strlit("DOWN");
        }
        match self {
            HealthStatus::Healthy => "HEALTHY".to_string(),
            HealthStatus::Warning => "WARNING".to_string(),
            HealthStatus::Degraded => "DEGRADED".to_string(),
            HealthStatus::Critical => "CRITICAL".to_string(),
            HealthStatus::Down => "DOWN".to_string(),
        }
    }
}

/// Allocation counters of a buffer pool.
#[derive(Debug, Clone)]
pub struct PoolStats {
    pub total_allocations: u64,
    pub cache_hits: u64,
    pub cache_misses: u64,
    pub current_pool_size: usize,
    pub peak_pool_size: usize,
    pub memory_usage_bytes: u64,
}

impl PoolStats {
    /// Cache hits per allocation in parts per billion, rounded down; none
    /// when nothing was allocated.
    pub fn cache_hit_ratio(&self) -> (r: u128)
        ensures
            r == if self.total_allocations == 0 {
                0
            } else {
                self.cache_hits * 1_000_000_000 / self.total_allocations as int
            },
    {
        if self.total_allocations == 0 {
            0
        } else {
            (self.cache_hits as u128) * 1_000_000_000 / (self.total_allocations as u128)
        }
    }
}

} // verus!
