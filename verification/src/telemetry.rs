//! Tape telemetry: where a program's reads land relative to its writes.
//!
//! In the compiled layout instruction `i` writes slot `i` and inputs sit
//! past `input_start_index`, so the distance between the write head and a
//! read slot predicts the cache level serving it. The report buckets every
//! read; the average jump distance is the quotient of the carried totals,
//! left to the caller to divide.

use vstd::prelude::*;
use crate::bytecode::Program;

verus! {

/// Read counts by the cache level their distance predicts.
#[derive(Debug, Clone, Copy, PartialEq, Eq, Default, Structural)]
pub struct LocalityStats {
    /// Reads of a slot written one or two instructions ago.
    pub hot_l1: usize,
    /// Reads within a window of 4096 slots.
    pub warm_l1: usize,
    /// Reads within a window of 32768 slots.
    pub warm_l2: usize,
    /// Reads beyond the local cache windows.
    pub cold_ram: usize,
    /// Reads of input and constant slots, structurally cold.
    pub constants: usize,
}

/// A program's read profile: one entry per instruction, two reads each.
#[derive(Debug, Clone, Copy, PartialEq, Eq, Default, Structural)]
pub struct TelemetryReport {
    pub total_ops: usize,
    pub locality: LocalityStats,
    /// Total and count of the computed-slot jumps; their quotient is the
    /// average jump distance.
    pub total_jump_distance: u64,
    pub jump_reads: u64,
}

/// Which locality bucket one read falls into: 0 hot, 1 warm L1, 2 warm
/// L2, 3 cold, 4 constant.
pub open spec fn read_bucket(current: int, source: int, boundary: int) -> int {
    if source >= boundary {
        4
    } else {
        let dist = if current >= source { current - source } else { 0 };
        if dist <= 2 { 0 } else if dist <= 4096 { 1 } else if dist <= 32768 { 2 } else { 3 }
    }
}

impl TelemetryReport {
    /// Profiles every read of the program. Each instruction contributes
    /// exactly two reads, so the buckets always add up to twice the
    /// instruction count.
    pub fn analyze(program: &Program) -> (r: TelemetryReport)
        requires
            program.p1@.len() == program.ops@.len(),
            program.p2@.len() == program.ops@.len(),
            program.ops@.len() <= 0x7FFF_FFFF,
            program.input_start_index <= 0xFFFF_FFFF,
        ensures
            r.total_ops == program.ops@.len(),
            r.locality.hot_l1 + r.locality.warm_l1 + r.locality.warm_l2 + r.locality.cold_ram
                + r.locality.constants == 2 * program.ops@.len(),
            r.jump_reads == r.locality.hot_l1 + r.locality.warm_l1 + r.locality.warm_l2
                + r.locality.cold_ram,
    {
        let n = program.ops.len();
        let boundary = program.input_start_index;
        let mut stats = LocalityStats {
            hot_l1: 0,
            warm_l1: 0,
            warm_l2: 0,
            cold_ram: 0,
            constants: 0,
        };
        let mut total_distance: u64 = 0;
        let mut reads: u64 = 0;
        let mut i: usize = 0;
        while i < n
            invariant
                0 <= i <= n,
                n == program.ops@.len(),
                program.p1@.len() == n,
                program.p2@.len() == n,
                n <= 0x7FFF_FFFF,
                boundary == program.input_start_index,
                stats.hot_l1 + stats.warm_l1 + stats.warm_l2 + stats.cold_ram
                    + stats.constants == 2 * i,
                reads == stats.hot_l1 + stats.warm_l1 + stats.warm_l2 + stats.cold_ram,
                reads <= 2 * i,
                total_distance as int <= 2 * i * n,
            decreases n - i,
        {
            let p1 = program.p1[i];
            let p2 = program.p2[i];
            proof {
                assert(2 * i * n <= 2 * 0x7FFF_FFFF * 0x7FFF_FFFF) by (nonlinear_arith)
                    requires 0 <= i <= n, n <= 0x7FFF_FFFF;
            }
            record_jump(i, p1, boundary, &mut stats, &mut total_distance, &mut reads);
            record_jump(i, p2, boundary, &mut stats, &mut total_distance, &mut reads);
            proof {
                assert(total_distance as int <= 2 * i * n + 2 * i);
                assert(2 * i * n + 2 * i <= 2 * (i + 1) * n) by (nonlinear_arith)
                    requires 0 <= i < n;
            }
            i = i + 1;
        }
        TelemetryReport {
            total_ops: n,
            locality: stats,
            total_jump_distance: total_distance,
            jump_reads: reads,
        }
    }
}

/// Buckets one read and accumulates its jump distance.
fn record_jump(
    current: usize,
    source: u32,
    boundary: usize,
    stats: &mut LocalityStats,
    total_dist: &mut u64,
    count: &mut u64,
)
    requires
        current <= 0xFFFF_FFFF,
        old(stats).hot_l1 + old(stats).warm_l1 + old(stats).warm_l2 + old(stats).cold_ram
            + old(stats).constants < usize::MAX,
        old(count) < u64::MAX,
        old(total_dist) <= u64::MAX - 0xFFFF_FFFF,
        source as int >= boundary || current < 0x7FFF_FFFF,
    ensures
        final(stats).hot_l1 + final(stats).warm_l1 + final(stats).warm_l2
            + final(stats).cold_ram + final(stats).constants
            == old(stats).hot_l1 + old(stats).warm_l1 + old(stats).warm_l2
                + old(stats).cold_ram + old(stats).constants + 1,
        ({
            let b = read_bucket(current as int, source as int, boundary as int);
            &&& (b == 4 ==> final(stats).constants == old(stats).constants + 1
                && *final(count) == *old(count) && *final(total_dist) == *old(total_dist))
            &&& (b == 0 ==> final(stats).hot_l1 == old(stats).hot_l1 + 1)
            &&& (b == 1 ==> final(stats).warm_l1 == old(stats).warm_l1 + 1)
            &&& (b == 2 ==> final(stats).warm_l2 == old(stats).warm_l2 + 1)
            &&& (b == 3 ==> final(stats).cold_ram == old(stats).cold_ram + 1)
            &&& (b != 4 ==> *final(count) == *old(count) + 1
                && final(stats).constants == old(stats).constants
                && *final(total_dist) == *old(total_dist)
                    + (if current >= source { current - source } else { 0 }))
        }),
        *final(total_dist) <= *old(total_dist) + (if (source as int) < boundary { current as int } else { 0 }),
        *final(count) <= *old(count) + 1,
{
    let source_us = source as usize;
    if source_us >= boundary {
        stats.constants = stats.constants + 1;
    } else {
        let dist: usize = if current >= source_us { current - source_us } else { 0 };
        *total_dist = *total_dist + dist as u64;
        *count = *count + 1;
        if dist <= 2 {
            stats.hot_l1 = stats.hot_l1 + 1;
        } else if dist <= 4096 {
            stats.warm_l1 = stats.warm_l1 + 1;
        } else if dist <= 32768 {
            stats.warm_l2 = stats.warm_l2 + 1;
        } else {
            stats.cold_ram = stats.cold_ram + 1;
        }
    }
}

} // verus!
