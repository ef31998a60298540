//! Instrumentation counters for rope operations. Every counter is an
//! independent cell: recording methods update each counter separately and no
//! cross-counter relation is maintained, so a reader between two updates may
//! see a transiently inconsistent snapshot. Counters wrap around at the
//! machine limits, as hardware counters do.

use vstd::prelude::*;

verus! {

/// The value of a counter after adding to it, wrapping past the largest
/// machine value.
pub open spec fn spec_wrap_add(a: int, b: int) -> int {
    if a + b <= usize::MAX {
        a + b
    } else {
        a + b - usize::MAX - 1
    }
}

/// The value of a counter after subtracting from it, wrapping below zero.
pub open spec fn spec_wrap_sub(a: int, b: int) -> int {
    if a - b >= 0 {
        a - b
    } else {
        a - b + usize::MAX + 1
    }
}

/// The value of a wide counter after adding to it, wrapping past the largest
/// value.
pub open spec fn spec_wrap_add64(a: int, b: int) -> int {
    if a + b <= u64::MAX {
        a + b
    } else {
        a + b - u64::MAX - 1
    }
}

fn wrap_add(a: usize, b: usize) -> (r: usize)
    ensures
        r == spec_wrap_add(a as int, b as int),
{
    match a.checked_add(b) {
        Some(v) => v,
        None => b - (usize::MAX - a) - 1,
    }
}

fn wrap_sub(a: usize, b: usize) -> (r: usize)
    ensures
        r == spec_wrap_sub(a as int, b as int),
{
    if a >= b {
        a - b
    } else {
        a + 1 + (usize::MAX - b)
    }
}

fn wrap_add64(a: u64, b: u64) -> (r: u64)
    ensures
        r == spec_wrap_add64(a as int, b as int),
{
    match a.checked_add(b) {
        Some(v) => v,
        None => b - (u64::MAX - a) - 1,
    }
}

/// Counters and timers instrumenting rope operations.
#[derive(Clone, Copy, Debug, PartialEq, Eq, Structural)]
pub struct RopeMetrics {
    pub total_nodes: usize,
    pub total_leaves: usize,
    pub total_internal_nodes: usize,
    pub max_height: usize,
    pub total_splits: usize,
    pub total_merges: usize,
    pub total_rebalances: usize,
    pub total_insertions: usize,
    pub total_deletions: usize,
    pub total_searches: usize,
    pub total_rotations: usize,
    pub total_bytes: usize,
    pub total_operations: usize,
    pub total_time_nanos: u64,
    pub peak_memory_usage: usize,
    pub cache_hits: usize,
    pub cache_misses: usize,
}

impl RopeMetrics {
    /// All counters at zero.
    pub open spec fn spec_zeroed(self) -> bool {
        &&& self.total_nodes == 0
        &&& self.total_leaves == 0
        &&& self.total_internal_nodes == 0
        &&& self.max_height == 0
        &&& self.total_splits == 0
        &&& self.total_merges == 0
        &&& self.total_rebalances == 0
        &&& self.total_insertions == 0
        &&& self.total_deletions == 0
        &&& self.total_searches == 0
        &&& self.total_rotations == 0
        &&& self.total_bytes == 0
        &&& self.total_operations == 0
        &&& self.total_time_nanos == 0
        &&& self.peak_memory_usage == 0
        &&& self.cache_hits == 0
        &&& self.cache_misses == 0
    }

    pub fn new() -> (r: RopeMetrics)
        ensures
            r.spec_zeroed(),
    {
        RopeMetrics {
            total_nodes: 0,
            total_leaves: 0,
            total_internal_nodes: 0,
            max_height: 0,
            total_splits: 0,
            total_merges: 0,
            total_rebalances: 0,
            total_insertions: 0,
            total_deletions: 0,
            total_searches: 0,
            total_rotations: 0,
            total_bytes: 0,
            total_operations: 0,
            total_time_nanos: 0,
            peak_memory_usage: 0,
            cache_hits: 0,
            cache_misses: 0,
        }
    }

    /// Counts one insertion of the given size: the insertion counter, the
    /// byte counter and the operation counter each move up by their amount.
    pub fn record_insertion(&mut self, bytes: usize)
        ensures
            final(self).total_insertions == spec_wrap_add(old(self).total_insertions as int, 1),
            final(self).total_bytes == spec_wrap_add(old(self).total_bytes as int, bytes as int),
            final(self).total_operations == spec_wrap_add(old(self).total_operations as int, 1),
            *final(self) == (RopeMetrics {
                total_insertions: final(self).total_insertions,
                total_bytes: final(self).total_bytes,
                total_operations: final(self).total_operations,
                ..*old(self)
            }),
    {
        self.total_insertions = wrap_add(self.total_insertions, 1);
        self.total_bytes = wrap_add(self.total_bytes, bytes);
        self.total_operations = wrap_add(self.total_operations, 1);
    }

    /// Counts one deletion of the given size: the byte counter moves down.
    pub fn record_deletion(&mut self, bytes: usize)
        ensures
            final(self).total_deletions == spec_wrap_add(old(self).total_deletions as int, 1),
            final(self).total_bytes == spec_wrap_sub(old(self).total_bytes as int, bytes as int),
            final(self).total_operations == spec_wrap_add(old(self).total_operations as int, 1),
            *final(self) == (RopeMetrics {
                total_deletions: final(self).total_deletions,
                total_bytes: final(self).total_bytes,
                total_operations: final(self).total_operations,
                ..*old(self)
            }),
    {
        self.total_deletions = wrap_add(self.total_deletions, 1);
        self.total_bytes = wrap_sub(self.total_bytes, bytes);
        self.total_operations = wrap_add(self.total_operations, 1);
    }

    pub fn record_search(&mut self)
        ensures
            final(self).total_searches == spec_wrap_add(old(self).total_searches as int, 1),
            final(self).total_operations == spec_wrap_add(old(self).total_operations as int, 1),
            *final(self) == (RopeMetrics {
                total_searches: final(self).total_searches,
                total_operations: final(self).total_operations,
                ..*old(self)
            }),
    {
        self.total_searches = wrap_add(self.total_searches, 1);
        self.total_operations = wrap_add(self.total_operations, 1);
    }

    pub fn record_split(&mut self)
        ensures
            final(self).total_splits == spec_wrap_add(old(self).total_splits as int, 1),
            *final(self) == (RopeMetrics { total_splits: final(self).total_splits, ..*old(self) }),
    {
        self.total_splits = wrap_add(self.total_splits, 1);
    }

    pub fn record_merge(&mut self)
        ensures
            final(self).total_merges == spec_wrap_add(old(self).total_merges as int, 1),
            *final(self) == (RopeMetrics { total_merges: final(self).total_merges, ..*old(self) }),
    {
        self.total_merges = wrap_add(self.total_merges, 1);
    }

    pub fn record_rebalance(&mut self)
        ensures
            final(self).total_rebalances == spec_wrap_add(old(self).total_rebalances as int, 1),
            *final(self) == (RopeMetrics {
                total_rebalances: final(self).total_rebalances,
                ..*old(self)
            }),
    {
        self.total_rebalances = wrap_add(self.total_rebalances, 1);
    }

    pub fn record_rotation(&mut self)
        ensures
            final(self).total_rotations == spec_wrap_add(old(self).total_rotations as int, 1),
            *final(self) == (RopeMetrics {
                total_rotations: final(self).total_rotations,
                ..*old(self)
            }),
    {
        self.total_rotations = wrap_add(self.total_rotations, 1);
    }

    /// Adds an elapsed duration, in nanoseconds, to the cumulative timer.
    pub fn record_time(&mut self, nanos: u64)
        ensures
            final(self).total_time_nanos == spec_wrap_add64(
                old(self).total_time_nanos as int,
                nanos as int,
            ),
            *final(self) == (RopeMetrics {
                total_time_nanos: final(self).total_time_nanos,
                ..*old(self)
            }),
    {
        self.total_time_nanos = wrap_add64(self.total_time_nanos, nanos);
    }

    /// Counts one node, as a leaf or as an internal node.
    pub fn record_node(&mut self, is_leaf: bool)
        ensures
            final(self).total_nodes == spec_wrap_add(old(self).total_nodes as int, 1),
            is_leaf ==> final(self).total_leaves == spec_wrap_add(old(self).total_leaves as int, 1)
                && final(self).total_internal_nodes == old(self).total_internal_nodes,
            !is_leaf ==> final(self).total_internal_nodes == spec_wrap_add(
                old(self).total_internal_nodes as int,
                1,
            ) && final(self).total_leaves == old(self).total_leaves,
            *final(self) == (RopeMetrics {
                total_nodes: final(self).total_nodes,
                total_leaves: final(self).total_leaves,
                total_internal_nodes: final(self).total_internal_nodes,
                ..*old(self)
            }),
    {
        self.total_nodes = wrap_add(self.total_nodes, 1);
        if is_leaf {
            self.total_leaves = wrap_add(self.total_leaves, 1);
        } else {
            self.total_internal_nodes = wrap_add(self.total_internal_nodes, 1);
        }
    }

    /// Uncounts one node, as a leaf or as an internal node.
    pub fn record_node_removed(&mut self, is_leaf: bool)
        ensures
            final(self).total_nodes == spec_wrap_sub(old(self).total_nodes as int, 1),
            is_leaf ==> final(self).total_leaves == spec_wrap_sub(old(self).total_leaves as int, 1)
                && final(self).total_internal_nodes == old(self).total_internal_nodes,
            !is_leaf ==> final(self).total_internal_nodes == spec_wrap_sub(
                old(self).total_internal_nodes as int,
                1,
            ) && final(self).total_leaves == old(self).total_leaves,
            *final(self) == (RopeMetrics {
                total_nodes: final(self).total_nodes,
                total_leaves: final(self).total_leaves,
                total_internal_nodes: final(self).total_internal_nodes,
                ..*old(self)
            }),
    {
        self.total_nodes = wrap_sub(self.total_nodes, 1);
        if is_leaf {
            self.total_leaves = wrap_sub(self.total_leaves, 1);
        } else {
            self.total_internal_nodes = wrap_sub(self.total_internal_nodes, 1);
        }
    }

    /// Raises the recorded maximum height to the given value if larger.
    pub fn update_max_height(&mut self, height: usize)
        ensures
            final(self).max_height == if height > old(self).max_height {
                height as int
            } else {
                old(self).max_height as int
            },
            *final(self) == (RopeMetrics { max_height: final(self).max_height, ..*old(self) }),
    {
        if height > self.max_height {
            self.max_height = height;
        }
    }

    /// Raises the peak memory high-water mark to the given value if larger.
    pub fn record_memory_usage(&mut self, bytes: usize)
        ensures
            final(self).peak_memory_usage == if bytes > old(self).peak_memory_usage {
                bytes as int
            } else {
                old(self).peak_memory_usage as int
            },
            *final(self) == (RopeMetrics {
                peak_memory_usage: final(self).peak_memory_usage,
                ..*old(self)
            }),
    {
        if bytes > self.peak_memory_usage {
            self.peak_memory_usage = bytes;
        }
    }

    pub fn record_cache_hit(&mut self)
        ensures
            final(self).cache_hits == spec_wrap_add(old(self).cache_hits as int, 1),
            *final(self) == (RopeMetrics { cache_hits: final(self).cache_hits, ..*old(self) }),
    {
        self.cache_hits = wrap_add(self.cache_hits, 1);
    }

    pub fn record_cache_miss(&mut self)
        ensures
            final(self).cache_misses == spec_wrap_add(old(self).cache_misses as int, 1),
            *final(self) == (RopeMetrics { cache_misses: final(self).cache_misses, ..*old(self) }),
    {
        self.cache_misses = wrap_add(self.cache_misses, 1);
    }

    /// The cumulative recorded time, in nanoseconds.
    pub fn get_total_time(&self) -> (r: u64)
        ensures
            r == self.total_time_nanos,
    {
        self.total_time_nanos
    }

    /// Returns every counter to zero.
    pub fn reset(&mut self)
        ensures
            final(self).spec_zeroed(),
    {
        *self = RopeMetrics::new();
    }
}

impl Default for RopeMetrics {
    /// All counters at zero.
    fn default() -> (r: RopeMetrics)
        ensures
            r.spec_zeroed(),
    {
        RopeMetrics::new()
    }
}

} // verus!
