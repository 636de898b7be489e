//! The settings of a node.
use vstd::prelude::*;

verus! {

/// The settings of a node. Times are in milliseconds.
#[derive(Clone, Copy, Debug)]
pub struct Config {
    /// About how many orphan blocks to expect.
    pub orphan_block_limit: usize,
    /// How many headers are sent at a time.
    pub max_headers_len: u64,
    /// How old the tip may be before the node counts as catching up.
    pub max_tip_age: u64,
    /// How long a peer has to deliver its headers, whatever their number.
    pub headers_download_timeout_base: u64,
    /// How much longer it has for each header that is expected.
    pub headers_download_timeout_per_header: u64,
    /// The time between two blocks.
    pub pow_space: u64,
    /// How many peers that this node connected to are protected from being disconnected.
    pub max_outbound_peers_to_protect: usize,
}

impl Config {
    /// Blocks take time.
    pub open spec fn wf(self) -> bool {
        self.pow_space > 0
    }

    /// The time that passed from `timestamp` to `now`, if any did.
    pub open spec fn age(timestamp: u64, now: u64) -> int {
        if now > timestamp {
            now - timestamp
        } else {
            0
        }
    }

    /// How long a peer has to deliver its headers from one with `timestamp` on.
    pub open spec fn headers_sync_timeout(self, timestamp: u64, now: u64) -> int {
        self.headers_download_timeout_base + self.headers_download_timeout_per_header * (
        Config::age(timestamp, now) / self.pow_space as int)
    }
}

/// The time for headers is the base and, for every full interval between two blocks that has
/// passed since the timestamp, the time for one header.
pub proof fn law_time_for_headers(config: Config, timestamp: u64, now: u64, intervals: int)
    ensures
        now <= timestamp && config.pow_space > 0 ==> config.headers_sync_timeout(timestamp, now)
            == config.headers_download_timeout_base,
        0 <= intervals && intervals * config.pow_space <= now - timestamp && now - timestamp < (
        intervals + 1) * config.pow_space ==> config.headers_sync_timeout(timestamp, now)
            == config.headers_download_timeout_base + intervals
            * config.headers_download_timeout_per_header,
{
    let space = config.pow_space as int;
    let per_header = config.headers_download_timeout_per_header as int;
    if now <= timestamp && space > 0 {
        assert(0int / space == 0) by (nonlinear_arith)
            requires
                space > 0,
        ;
        assert(per_header * 0 == 0);
    }
    if 0 <= intervals && intervals * space <= now - timestamp && now - timestamp < (intervals + 1)
        * space {
        assert(space > 0 && now - timestamp >= 0 && (now - timestamp) / space == intervals)
            by (nonlinear_arith)
            requires
                0 <= intervals,
                0 <= space,
                intervals * space <= now - timestamp,
                now - timestamp < (intervals + 1) * space,
        ;
        assert(per_header * intervals == intervals * per_header) by (nonlinear_arith);
        if now == timestamp {
            assert(intervals == 0) by (nonlinear_arith)
                requires
                    space > 0,
                    0 <= intervals,
                    intervals * space <= 0,
            ;
        }
    }
}

/// Settings are in order wherever blocks take time at all.
pub proof fn law_settings_are_in_order(config: Config)
    ensures
        config.wf() <==> config.pow_space > 0,
{
}

} // verus!
