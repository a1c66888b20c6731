use vstd::prelude::*;
use crate::text::{str_eq, to_lowercase, lowercase_of, parse_i64, parse_i64_spec, trim_end_matches_char, trim_end_char};

verus! {

/// A grouping of points into time buckets of `interval_secs` seconds.
#[derive(Debug, Clone, Copy, PartialEq, Eq, Structural)]
pub struct GroupByTime {
    pub interval_secs: i64,
}

/// The bucket length in seconds that a grouping name stands for: one of the
/// named lengths (compared lowercased), else the decimal number of seconds
/// with any trailing `s` removed.
pub open spec fn interval_of(s: Seq<char>) -> Option<i64> {
    let lower = lowercase_of(s);
    if lower == "10s"@ {
        Some(10)
    } else if lower == "1m"@ {
        Some(60)
    } else if lower == "5m"@ {
        Some(300)
    } else if lower == "1h"@ {
        Some(3600)
    } else if lower == "1d"@ {
        Some(86400)
    } else {
        parse_i64_spec(trim_end_char(s, 's'))
    }
}

impl GroupByTime {
    /// Parses a grouping such as `1m`, `1h` or `30s`.
    pub fn from_str(s: &str) -> (r: Option<Self>)
        ensures
            r == (match interval_of(s@) {
                Some(v) => Some(GroupByTime { interval_secs: v }),
                None => None,
            }),
    {
        let lower = to_lowercase(s);
        let l = lower.as_str();
        let interval_secs: i64 = if str_eq(l, "10s") {
            10
        } else if str_eq(l, "1m") {
            60
        } else if str_eq(l, "5m") {
            300
        } else if str_eq(l, "1h") {
            3600
        } else if str_eq(l, "1d") {
            86400
        } else {
            let t = trim_end_matches_char(s, 's');
            match parse_i64(t) {
                Ok(v) => v,
                Err(_) => {
                    return None;
                },
            }
        };
        Some(GroupByTime { interval_secs })
    }

    /// The bucket length in nanoseconds.
    pub fn interval_ns(&self) -> (r: i64)
        requires
            i64::MIN <= self.interval_secs * 1_000_000_000 <= i64::MAX,
        ensures
            r == self.interval_secs * 1_000_000_000,
    {
        self.interval_secs * 1_000_000_000
    }
}

} // verus!
