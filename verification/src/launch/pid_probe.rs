//! What tells a process from a later one with the same number.
use crate::fs_query::walker::macos::{read_i32_le, read_i64_le, u32_at, u64_at};
use vstd::prelude::*;

verus! {

/// When a process started, as the system counts it, and its parent.
#[derive(Clone, Copy, Debug, PartialEq, Eq, Structural)]
pub struct PidStat {
    pub start_time: u64,
    pub ppid: i32,
}

/// What the system's record of a process says: when it started, and its parent. Where
/// there is no record, the process is gone.
pub fn read_pid_stat(record: Option<(u64, i32)>) -> (r: Option<PidStat>)
    ensures
        match record {
            Some((start_time, ppid)) => r == Some(PidStat { start_time, ppid }),
            None => r is None,
        },
{
    match record {
        Some((start_time, ppid)) => Some(PidStat { start_time, ppid }),
        None => None,
    }
}

/// How long the record of a process is on macOS.
pub const KINFO_PROC_SIZE: usize = 648;

/// Where in the record the start of the process stands, in seconds.
pub const OFF_STARTTIME_TV_SEC: usize = 0;

/// Where in the record the parent of the process stands.
pub const OFF_E_PPID: usize = 560;

/// Reads the record of a process on macOS. A record that is cut short, or that knows no
/// start, is none.
pub fn parse_kinfo_proc(record: &[u8]) -> (r: Option<PidStat>)
    ensures
        ({
            let start = u64_at(record@, OFF_STARTTIME_TV_SEC as int);
            &&& r is Some <==> record@.len() >= KINFO_PROC_SIZE && (start as i64) > 0
            &&& r matches Some(s) ==> s.start_time == start && s.ppid == u32_at(
                record@,
                OFF_E_PPID as int,
            ) as i32
        }),
        record@.len() < 648 ==> r is None,
        record@.len() >= 648 ==> ({
            let start = u64_at(record@, 0);
            &&& r is Some <==> (start as i64) > 0
            &&& r matches Some(s) ==> s.start_time == start && s.ppid == u32_at(record@, 560) as i32
        }),
{
    if record.len() < KINFO_PROC_SIZE {
        return None;
    }
    let tv_sec = match read_i64_le(record, OFF_STARTTIME_TV_SEC) {
        Some(n) => n,
        None => {
            return None;
        },
    };
    if tv_sec <= 0 {
        return None;
    }
    let ghost start = u64_at(record@, OFF_STARTTIME_TV_SEC as int);
    assert(tv_sec as u64 == start) by (bit_vector)
        requires
            tv_sec == start as i64,
            tv_sec > 0,
    ;
    match read_i32_le(record, OFF_E_PPID) {
        Some(ppid) => Some(PidStat { start_time: tv_sec as u64, ppid }),
        None => None,
    }
}

} // verus!
