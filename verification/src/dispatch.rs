//! The way in: where a system call goes by its number.
//!
//! A number of the native interface goes there, before any Linux table is
//! asked. A Linux number is decoded, and the call goes to the personality that
//! registered to answer them. An unknown number is `ENOSYS`, and so is every
//! Linux call while no personality is registered. Every way ends in a value:
//! there is nothing above this to catch a failure.

use vstd::prelude::*;

use crate::errno::Errno;
use crate::nr::Syscall;

verus! {

/// What the way in keeps.
#[derive(Clone, Copy, Debug, PartialEq, Eq)]
pub struct Entry {
    /// How many more calls answered `ENOSYS` may be reported.
    pub lines: u32,
    /// What answers the Linux calls, once it is registered.
    pub personality: Option<usize>,
}

/// Where a call goes.
#[derive(Clone, Copy, Debug, PartialEq, Eq, Structural)]
pub enum Route {
    /// To the native interface.
    Native,
    /// To this personality, as this call.
    Personality { who: usize, call: Syscall },
    /// Nowhere: this is the return value. Whether a line is reported about it.
    Return { value: i64, report: bool },
}

/// Nothing registered, and nothing reported.
pub fn new_entry() -> (entry: Entry)
    ensures
        entry == (Entry { lines: 0, personality: None }),
{
    Entry { lines: 0, personality: None }
}

/// Report the next `lines` calls answered `ENOSYS`, a line each. A bound rather
/// than a switch, because a program that tries a refused call again for ever
/// needs reporting once.
pub fn report_unanswered(entry: &mut Entry, lines: u32)
    ensures
        *final(entry) == (Entry { lines, ..*old(entry) }),
{
    entry.lines = lines;
}

/// One `ENOSYS`: whether it is reported, if there is room left for it.
pub fn unanswered(entry: &mut Entry) -> (report: bool)
    ensures
        report == (old(entry).lines > 0),
        *final(entry) == (Entry {
            lines: if old(entry).lines > 0 {
                (old(entry).lines - 1) as u32
            } else {
                0
            },
            ..*old(entry)
        }),
{
    if entry.lines == 0 {
        return false;
    }
    entry.lines = entry.lines - 1;
    true
}

/// Answer the Linux calls with `personality` from now on. The first
/// registration stands.
pub fn register_personality(entry: &mut Entry, personality: usize)
    ensures
        *final(entry) == (Entry {
            personality: match old(entry).personality {
                Some(first) => Some(first),
                None => Some(personality),
            },
            ..*old(entry)
        }),
{
    if entry.personality.is_none() {
        entry.personality = Some(personality);
    }
}

/// Whether a personality is registered.
pub fn has_personality(entry: &Entry) -> (yes: bool)
    ensures
        yes == (entry.personality is Some),
{
    entry.personality.is_some()
}

/// Where a call goes, and what the way in keeps afterwards.
pub open spec fn spec_dispatch(entry: Entry, native: bool, call: Option<Syscall>) -> (Entry, Route) {
    let refused = (
        Entry {
            lines: if entry.lines > 0 {
                (entry.lines - 1) as u32
            } else {
                0
            },
            ..entry
        },
        Route::Return {
            value: (-Errno::ENOSYS.spec_number()) as i64,
            report: entry.lines > 0,
        },
    );
    if native {
        (entry, Route::Native)
    } else {
        match (call, entry.personality) {
            (Some(call), Some(who)) => (entry, Route::Personality { who, call }),
            _ => refused,
        }
    }
}

/// Where a call goes, given whether its number is a native one and what it is
/// in the machine's table of Linux calls.
pub fn dispatch(entry: &mut Entry, native: bool, call: Option<Syscall>) -> (route: Route)
    ensures
        (*final(entry), route) == spec_dispatch(*old(entry), native, call),
{
    if native {
        return Route::Native;
    }
    if let Some(call) = call {
        if let Some(who) = entry.personality {
            return Route::Personality { who, call };
        }
    }
    let report = unanswered(entry);
    Route::Return { value: Errno::ENOSYS.as_return_value(), report }
}

/// What the way in keeps after some calls.
pub open spec fn after_calls(entry: Entry, calls: Seq<(bool, Option<Syscall>)>) -> Entry
    decreases calls.len(),
{
    if calls.len() == 0 {
        entry
    } else {
        spec_dispatch(
            after_calls(entry, calls.drop_last()),
            calls.last().0,
            calls.last().1,
        ).0
    }
}

/// How many of some calls are reported.
pub open spec fn reported(entry: Entry, calls: Seq<(bool, Option<Syscall>)>) -> nat
    decreases calls.len(),
{
    if calls.len() == 0 {
        0
    } else {
        let before = reported(entry, calls.drop_last());
        match spec_dispatch(
            after_calls(entry, calls.drop_last()),
            calls.last().0,
            calls.last().1,
        ).1 {
            Route::Return { report: true, .. } => before + 1,
            _ => before,
        }
    }
}

/// However many calls are refused, no more lines are reported than were asked
/// for.
pub proof fn law_reports_are_bounded(entry: Entry, calls: Seq<(bool, Option<Syscall>)>)
    ensures
        reported(entry, calls) + after_calls(entry, calls).lines == entry.lines,
    decreases calls.len(),
{
    if calls.len() > 0 {
        law_reports_are_bounded(entry, calls.drop_last());
    }
}

/// Without a personality every Linux call is `ENOSYS`; with one, every call
/// its table knows reaches it, and the first to register is the one.
pub proof fn law_unknown_calls_are_enosys(entry: Entry, native: bool, call: Option<Syscall>)
    ensures
        match spec_dispatch(entry, native, call).1 {
            Route::Return { value, .. } => value == -38 && !native && (call is None
                || entry.personality is None),
            Route::Personality { who, call: named } => entry.personality == Some(who) && call
                == Some(named),
            Route::Native => native,
        },
        spec_dispatch(entry, native, call).0.personality == entry.personality,
{
}

/// A native call is the native interface's before it is anything else; a Linux
/// call goes to the personality as the call it is; and one that goes nowhere is
/// reported while there are lines left to report it in.
pub proof fn law_a_call_goes_where_it_belongs(entry: Entry, native: bool, call: Option<Syscall>)
    ensures
        ({
            let (after, route) = spec_dispatch(entry, native, call);
            &&& native ==> route == Route::Native && after == entry
            &&& !native && call is Some && entry.personality is Some ==> route
                == (Route::Personality { who: entry.personality->0, call: call->0 }) && after
                == entry
            &&& !native && (call is None || entry.personality is None) ==> {
                &&& route is Return
                &&& route matches Route::Return { value, report } ==> value == -38 && (report
                    <==> entry.lines > 0)
                &&& entry.lines > 0 ==> after.lines == entry.lines - 1
                &&& entry.lines == 0 ==> after.lines == 0
            }
        }),
{
}

} // verus!
