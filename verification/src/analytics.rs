//! Usage-event records and the pure computations behind event reporting.
//!
//! Building and sending a report involves the process environment and the
//! network, which live in the surrounding layer; this module holds the
//! event records themselves and the argument-trimming and flag-parsing
//! rules they are built with.

use vstd::prelude::*;

verus! {

/// The kind of a usage event.
#[derive(Debug, Clone, Copy, PartialEq, Eq, Structural)]
pub enum AnalyticsEventName {
    Invoked,
    Completed,
    Errored,
}

/// The wire name of each event kind.
pub open spec fn event_label(e: AnalyticsEventName) -> Seq<char> {
    match e {
        AnalyticsEventName::Invoked => "command-invoked"@,
        AnalyticsEventName::Completed => "command-completed"@,
        AnalyticsEventName::Errored => "command-errored"@,
    }
}

impl AnalyticsEventName {
    /// The event's wire name, as it is serialized and displayed.
    pub fn label(&self) -> (s: String)
        ensures
            s@ == event_label(*self),
    {
        match self {
            AnalyticsEventName::Invoked => "command-invoked".to_owned(),
            AnalyticsEventName::Completed => "command-completed".to_owned(),
            AnalyticsEventName::Errored => "command-errored".to_owned(),
        }
    }
}

/// A command-invocation event: the command being run, rendered by the
/// surrounding command-line layer.
#[derive(Debug, Clone, PartialEq, Eq)]
pub struct InvokedEvent {
    pub cmd: String,
}

/// A command-failure event: how long the command ran before failing, in
/// milliseconds.
#[derive(Debug, Clone, Copy, PartialEq, Eq, Structural)]
pub struct ErroredEvent {
    pub runtime: u128,
}

impl ErroredEvent {
    /// Builds the event from the elapsed runtime, in milliseconds.
    pub fn from_elapsed(runtime_millis: u128) -> (r: Self)
        ensures
            r.runtime == runtime_millis,
    {
        Self { runtime: runtime_millis }
    }
}

/// The last index at or below `i` whose element equals `part`.
pub open spec fn rfind(args: Seq<String>, part: Seq<char>, i: int) -> Option<int>
    decreases i + 1,
{
    if i < 0 || i >= args.len() {
        None
    } else if args[i]@ == part {
        Some(i)
    } else {
        rfind(args, part, i - 1)
    }
}

/// The reported argument list of a command: everything after the last
/// occurrence of the command's own trailing name, or the whole list if the
/// name does not occur.
#[verifier::loop_isolation(false)]
pub fn args_after_last(args: Vec<String>, last_command_part: &String) -> (r: Vec<String>)
    ensures
        r@ == match rfind(args@, last_command_part@, args@.len() - 1) {
            Some(ix) => args@.subrange(ix + 1, args@.len() as int),
            None => args@,
        },
{
    let n = args.len();
    let mut i: usize = n;
    while i > 0
        invariant
            i <= n,
            rfind(args@, last_command_part@, n - 1) == rfind(args@, last_command_part@, i - 1),
        decreases i,
    {
        if args[i - 1] == *last_command_part {
            let mut tail: Vec<String> = Vec::new();
            let mut k: usize = i;
            while k < n
                invariant
                    i <= k <= n,
                    tail@ == args@.subrange(i as int, k as int),
                decreases n - k,
            {
                tail.push(args[k].clone());
                k += 1;
            }
            return tail;
        }
        i -= 1;
    }
    args
}

/// How an environment flag is read: the flag counts as set exactly when its
/// value is the word `true`; any other value, like a missing variable,
/// leaves it unset.
pub fn flag_value_is_true(value: &str) -> (r: bool)
    ensures
        r == (value@ == "true"@),
{
    let owned = value.to_owned();
    let yes: String = "true".to_owned();
    owned == yes
}

} // verus!
