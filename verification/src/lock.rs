//! The advisory lock of a store directory: who may open it, and how long to wait for it.

use vstd::prelude::*;

verus! {

/// A span of time, in nanoseconds.
pub type Nanos = u128;

/// How long to sleep between two attempts at a lock that somebody else holds.
pub const LOCK_POLL_INTERVAL: Nanos = 50_000_000;

/// How long an open waits for the lock unless told otherwise.
pub const DEFAULT_LOCK_TIMEOUT: Nanos = 30_000_000_000;

/// Which lock an open takes, and how long it waits for it.
#[derive(Debug, Clone, Copy, PartialEq, Eq)]
pub struct DbLockOptions {
    timeout: Option<Nanos>,
    shared: bool,
}

impl DbLockOptions {
    /// How long to wait; nothing stands for ever.
    pub closed spec fn spec_timeout(self) -> Option<Nanos> {
        self.timeout
    }

    /// Whether readers share the lock.
    pub closed spec fn spec_shared(self) -> bool {
        self.shared
    }

    /// A lock for one writer.
    pub fn exclusive(timeout: Nanos) -> (r: Self)
        ensures
            r.spec_timeout() == Some(timeout),
            !r.spec_shared(),
    {
        DbLockOptions { timeout: Some(timeout), shared: false }
    }

    /// A lock that any number of readers share.
    pub fn shared(timeout: Nanos) -> (r: Self)
        ensures
            r.spec_timeout() == Some(timeout),
            r.spec_shared(),
    {
        DbLockOptions { timeout: Some(timeout), shared: true }
    }

    /// A lock for one writer, or nothing where it is taken.
    pub fn try_exclusive_once() -> (r: Self)
        ensures
            r.spec_timeout() == Some(0u128),
            !r.spec_shared(),
    {
        DbLockOptions { timeout: Some(0), shared: false }
    }

    /// Whether a store opened with these options refuses changes.
    pub fn read_only(self) -> (r: bool)
        ensures
            r == self.spec_shared(),
    {
        self.shared
    }
}

impl Default for DbLockOptions {
    fn default() -> (r: Self)
        ensures
            r.spec_timeout() == Some(DEFAULT_LOCK_TIMEOUT),
            !r.spec_shared(),
    {
        DbLockOptions::exclusive(DEFAULT_LOCK_TIMEOUT)
    }
}

/// What the operating system answers to one attempt at the lock.
#[derive(Debug, Clone, Copy, PartialEq, Eq)]
pub enum LockReply {
    Granted,
    /// An error: whether it says that the call would block, and its code where it has one.
    Refused { would_block: bool, raw_os_error: Option<i32> },
}

/// What to do after an attempt at the lock.
#[derive(Debug, Clone, Copy, PartialEq, Eq)]
pub enum LockStep {
    /// The lock is held.
    Acquired,
    /// Sleep for the poll interval and try again.
    Wait,
    /// Give up: the lock is still taken and the time is over.
    TimedOut,
    /// Give up: the attempt failed for another reason.
    Failed,
}

/// The error code with which the operating system reports a taken lock.
///
/// Calls `fs4::lock_contended_error` and `std::io::Error::raw_os_error`. The former builds its
/// error from a code of the operating system, so claimed is that there is a code; which one it
/// is depends on the machine and is not stated.
#[verifier::external_body]
fn contended_code() -> (r: Option<i32>)
    ensures
        r is Some,
{
    fs4::lock_contended_error().raw_os_error()
}

/// A refusal means that somebody else holds the lock.
pub open spec fn contended(would_block: bool, raw_os_error: Option<i32>, code: Option<i32>) -> bool {
    would_block || raw_os_error == code
}

/// Whether a refusal with this error means that somebody else holds the lock; `code` is the code
/// with which the operating system says so.
pub fn matches_contention(
    would_block: bool,
    raw_os_error: Option<i32>,
    code: Option<i32>,
) -> (r: bool)
    ensures
        r == contended(would_block, raw_os_error, code),
{
    would_block || match (raw_os_error, code) {
        (Some(a), Some(b)) => a == b,
        (None, None) => true,
        _ => false,
    }
}

/// Whether a refusal with this error means that somebody else holds the lock.
pub fn is_lock_contended(would_block: bool, raw_os_error: Option<i32>) -> (r: bool)
    ensures
        exists|code: i32| r == #[trigger] contended(would_block, raw_os_error, Some(code)),
        would_block ==> r,
        !would_block && raw_os_error is None ==> !r,
{
    let code = contended_code();
    let r = matches_contention(would_block, raw_os_error, code);
    proof {
        let known = code->Some_0;
        assert(r == contended(would_block, raw_os_error, Some(known)));
    }
    r
}

/// The step after an attempt, `elapsed` after the first one.
pub open spec fn step_after(
    options: DbLockOptions,
    reply: LockReply,
    code: Option<i32>,
    elapsed: Nanos,
) -> LockStep {
    match reply {
        LockReply::Granted => LockStep::Acquired,
        LockReply::Refused { would_block, raw_os_error } => if !contended(
            would_block,
            raw_os_error,
            code,
        ) {
            LockStep::Failed
        } else if options.spec_timeout() is Some && elapsed >= options.spec_timeout()->Some_0 {
            LockStep::TimedOut
        } else {
            LockStep::Wait
        },
    }
}

/// Decides what follows an attempt; `code` is the code with which the operating system reports a
/// taken lock.
pub fn decide_lock_step(
    options: DbLockOptions,
    reply: LockReply,
    code: Option<i32>,
    elapsed: Nanos,
) -> (r: LockStep)
    ensures
        r == step_after(options, reply, code, elapsed),
{
    match reply {
        LockReply::Granted => LockStep::Acquired,
        LockReply::Refused { would_block, raw_os_error } => {
            if !matches_contention(would_block, raw_os_error, code) {
                return LockStep::Failed;
            }
            if let Some(timeout) = options.timeout {
                if elapsed >= timeout {
                    return LockStep::TimedOut;
                }
            }
            LockStep::Wait
        },
    }
}

/// Decides what follows an attempt on this machine.
pub fn acquire_lock_step(options: DbLockOptions, reply: LockReply, elapsed: Nanos) -> (r: LockStep)
    ensures
        exists|code: i32| r == #[trigger] step_after(options, reply, Some(code), elapsed),
        reply is Granted <==> r is Acquired,
        reply matches LockReply::Refused { would_block, raw_os_error } && would_block ==> r == (
        match options.spec_timeout() {
            Some(timeout) => if elapsed < timeout {
                LockStep::Wait
            } else {
                LockStep::TimedOut
            },
            None => LockStep::Wait,
        }),
        reply matches LockReply::Refused { would_block, raw_os_error } && !would_block
            && raw_os_error is None ==> r is Failed,
{
    let code = contended_code();
    let r = decide_lock_step(options, reply, code, elapsed);
    proof {
        let known = code->Some_0;
        assert(r == step_after(options, reply, Some(known), elapsed));
    }
    r
}

/// Once the timeout has passed nobody waits any longer; a timeout of zero never waits.
pub proof fn law_no_wait_after_timeout(
    options: DbLockOptions,
    reply: LockReply,
    code: Option<i32>,
    elapsed: Nanos,
)
    requires
        options.spec_timeout() matches Some(timeout) && elapsed >= timeout,
    ensures
        step_after(options, reply, code, elapsed) != LockStep::Wait,
{
}

/// The lock is held exactly where the operating system granted it.
pub proof fn law_acquired_iff_granted(
    options: DbLockOptions,
    reply: LockReply,
    code: Option<i32>,
    elapsed: Nanos,
)
    ensures
        step_after(options, reply, code, elapsed) == LockStep::Acquired <==> reply
            == LockReply::Granted,
{
}

/// Nobody gives up early, and nobody waits for ever: a lock that somebody else holds is tried
/// again while there is time, or where there is no limit, and given up as soon as the time is
/// over. Readers and writers wait alike. Any other refusal is a failure at once.
pub proof fn law_nobody_gives_up_early(
    options: DbLockOptions,
    would_block: bool,
    raw_os_error: Option<i32>,
    code: Option<i32>,
    elapsed: Nanos,
)
    ensures
        ({
            let step = step_after(
                options,
                LockReply::Refused { would_block, raw_os_error },
                code,
                elapsed,
            );
            let taken = would_block || raw_os_error == code;
            &&& options.spec_timeout() is None ==> (step is Wait <==> taken) && !(step is TimedOut)
            &&& options.spec_timeout() matches Some(timeout) ==> (step is Wait <==> taken && elapsed
                < timeout) && (step is TimedOut <==> taken && elapsed >= timeout)
            &&& step is Failed <==> !taken
            &&& !(step is Acquired)
        }),
{
}

/// Two attempts with the same reply after the same time are followed by the same step, whichever
/// of the two is for reading, as long as both wait equally long.
pub proof fn law_readers_wait_like_writers(
    reader: DbLockOptions,
    writer: DbLockOptions,
    reply: LockReply,
    code: Option<i32>,
    elapsed: Nanos,
)
    requires
        reader.spec_timeout() == writer.spec_timeout(),
    ensures
        step_after(reader, reply, code, elapsed) == step_after(writer, reply, code, elapsed),
{
}

/// Who waits longer gives up later: what is still waited for after some time was waited for
/// before, and whoever has more time waits where another one waits.
pub proof fn law_waiting_ends_once(
    options: DbLockOptions,
    patient: DbLockOptions,
    reply: LockReply,
    code: Option<i32>,
    earlier: Nanos,
    later: Nanos,
)
    requires
        earlier <= later,
        options.spec_timeout() matches Some(timeout) ==> (patient.spec_timeout() matches Some(more)
            ==> timeout <= more),
        options.spec_timeout() is None ==> patient.spec_timeout() is None,
    ensures
        step_after(options, reply, code, later) is Wait ==> step_after(
            options,
            reply,
            code,
            earlier,
        ) is Wait,
        step_after(options, reply, code, earlier) is TimedOut ==> step_after(
            options,
            reply,
            code,
            later,
        ) is TimedOut,
        step_after(options, reply, code, earlier) is Wait ==> step_after(
            patient,
            reply,
            code,
            earlier,
        ) is Wait,
{
}

} // verus!
