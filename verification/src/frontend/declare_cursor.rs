//! Where a cursor on a subscription starts.
use vstd::prelude::*;

verus! {

/// The start that a statement asks for.
#[derive(Clone, Copy, Debug, PartialEq, Eq, Structural)]
pub enum Since {
    /// A time in milliseconds.
    TimestampMsNum(u64),
    /// Now.
    ProcessTime,
    /// As early as possible.
    Begin,
}

/// Where a cursor starts.
#[derive(Clone, Copy, Debug, PartialEq, Eq, Structural)]
pub enum CursorStart {
    /// At a time in milliseconds.
    Millis(u64),
    /// At the given epoch.
    Epoch(u64),
}

/// Why a cursor cannot start where a statement asks for.
#[derive(Clone, Copy, Debug, PartialEq, Eq, Structural)]
pub enum CursorError {
    /// The time lies ahead.
    TooLarge,
    /// The time is no longer kept.
    TooSmall,
}

/// What is wrong with a start at the given time.
pub open spec fn start_flaw(unix_millis: u64, retention_seconds: u64, now: u64) -> Option<CursorError> {
    if unix_millis > now {
        Some(CursorError::TooLarge)
    } else if unix_millis + retention_seconds * 1000 < now {
        Some(CursorError::TooSmall)
    } else {
        None
    }
}

/// Checks that a cursor can start at the given time.
pub fn check_cursor_unix_millis(unix_millis: u64, retention_seconds: u64, now: u64) -> (res: Result<
    (),
    CursorError,
>)
    requires
        retention_seconds * 1000 <= now,
    ensures
        match res {
            Ok(_) => start_flaw(unix_millis, retention_seconds, now) is None,
            Err(e) => start_flaw(unix_millis, retention_seconds, now) == Some(e),
        },
{
    let min_unix_millis: u64 = now - retention_seconds * 1000;
    if unix_millis > now {
        return Err(CursorError::TooLarge);
    }
    if unix_millis < min_unix_millis {
        return Err(CursorError::TooSmall);
    }
    Ok(())
}

/// Where a cursor on a subscription starts. The time now is given in milliseconds and as an epoch, and the
/// time at which the subscription was made in milliseconds. Without a wish the cursor starts with the table
/// itself.
pub fn cursor_start(
    since: Option<Since>,
    retention_seconds: u64,
    now: u64,
    now_epoch: u64,
    created_at: u64,
) -> (res: Result<Option<CursorStart>, CursorError>)
    requires
        retention_seconds * 1000 <= now,
    ensures
        match since {
            None => res == Ok::<Option<CursorStart>, CursorError>(None),
            Some(Since::ProcessTime) => res == Ok::<Option<CursorStart>, CursorError>(
                Some(CursorStart::Epoch(now_epoch)),
            ),
            Some(Since::Begin) => res matches Ok(Some(CursorStart::Millis(t))) && t
                == vstd::math::max(now - retention_seconds * 1000, created_at as int),
            Some(Since::TimestampMsNum(t)) => match start_flaw(t, retention_seconds, now) {
                None => res == Ok::<Option<CursorStart>, CursorError>(Some(CursorStart::Millis(t))),
                Some(e) => res == Err::<Option<CursorStart>, CursorError>(e),
            },
        },
{
    match since {
        None => Ok(None),
        Some(Since::ProcessTime) => Ok(Some(CursorStart::Epoch(now_epoch))),
        Some(Since::Begin) => {
            let min_unix_millis: u64 = now - retention_seconds * 1000;
            let start: u64 = if min_unix_millis > created_at {
                min_unix_millis
            } else {
                created_at
            };
            Ok(Some(CursorStart::Millis(start)))
        },
        Some(Since::TimestampMsNum(t)) => match check_cursor_unix_millis(
            t,
            retention_seconds,
            now,
        ) {
            Ok(_) => Ok(Some(CursorStart::Millis(t))),
            Err(e) => Err(e),
        },
    }
}

/// The earliest start of a subscription that was made before now is one that can be asked for by its time.
pub proof fn lemma_begin_is_allowed(retention_seconds: u64, now: u64, created_at: u64)
    requires
        retention_seconds * 1000 <= now,
        created_at <= now,
    ensures
        start_flaw(
            vstd::math::max(now - retention_seconds * 1000, created_at as int) as u64,
            retention_seconds,
            now,
        ) is None,
{
}

} // verus!
