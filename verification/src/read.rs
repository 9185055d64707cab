//! Filling a buffer from a reader that may deliver less than was asked for.

use crate::error::StorageError;
use vstd::prelude::*;

verus! {

/// What one read call reported.
#[derive(Debug)]
pub enum ReadEvent {
    /// This many bytes were read; none, if the reader is at its end.
    Read(usize),
    /// The call was interrupted before anything was read.
    Interrupted,
    /// The call failed.
    Failed(std::io::Error),
}

/// Where the filling of a buffer stands.
#[derive(Debug, Clone, Copy, PartialEq, Eq)]
pub enum Fill {
    /// Bytes are still missing: read on behind the first `filled` ones.
    Reading { filled: usize },
    /// The buffer is full.
    Full,
    /// The reader ended before the first byte.
    CleanEof,
    /// The reader ended after some of the bytes, as a torn record does.
    Torn,
}

/// How the filling of a buffer of `wanted` bytes stands when `filled` of them
/// are there.
pub open spec fn filled_to(filled: int, wanted: int) -> Fill {
    if filled < wanted {
        Fill::Reading { filled: filled as usize }
    } else {
        Fill::Full
    }
}

/// How the filling goes on when `filled` of `wanted` bytes are there and one read
/// call into the rest has reported `event`.
pub open spec fn fill_after(filled: int, wanted: int, event: ReadEvent) -> Result<
    Fill,
    StorageError,
> {
    match event {
        ReadEvent::Read(n) => Ok(
            if n > 0 {
                filled_to(filled + n, wanted)
            } else if filled == 0 {
                Fill::CleanEof
            } else {
                Fill::Torn
            },
        ),
        ReadEvent::Interrupted => Ok(Fill::Reading { filled: filled as usize }),
        ReadEvent::Failed(error) => Err(StorageError::Io(error)),
    }
}

/// How the filling ends up after several read calls, as far as they are needed.
pub open spec fn fill_after_all(filled: int, wanted: int, events: Seq<ReadEvent>) -> Result<
    Fill,
    StorageError,
>
    decreases events.len(),
{
    if filled >= wanted || events.len() == 0 {
        Ok(filled_to(filled, wanted))
    } else {
        match fill_after(filled, wanted, events[0]) {
            Ok(Fill::Reading { filled: now }) => fill_after_all(
                now as int,
                wanted,
                events.skip(1),
            ),
            ended => ended,
        }
    }
}

/// How many bytes several read calls delivered.
pub open spec fn delivered(events: Seq<ReadEvent>) -> int
    decreases events.len(),
{
    if events.len() == 0 {
        0
    } else {
        delivered(events.drop_last()) + match events.last() {
            ReadEvent::Read(n) => n as int,
            _ => 0,
        }
    }
}

/// Begins to fill a buffer of `wanted` bytes.
pub fn begin_fill(wanted: usize) -> (fill: Fill)
    ensures
        fill == filled_to(0, wanted as int),
{
    if 0 < wanted {
        Fill::Reading { filled: 0 }
    } else {
        Fill::Full
    }
}

/// Goes on filling a buffer of `wanted` bytes, of which `filled` are there, when
/// one read call into the rest has reported `event`.
///
/// The end of the reader is no error, neither before the first byte nor after
/// it; the two are told apart.
pub fn read_exact_or_eof(filled: usize, wanted: usize, event: ReadEvent) -> (r: Result<
    Fill,
    StorageError,
>)
    requires
        filled < wanted,
        event matches ReadEvent::Read(n) ==> filled + n <= wanted,
    ensures
        r == fill_after(filled as int, wanted as int, event),
{
    match event {
        ReadEvent::Read(n) => {
            if n == 0 {
                if filled == 0 {
                    return Ok(Fill::CleanEof);
                }
                return Ok(Fill::Torn);
            }
            let now: usize = filled + n;
            if now < wanted {
                Ok(Fill::Reading { filled: now })
            } else {
                Ok(Fill::Full)
            }
        },
        ReadEvent::Interrupted => Ok(Fill::Reading { filled }),
        ReadEvent::Failed(error) => Err(StorageError::from(error)),
    }
}

proof fn lemma_delivered_first(events: Seq<ReadEvent>)
    requires
        events.len() > 0,
    ensures
        delivered(events) == delivered(events.skip(1)) + match events[0] {
            ReadEvent::Read(n) => n as int,
            _ => 0,
        },
        0 <= delivered(events.skip(1)),
    decreases events.len(),
{
    if events.len() > 1 {
        lemma_delivered_first(events.drop_last());
        assert(events.drop_last().skip(1) =~= events.skip(1).drop_last());
    } else {
        assert(events.drop_last() =~= Seq::<ReadEvent>::empty());
        assert(events.skip(1) =~= Seq::<ReadEvent>::empty());
    }
}

/// Short reads and interruptions do not matter: as long as no call fails or
/// meets the end, the buffer holds all that was delivered, and is full as soon
/// as that is enough.
pub proof fn law_short_reads_add_up(filled: usize, wanted: usize, events: Seq<ReadEvent>)
    requires
        forall|i: int|
            0 <= i < events.len() ==> match #[trigger] events[i] {
                ReadEvent::Read(n) => n > 0,
                ReadEvent::Interrupted => true,
                ReadEvent::Failed(_) => false,
            },
        filled <= wanted,
        filled + delivered(events) <= wanted,
    ensures
        fill_after_all(filled as int, wanted as int, events) == Ok::<Fill, StorageError>(
            filled_to(filled + delivered(events), wanted as int),
        ),
    decreases events.len(),
{
    if events.len() > 0 {
        lemma_delivered_first(events);
        if filled < wanted {
            let now: usize = match events[0] {
                ReadEvent::Read(n) => (filled + n) as usize,
                _ => filled,
            };
            law_short_reads_add_up(now, wanted, events.skip(1));
        }
    }
}

/// If the reader ends, the buffer is not full, and whether any byte was delivered
/// before tells a clean end from a torn one.
pub proof fn law_end_of_reader(wanted: usize, events: Seq<ReadEvent>, filled: usize)
    requires
        forall|i: int|
            0 <= i < events.len() ==> match #[trigger] events[i] {
                ReadEvent::Read(n) => n > 0,
                ReadEvent::Interrupted => true,
                ReadEvent::Failed(_) => false,
            },
        filled + delivered(events) < wanted,
    ensures
        fill_after_all(
            filled as int,
            wanted as int,
            events.push(ReadEvent::Read(0)),
        ) == Ok::<Fill, StorageError>(
            if filled + delivered(events) == 0 {
                Fill::CleanEof
            } else {
                Fill::Torn
            },
        ),
    decreases events.len(),
{
    let all = events.push(ReadEvent::Read(0));
    if events.len() > 0 {
        lemma_delivered_first(events);
        let now: usize = match events[0] {
            ReadEvent::Read(n) => (filled + n) as usize,
            _ => filled,
        };
        assert(all.skip(1) =~= events.skip(1).push(ReadEvent::Read(0)));
        law_end_of_reader(wanted, events.skip(1), now);
    } else {
        assert(all[0] == ReadEvent::Read(0));
    }
}

/// What one read call changes, in numbers: bytes add up until the buffer is full,
/// an end before the first byte is clean and a later one is not, an interruption
/// changes nothing, and a failure is passed on.
pub proof fn law_one_read_call(filled: usize, wanted: usize, n: usize, error: std::io::Error)
    requires
        filled < wanted,
        filled + n <= wanted,
    ensures
        0 < n && filled + n < wanted ==> fill_after(
            filled as int,
            wanted as int,
            ReadEvent::Read(n),
        ) == Ok::<Fill, StorageError>(Fill::Reading { filled: (filled + n) as usize }),
        filled + n == wanted ==> fill_after(filled as int, wanted as int, ReadEvent::Read(n)) == Ok::<
            Fill,
            StorageError,
        >(Fill::Full),
        filled == 0 ==> fill_after(filled as int, wanted as int, ReadEvent::Read(0)) == Ok::<
            Fill,
            StorageError,
        >(Fill::CleanEof),
        filled > 0 ==> fill_after(filled as int, wanted as int, ReadEvent::Read(0)) == Ok::<
            Fill,
            StorageError,
        >(Fill::Torn),
        fill_after(filled as int, wanted as int, ReadEvent::Interrupted) == Ok::<
            Fill,
            StorageError,
        >(Fill::Reading { filled }),
        fill_after(filled as int, wanted as int, ReadEvent::Failed(error)) == Err::<
            Fill,
            StorageError,
        >(StorageError::Io(error)),
        filled_to(0, wanted as int) == (Fill::Reading { filled: 0 }),
        filled_to(0, 0) is Full,
{
}

} // verus!
