//! The transition out of the firmware's care: which firmware call comes
//! next, given what the firmware answered to the last one.

use vstd::prelude::*;
use crate::error::LoadError;
use crate::handoff::{MemoryDescriptor, MemoryMap};

verus! {

/// Where the transition stands.
#[derive(Clone, Copy, Debug, PartialEq, Eq, Structural)]
pub enum Phase {
    /// The firmware's services are in use.
    FirmwareActive,
    /// The firmware has been asked to retire and has not answered.
    Transitioning,
    /// The firmware has retired. No service of it may be called again.
    FirmwareRetired,
    /// The transition has failed for good.
    Halted,
}

/// What to do next.
#[derive(Clone, Copy, Debug, PartialEq, Eq, Structural)]
pub enum Request {
    /// Ask the firmware how large a buffer the memory map needs now.
    QueryMapSize,
    /// Ask the firmware to retire and to leave the memory map in a buffer of
    /// at least this many bytes.
    ExitBootServices { buffer_size: usize },
    /// The firmware has retired: hand the memory map to the kernel.
    HandOver,
    /// Stop for good.
    Halt(LoadError),
}

/// Number of entries by which the buffer for the memory map exceeds the size
/// that the firmware reported: obtaining the buffer may itself add entries.
pub const SPARE_ENTRIES: usize = 8;

/// What the firmware answered.
#[derive(Debug)]
pub enum Reply {
    /// The memory map needs `map_size` bytes, `entry_size` for each entry.
    MapSize { map_size: usize, entry_size: usize },
    /// The firmware has retired and left this memory map.
    Captured(Vec<MemoryDescriptor>),
    /// The firmware did not retire: the memory map had changed since its size
    /// was asked for.
    Refused,
}

/// The transition as far as it has come.
#[derive(Debug)]
pub struct Transition {
    phase: Phase,
    refused: bool,
    memory_map: MemoryMap,
}

/// The phase after a reply. One refusal sends the transition back to asking
/// for the size; a second one, or a reply that answers no question asked,
/// ends it; after the firmware has retired nothing changes any more.
pub open spec fn next_phase(phase: Phase, refused: bool, reply: Reply) -> Phase {
    match phase {
        Phase::FirmwareActive => match reply {
            Reply::MapSize { .. } => Phase::Transitioning,
            _ => Phase::Halted,
        },
        Phase::Transitioning => match reply {
            Reply::Captured(_) => Phase::FirmwareRetired,
            Reply::Refused => if refused {
                Phase::Halted
            } else {
                Phase::FirmwareActive
            },
            Reply::MapSize { .. } => Phase::Halted,
        },
        Phase::FirmwareRetired => Phase::FirmwareRetired,
        Phase::Halted => Phase::Halted,
    }
}

/// Size of the buffer to obtain for a memory map of the reported size: room
/// for the map and for the spare entries, as far as a size can say it.
pub open spec fn buffer_for(map_size: usize, entry_size: usize) -> usize {
    if map_size + SPARE_ENTRIES * entry_size <= usize::MAX {
        (map_size + SPARE_ENTRIES * entry_size) as usize
    } else {
        usize::MAX
    }
}

/// The request that follows a reply.
pub open spec fn next_request(phase: Phase, refused: bool, reply: Reply) -> Request {
    match next_phase(phase, refused, reply) {
        Phase::FirmwareActive => Request::QueryMapSize,
        Phase::Transitioning => Request::ExitBootServices {
            buffer_size: buffer_for(reply->map_size, reply->entry_size),
        },
        Phase::FirmwareRetired => Request::HandOver,
        Phase::Halted => Request::Halt(LoadError::TransitionRaceFailure),
    }
}

/// Size of the buffer to obtain for a memory map of the reported size. It is
/// never smaller than the size reported.
pub fn buffer_size(map_size: usize, entry_size: usize) -> (size: usize)
    ensures
        size == buffer_for(map_size, entry_size),
        size >= map_size,
{
    let spare = match entry_size.checked_mul(SPARE_ENTRIES) {
        Some(spare) => spare,
        None => {
            assert(SPARE_ENTRIES * entry_size > usize::MAX) by (nonlinear_arith)
                requires
                    entry_size * SPARE_ENTRIES > usize::MAX,
            ;
            return usize::MAX;
        },
    };
    assert(spare == SPARE_ENTRIES * entry_size) by (nonlinear_arith)
        requires
            spare == entry_size * SPARE_ENTRIES,
    ;
    match map_size.checked_add(spare) {
        Some(size) => size,
        None => usize::MAX,
    }
}

impl Transition {
    /// Where the transition stands.
    pub closed spec fn phase(&self) -> Phase {
        self.phase
    }

    /// Whether the firmware has refused to retire once already.
    pub closed spec fn refused(&self) -> bool {
        self.refused
    }

    /// The memory map that the firmware left, once it has retired.
    pub closed spec fn snapshot(&self) -> Seq<MemoryDescriptor> {
        self.memory_map@
    }

    /// The start of the transition, and its first request: the firmware is
    /// active, it has refused nothing yet, no memory map has been captured,
    /// and the first thing to ask for is the size of the memory map.
    pub fn begin() -> (start: (Transition, Request))
        ensures
            start.0.phase() == Phase::FirmwareActive,
            !start.0.refused(),
            start.0.snapshot() == Seq::<MemoryDescriptor>::empty(),
            start.1 == Request::QueryMapSize,
    {
        (
            Transition {
                phase: Phase::FirmwareActive,
                refused: false,
                memory_map: MemoryMap { descriptors: Vec::new() },
            },
            Request::QueryMapSize,
        )
    }

    /// Takes the firmware's reply to the last request and says what to do next.
    pub fn advance(self, reply: Reply) -> (next: (Transition, Request))
        ensures
            next.0.phase() == next_phase(self.phase(), self.refused(), reply),
            next.1 == next_request(self.phase(), self.refused(), reply),
            next.0.refused() == (self.refused() || (self.phase() == Phase::Transitioning
                && reply is Refused)),
            next.0.snapshot() == (if self.phase() == Phase::Transitioning && reply is Captured {
                reply->Captured_0@
            } else {
                self.snapshot()
            }),
    {
        match self.phase {
            Phase::FirmwareActive => match reply {
                Reply::MapSize { map_size, entry_size } => (
                    Transition {
                        phase: Phase::Transitioning,
                        refused: self.refused,
                        memory_map: self.memory_map,
                    },
                    Request::ExitBootServices { buffer_size: buffer_size(map_size, entry_size) },
                ),
                _ => (
                    Transition {
                        phase: Phase::Halted,
                        refused: self.refused,
                        memory_map: self.memory_map,
                    },
                    Request::Halt(LoadError::TransitionRaceFailure),
                ),
            },
            Phase::Transitioning => match reply {
                Reply::Captured(descriptors) => (
                    Transition {
                        phase: Phase::FirmwareRetired,
                        refused: self.refused,
                        memory_map: MemoryMap { descriptors },
                    },
                    Request::HandOver,
                ),
                Reply::Refused => {
                    if self.refused {
                        (
                            Transition {
                                phase: Phase::Halted,
                                refused: true,
                                memory_map: self.memory_map,
                            },
                            Request::Halt(LoadError::TransitionRaceFailure),
                        )
                    } else {
                        (
                            Transition {
                                phase: Phase::FirmwareActive,
                                refused: true,
                                memory_map: self.memory_map,
                            },
                            Request::QueryMapSize,
                        )
                    }
                },
                Reply::MapSize { .. } => (
                    Transition {
                        phase: Phase::Halted,
                        refused: self.refused,
                        memory_map: self.memory_map,
                    },
                    Request::Halt(LoadError::TransitionRaceFailure),
                ),
            },
            Phase::FirmwareRetired => (self, Request::HandOver),
            Phase::Halted => (self, Request::Halt(LoadError::TransitionRaceFailure)),
        }
    }

    /// Where the transition stands.
    pub fn current_phase(&self) -> (phase: Phase)
        ensures
            phase == self.phase(),
    {
        self.phase
    }

    /// The memory map that the firmware left. There is one only once the
    /// firmware has retired.
    pub fn finalize(self) -> (result: Result<MemoryMap, LoadError>)
        ensures
            match result {
                Ok(memory_map) => self.phase() == Phase::FirmwareRetired && memory_map@
                    == self.snapshot(),
                Err(error) => self.phase() != Phase::FirmwareRetired && error
                    == LoadError::TransitionRaceFailure,
            },
    {
        match self.phase {
            Phase::FirmwareRetired => Ok(self.memory_map),
            _ => Err(LoadError::TransitionRaceFailure),
        }
    }
}

/// Once the firmware has retired, or the transition has failed, it stays so
/// whatever is answered, and no request goes to the firmware again.
pub proof fn lemma_no_call_after_the_end(phase: Phase, refused: bool, reply: Reply)
    requires
        phase == Phase::FirmwareRetired || phase == Phase::Halted,
    ensures
        next_phase(phase, refused, reply) == phase,
        next_request(phase, refused, reply) == (if phase == Phase::FirmwareRetired {
            Request::HandOver
        } else {
            Request::Halt(LoadError::TransitionRaceFailure)
        }),
{
}

/// Number of times the firmware is asked to retire while the replies are
/// taken one after the other, from the given phase on.
pub open spec fn exits_asked(phase: Phase, refused: bool, replies: Seq<Reply>) -> nat
    decreases replies.len(),
{
    if replies.len() == 0 {
        0
    } else {
        let asked: nat = if next_request(phase, refused, replies[0]) is ExitBootServices {
            1
        } else {
            0
        };
        asked + exits_asked(
            next_phase(phase, refused, replies[0]),
            refused || (phase == Phase::Transitioning && replies[0] is Refused),
            replies.skip(1),
        )
    }
}

/// Number of times the firmware may still be asked to retire.
pub open spec fn exits_left(phase: Phase, refused: bool) -> nat {
    match phase {
        Phase::FirmwareActive => if refused {
            1
        } else {
            2
        },
        Phase::Transitioning => if refused {
            0
        } else {
            1
        },
        Phase::FirmwareRetired => 0,
        Phase::Halted => 0,
    }
}

/// Whatever the firmware answers, it is asked to retire at most as often as
/// is left: twice from the start, and never again once it has retired or the
/// transition has failed.
pub proof fn lemma_retry_is_bounded(phase: Phase, refused: bool, replies: Seq<Reply>)
    ensures
        exits_asked(phase, refused, replies) <= exits_left(phase, refused),
        exits_asked(Phase::FirmwareActive, false, replies) <= 2,
    decreases replies.len(),
{
    if replies.len() > 0 {
        lemma_retry_is_bounded(
            next_phase(phase, refused, replies[0]),
            refused || (phase == Phase::Transitioning && replies[0] is Refused),
            replies.skip(1),
        );
        lemma_retry_is_bounded(
            next_phase(Phase::FirmwareActive, false, replies[0]),
            false,
            replies.skip(1),
        );
    }
}

} // verus!
