//! The course of an opening: what comes after what, and what a store that is
//! only read leaves out.

use vstd::prelude::*;

verus! {

/// What a store is opened for.
#[derive(Clone, Copy, Debug, PartialEq, Eq, Structural)]
pub struct OpenRequest {
    /// Reading and writing, not reading alone.
    pub writable: bool,
    /// A stored platform profile has to agree.
    pub has_profile: bool,
}

/// What an opening does next.
#[derive(Clone, Copy, Debug, PartialEq, Eq, Structural)]
pub enum OpenPhase {
    /// Looks for payloads that share a kind.
    ValidateRegistry,
    /// Makes the directory.
    CreateDirectory,
    /// Resolves the directory's name.
    Canonicalize,
    /// Checks the configuration.
    ValidateConfig,
    /// Locks the directory.
    AcquireLock,
    /// Holds the platform against the stored profile.
    VerifyProfile,
    /// Builds the index from the files.
    RebuildIndex,
    /// Finds the number of the active segment.
    FindActiveSegment,
    /// Finds the clock point to open at.
    Bootstrap,
    /// Starts the writer.
    SpawnWriter,
    /// Appends the open event.
    AppendOpened,
    /// Flushes it.
    SyncOpened,
    /// Nothing more: the store is open.
    Opened,
    /// Nothing more: the caller is told why.
    Failed,
}

/// What comes after a phase that went well or not.
pub open spec fn after_open_phase(request: OpenRequest, phase: OpenPhase, ok: bool) -> OpenPhase {
    match phase {
        OpenPhase::Opened => OpenPhase::Opened,
        _ => if !ok {
            OpenPhase::Failed
        } else {
            match phase {
                OpenPhase::ValidateRegistry => OpenPhase::CreateDirectory,
                OpenPhase::CreateDirectory => OpenPhase::Canonicalize,
                OpenPhase::Canonicalize => OpenPhase::ValidateConfig,
                OpenPhase::ValidateConfig => OpenPhase::AcquireLock,
                OpenPhase::AcquireLock => if request.has_profile {
                    OpenPhase::VerifyProfile
                } else {
                    OpenPhase::RebuildIndex
                },
                OpenPhase::VerifyProfile => OpenPhase::RebuildIndex,
                OpenPhase::RebuildIndex => OpenPhase::FindActiveSegment,
                OpenPhase::FindActiveSegment => OpenPhase::Bootstrap,
                OpenPhase::Bootstrap => if request.writable {
                    OpenPhase::SpawnWriter
                } else {
                    OpenPhase::Opened
                },
                OpenPhase::SpawnWriter => OpenPhase::AppendOpened,
                OpenPhase::AppendOpened => OpenPhase::SyncOpened,
                OpenPhase::SyncOpened => OpenPhase::Opened,
                _ => OpenPhase::Failed,
            }
        },
    }
}

/// What comes after a phase: the first failure ends the opening.
pub fn next_open_phase(request: OpenRequest, phase: OpenPhase, ok: bool) -> (r: OpenPhase)
    ensures
        r == after_open_phase(request, phase, ok),
{
    if phase == OpenPhase::Opened {
        return OpenPhase::Opened;
    }
    if !ok {
        return OpenPhase::Failed;
    }
    match phase {
        OpenPhase::ValidateRegistry => OpenPhase::CreateDirectory,
        OpenPhase::CreateDirectory => OpenPhase::Canonicalize,
        OpenPhase::Canonicalize => OpenPhase::ValidateConfig,
        OpenPhase::ValidateConfig => OpenPhase::AcquireLock,
        OpenPhase::AcquireLock => if request.has_profile {
            OpenPhase::VerifyProfile
        } else {
            OpenPhase::RebuildIndex
        },
        OpenPhase::VerifyProfile => OpenPhase::RebuildIndex,
        OpenPhase::RebuildIndex => OpenPhase::FindActiveSegment,
        OpenPhase::FindActiveSegment => OpenPhase::Bootstrap,
        OpenPhase::Bootstrap => if request.writable {
            OpenPhase::SpawnWriter
        } else {
            OpenPhase::Opened
        },
        OpenPhase::SpawnWriter => OpenPhase::AppendOpened,
        OpenPhase::AppendOpened => OpenPhase::SyncOpened,
        OpenPhase::SyncOpened => OpenPhase::Opened,
        OpenPhase::Opened => OpenPhase::Opened,
        OpenPhase::Failed => OpenPhase::Failed,
    }
}

/// Where an opening stands after phases that went well or not.
pub open spec fn open_stands_at(request: OpenRequest, went: Seq<bool>) -> OpenPhase
    decreases went.len(),
{
    if went.len() == 0 {
        OpenPhase::ValidateRegistry
    } else {
        after_open_phase(request, open_stands_at(request, went.drop_last()), went.last())
    }
}

/// How many phases come before one.
pub open spec fn open_place(request: OpenRequest, phase: OpenPhase) -> int {
    let verified: int = if request.has_profile {
        1
    } else {
        0
    };
    match phase {
        OpenPhase::ValidateRegistry => 0,
        OpenPhase::CreateDirectory => 1,
        OpenPhase::Canonicalize => 2,
        OpenPhase::ValidateConfig => 3,
        OpenPhase::AcquireLock => 4,
        OpenPhase::VerifyProfile => 5,
        OpenPhase::RebuildIndex => 5 + verified,
        OpenPhase::FindActiveSegment => 6 + verified,
        OpenPhase::Bootstrap => 7 + verified,
        OpenPhase::SpawnWriter => 8 + verified,
        OpenPhase::AppendOpened => 9 + verified,
        OpenPhase::SyncOpened => 10 + verified,
        OpenPhase::Opened => if request.writable {
            11 + verified
        } else {
            8 + verified
        },
        OpenPhase::Failed => -1,
    }
}

/// What only some openings do is done by them alone: a profile is looked at
/// where one has to agree, and a writer is started and an event appended where
/// the store is opened for writing.
pub proof fn law_reading_writes_nothing(request: OpenRequest, went: Seq<bool>)
    ensures
        open_stands_at(request, went) is VerifyProfile ==> request.has_profile,
        open_stands_at(request, went) is SpawnWriter || open_stands_at(
            request,
            went,
        ) is AppendOpened || open_stands_at(request, went) is SyncOpened ==> request.writable,
    decreases went.len(),
{
    if went.len() > 0 {
        law_reading_writes_nothing(request, went.drop_last());
    }
}

/// An opening that is under way stands where as many phases come before as it
/// went through, and every one of them went well. So files are read only under
/// the lock and on a platform that agrees with the stored profile, and a writer
/// is started only where the clock point to open at is in order.
pub proof fn law_open_is_straight(request: OpenRequest, went: Seq<bool>)
    requires
        !(open_stands_at(request, went) is Failed),
        !(open_stands_at(request, went) is Opened),
    ensures
        open_place(request, open_stands_at(request, went)) == went.len(),
        forall|i: int| 0 <= i < went.len() ==> #[trigger] went[i],
    decreases went.len(),
{
    if went.len() > 0 {
        let front = went.drop_last();
        law_open_is_straight(request, front);
        law_reading_writes_nothing(request, front);
        assert forall|i: int| 0 <= i < went.len() implies #[trigger] went[i] by {
            if i < front.len() {
                assert(front[i]);
            }
        }
    }
}

/// A store that is open went through every phase of its opening, and each went
/// well.
pub proof fn law_opened_means_all_went_well(request: OpenRequest, went: Seq<bool>)
    requires
        open_stands_at(request, went) is Opened,
    ensures
        went.len() >= open_place(request, OpenPhase::Opened),
        forall|i: int| 0 <= i < open_place(request, OpenPhase::Opened) ==> #[trigger] went[i],
    decreases went.len(),
{
    let front = went.drop_last();
    if open_stands_at(request, front) is Opened {
        law_opened_means_all_went_well(request, front);
    } else {
        law_open_is_straight(request, front);
        law_reading_writes_nothing(request, front);
    }
    assert forall|i: int| 0 <= i < open_place(request, OpenPhase::Opened) implies #[trigger] went[i] by {
        if i < front.len() {
            assert(front[i]);
        }
    }
}

/// An opening goes through its phases in this order, as long as each goes well: a
/// profile is held against the platform where there is one, and a store that is
/// only read starts no writer. The first phase that does not go well is the last,
/// and what is over stays over.
pub proof fn law_open_follows_its_list(
    request: OpenRequest,
    phases: Seq<OpenPhase>,
    i: int,
    ok: bool,
    next: OpenPhase,
)
    requires
        phases == seq![
            OpenPhase::ValidateRegistry,
            OpenPhase::CreateDirectory,
            OpenPhase::Canonicalize,
            OpenPhase::ValidateConfig,
            OpenPhase::AcquireLock,
        ] + (if request.has_profile {
            seq![OpenPhase::VerifyProfile]
        } else {
            seq![]
        }) + seq![OpenPhase::RebuildIndex, OpenPhase::FindActiveSegment, OpenPhase::Bootstrap] + (
        if request.writable {
            seq![OpenPhase::SpawnWriter, OpenPhase::AppendOpened, OpenPhase::SyncOpened]
        } else {
            seq![]
        }) + seq![OpenPhase::Opened],
        0 <= i < phases.len(),
        call_ensures(next_open_phase, (request, phases[i], ok), next),
    ensures
        i + 1 < phases.len() && ok ==> next == phases[i + 1],
        i + 1 < phases.len() && !ok ==> next is Failed,
        i + 1 == phases.len() ==> next is Opened,
{
}

/// An opening that failed has failed for good.
pub proof fn law_failed_open_stays_failed(request: OpenRequest, ok: bool, next: OpenPhase)
    requires
        call_ensures(next_open_phase, (request, OpenPhase::Failed, ok), next),
    ensures
        next is Failed,
{
}

} // verus!
