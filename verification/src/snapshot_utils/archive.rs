//! Makes an archive of a snapshot.

use vstd::prelude::*;

use super::compression_ext;
use super::get_compression_ext;
use super::CompressionType;

verus! {

/// The name that an archive has while it is being made.
pub fn new_archive_name(compression: &CompressionType) -> (name: String)
    ensures
        name@ == "new_state"@ + compression_ext(*compression),
{
    "new_state".to_owned().concat(get_compression_ext(compression))
}

/// What became of the program that puts files together, which exits with a status `S`.
#[derive(Debug)]
pub enum TarOutcome<S> {
    /// there is nowhere to read its output from
    NoOutput,
    Exited { success: bool, status: S },
}

/// Why there is no archive, `M` being what the failed work told, and `S` the status of a program
/// that failed.
#[derive(Debug)]
pub enum ArchiveError<M, S> {
    Failed(M),
    StoragePathSymlinkInvalid,
    TarOutputUnavailable,
    ArchiveGenerationFailure(S),
}

/// What is being waited for.
#[derive(Clone, Copy, Debug, PartialEq, Eq, Structural)]
pub enum ArchivePhase {
    Start,
    StatusCache,
    Staging,
    /// the link to this one of the storages
    LinkStorage(usize),
    Version,
    Archive,
    Move,
    Removal,
    Finished,
}

/// What happened outside.
pub enum ArchiveEvent<M, S> {
    Started,
    StatusCacheSerialized(Result<(), M>),
    Staged(Result<(), M>),
    /// whether the link to a storage leads to a file
    StorageLinked(Result<bool, M>),
    VersionWritten(Result<(), M>),
    /// the staged files were put together and compressed
    Archived(Result<TarOutcome<S>, M>),
    Moved(Result<(), M>),
    OldArchivesRemoved,
}

/// What to do outside.
pub enum ArchiveAction<M, S> {
    /// write the statuses next to the snapshot's files
    SerializeStatusCache,
    /// make a directory for staging, and link the snapshot's files in it
    Stage,
    /// write out a storage, and link it in the directory for staging
    LinkStorage(usize),
    WriteVersion,
    /// put what is staged together and compress it, under a name of its own
    Archive,
    /// move the archive into position for others to find
    Move,
    RemoveOldArchives,
    Done(Result<(), ArchiveError<M, S>>),
}

/// Makes an archive of a snapshot with a number of storages.
#[derive(Clone, Copy, Debug, PartialEq, Eq, Structural)]
pub struct ArchiveSnapshot {
    pub num_storages: usize,
    pub phase: ArchivePhase,
}

impl ArchiveSnapshot {
    pub open spec fn wf(self) -> bool {
        self.phase matches ArchivePhase::LinkStorage(index) ==> index < self.num_storages
    }

    /// An event can be the answer to what is being waited for.
    pub open spec fn expects<M, S>(self, event: ArchiveEvent<M, S>) -> bool {
        match event {
            ArchiveEvent::Started => self.phase is Start,
            ArchiveEvent::StatusCacheSerialized(_) => self.phase is StatusCache,
            ArchiveEvent::Staged(_) => self.phase is Staging,
            ArchiveEvent::StorageLinked(_) => self.phase is LinkStorage,
            ArchiveEvent::VersionWritten(_) => self.phase is Version,
            ArchiveEvent::Archived(_) => self.phase is Archive,
            ArchiveEvent::Moved(_) => self.phase is Move,
            ArchiveEvent::OldArchivesRemoved => self.phase is Removal,
        }
    }

    pub open spec fn to<M, S>(self, phase: ArchivePhase, action: ArchiveAction<M, S>) -> (
        ArchiveSnapshot,
        ArchiveAction<M, S>,
    ) {
        (ArchiveSnapshot { phase, ..self }, action)
    }

    pub open spec fn fail<M, S>(self, err: ArchiveError<M, S>) -> (ArchiveSnapshot, ArchiveAction<M, S>) {
        self.to(ArchivePhase::Finished, ArchiveAction::Done(Err(err)))
    }

    /// The storages from one on are linked, and then the version is written.
    pub open spec fn link<M, S>(self, index: int) -> (ArchiveSnapshot, ArchiveAction<M, S>) {
        if index < self.num_storages {
            self.to(
                ArchivePhase::LinkStorage(index as usize),
                ArchiveAction::LinkStorage(index as usize),
            )
        } else {
            self.to(ArchivePhase::Version, ArchiveAction::WriteVersion)
        }
    }

    /// What follows an event.
    pub open spec fn next<M, S>(self, event: ArchiveEvent<M, S>) -> (ArchiveSnapshot, ArchiveAction<M, S>) {
        match event {
            ArchiveEvent::Started => self.to(
                ArchivePhase::StatusCache,
                ArchiveAction::SerializeStatusCache,
            ),
            ArchiveEvent::StatusCacheSerialized(Ok(())) => self.to(
                ArchivePhase::Staging,
                ArchiveAction::Stage,
            ),
            ArchiveEvent::Staged(Ok(())) => self.link(0),
            ArchiveEvent::StorageLinked(Ok(is_file)) => if !is_file {
                self.fail(ArchiveError::StoragePathSymlinkInvalid)
            } else {
                match self.phase {
                    ArchivePhase::LinkStorage(index) => self.link(index + 1),
                    _ => self.link(0),
                }
            },
            ArchiveEvent::VersionWritten(Ok(())) => self.to(
                ArchivePhase::Archive,
                ArchiveAction::Archive,
            ),
            ArchiveEvent::Archived(Ok(outcome)) => match outcome {
                TarOutcome::NoOutput => self.fail(ArchiveError::TarOutputUnavailable),
                TarOutcome::Exited { success, status } => if success {
                    self.to(ArchivePhase::Move, ArchiveAction::Move)
                } else {
                    self.fail(ArchiveError::ArchiveGenerationFailure(status))
                },
            },
            ArchiveEvent::Moved(Ok(())) => self.to(
                ArchivePhase::Removal,
                ArchiveAction::RemoveOldArchives,
            ),
            ArchiveEvent::OldArchivesRemoved => self.to(
                ArchivePhase::Finished,
                ArchiveAction::Done(Ok(())),
            ),
            ArchiveEvent::StatusCacheSerialized(Err(reason))
            | ArchiveEvent::Staged(Err(reason))
            | ArchiveEvent::VersionWritten(Err(reason))
            | ArchiveEvent::Moved(Err(reason)) => self.fail(ArchiveError::Failed(reason)),
            ArchiveEvent::StorageLinked(Err(reason)) => self.fail(ArchiveError::Failed(reason)),
            ArchiveEvent::Archived(Err(reason)) => self.fail(ArchiveError::Failed(reason)),
        }
    }

    pub fn new(num_storages: usize) -> (archive: Self)
        ensures
            archive.wf(),
            archive == (ArchiveSnapshot { num_storages, phase: ArchivePhase::Start }),
    {
        ArchiveSnapshot { num_storages, phase: ArchivePhase::Start }
    }

    fn go<M, S>(&mut self, phase: ArchivePhase, action: ArchiveAction<M, S>) -> (taken: ArchiveAction<M, S>)
        ensures
            (*final(self), taken) == old(self).to(phase, action),
    {
        self.phase = phase;
        action
    }

    fn done<M, S>(&mut self, err: ArchiveError<M, S>) -> (action: ArchiveAction<M, S>)
        ensures
            (*final(self), action) == old(self).fail(err),
    {
        self.phase = ArchivePhase::Finished;
        ArchiveAction::Done(Err(err))
    }

    fn link_storage<M, S>(&mut self, index: usize) -> (action: ArchiveAction<M, S>)
        ensures
            (*final(self), action) == old(self).link::<M, S>(index as int),
    {
        if index < self.num_storages {
            self.go(ArchivePhase::LinkStorage(index), ArchiveAction::LinkStorage(index))
        } else {
            self.go(ArchivePhase::Version, ArchiveAction::WriteVersion)
        }
    }

    /// Takes in what happened outside and says what to do next.
    pub fn step<M, S>(&mut self, event: ArchiveEvent<M, S>) -> (action: ArchiveAction<M, S>)
        requires
            old(self).wf(),
            old(self).expects(event),
        ensures
            final(self).wf(),
            (*final(self), action) == old(self).next(event),
    {
        match event {
            ArchiveEvent::Started => {
                self.go(ArchivePhase::StatusCache, ArchiveAction::SerializeStatusCache)
            },
            ArchiveEvent::StatusCacheSerialized(Ok(())) => {
                self.go(ArchivePhase::Staging, ArchiveAction::Stage)
            },
            ArchiveEvent::Staged(Ok(())) => self.link_storage(0),
            ArchiveEvent::StorageLinked(Ok(is_file)) => {
                if !is_file {
                    return self.done(ArchiveError::StoragePathSymlinkInvalid);
                }
                match self.phase {
                    ArchivePhase::LinkStorage(index) => self.link_storage(index + 1),
                    _ => self.link_storage(0),
                }
            },
            ArchiveEvent::VersionWritten(Ok(())) => {
                self.go(ArchivePhase::Archive, ArchiveAction::Archive)
            },
            ArchiveEvent::Archived(Ok(outcome)) => match outcome {
                TarOutcome::NoOutput => self.done(ArchiveError::TarOutputUnavailable),
                TarOutcome::Exited { success, status } => {
                    if success {
                        self.go(ArchivePhase::Move, ArchiveAction::Move)
                    } else {
                        self.done(ArchiveError::ArchiveGenerationFailure(status))
                    }
                },
            },
            ArchiveEvent::Moved(Ok(())) => {
                self.go(ArchivePhase::Removal, ArchiveAction::RemoveOldArchives)
            },
            ArchiveEvent::OldArchivesRemoved => {
                self.go(ArchivePhase::Finished, ArchiveAction::Done(Ok(())))
            },
            ArchiveEvent::StatusCacheSerialized(Err(reason)) => {
                self.done(ArchiveError::Failed(reason))
            },
            ArchiveEvent::Staged(Err(reason)) => self.done(ArchiveError::Failed(reason)),
            ArchiveEvent::StorageLinked(Err(reason)) => self.done(ArchiveError::Failed(reason)),
            ArchiveEvent::VersionWritten(Err(reason)) => self.done(ArchiveError::Failed(reason)),
            ArchiveEvent::Archived(Err(reason)) => self.done(ArchiveError::Failed(reason)),
            ArchiveEvent::Moved(Err(reason)) => self.done(ArchiveError::Failed(reason)),
        }
    }
}

/// An archive is moved into position only where it was made in full, and old archives are
/// removed only where the new one is in position.
pub proof fn law_only_full_archives_are_moved<M, S>(archive: ArchiveSnapshot, event: ArchiveEvent<M, S>)
    requires
        archive.wf(),
        archive.expects(event),
    ensures
        archive.next(event).0.wf(),
        archive.next(event).1 is Move <==> (event matches ArchiveEvent::Archived(
            Ok(TarOutcome::Exited { success, .. }),
        ) && success),
        archive.next(event).1 is RemoveOldArchives <==> (event matches ArchiveEvent::Moved(Ok(_))),
        (archive.next(event).1 matches ArchiveAction::Done(Ok(_))) <==> event is OldArchivesRemoved,
{
}

/// The version is written only once every storage is linked: the storages are linked one after
/// the other, from the first to the last.
pub proof fn law_all_storages_are_linked<M, S>(archive: ArchiveSnapshot, event: ArchiveEvent<M, S>)
    requires
        archive.wf(),
        archive.expects(event),
    ensures
        archive.next(event).1 is WriteVersion ==> {
            ||| archive.num_storages == 0
            ||| archive.phase == ArchivePhase::LinkStorage((archive.num_storages - 1) as usize)
        },
        archive.next(event).1 matches ArchiveAction::LinkStorage(index) ==> {
            ||| index == 0 && archive.phase is Staging
            ||| archive.phase == ArchivePhase::LinkStorage((index - 1) as usize)
        },
{
}

/// A bound on the number of steps that are left.
pub open spec fn steps_left(archive: ArchiveSnapshot) -> nat {
    match archive.phase {
        ArchivePhase::Start => archive.num_storages as nat + 7,
        ArchivePhase::StatusCache => archive.num_storages as nat + 6,
        ArchivePhase::Staging => archive.num_storages as nat + 5,
        ArchivePhase::LinkStorage(index) => (archive.num_storages - index + 4) as nat,
        ArchivePhase::Version => 4,
        ArchivePhase::Archive => 3,
        ArchivePhase::Move => 2,
        ArchivePhase::Removal => 1,
        ArchivePhase::Finished => 0,
    }
}

/// Whatever happens outside, making an archive ends: every step brings it closer to the end.
pub proof fn law_archiving_ends<M, S>(archive: ArchiveSnapshot, event: ArchiveEvent<M, S>)
    requires
        archive.wf(),
        archive.expects(event),
    ensures
        steps_left(archive.next(event).0) < steps_left(archive),
{
}

/// What each event leads to. The statuses are written first, then the snapshot's files are
/// staged, then each storage is linked in turn, then the version is written, and then all of it
/// is put together.
pub proof fn law_archiving_goes_on<M, S>(archive: ArchiveSnapshot, event: ArchiveEvent<M, S>)
    requires
        archive.wf(),
        archive.expects(event),
    ensures
        ({
            let (after, action) = archive.next(event);
            let linked = event matches ArchiveEvent::StorageLinked(Ok(is_file)) && is_file;
            let links = if event is Staged {
                0
            } else {
                archive.phase->LinkStorage_0 + 1
            };
            let staged = (event matches ArchiveEvent::Staged(Ok(_))) || linked;
            &&& after.num_storages == archive.num_storages
            &&& action is SerializeStatusCache <==> event is Started
            &&& action is SerializeStatusCache ==> after.phase is StatusCache
            &&& action is Stage <==> (event matches ArchiveEvent::StatusCacheSerialized(Ok(_)))
            &&& action is Stage ==> after.phase is Staging
            &&& action is LinkStorage <==> staged && links < archive.num_storages
            &&& action matches ArchiveAction::LinkStorage(index) ==> index == links && after.phase
                == ArchivePhase::LinkStorage(index)
            &&& action is WriteVersion <==> staged && links >= archive.num_storages
            &&& action is WriteVersion ==> after.phase is Version
            &&& action is Archive <==> (event matches ArchiveEvent::VersionWritten(Ok(_)))
            &&& action is Archive ==> after.phase is Archive
            &&& action is Move ==> after.phase is Move
            &&& action is RemoveOldArchives ==> after.phase is Removal
            &&& action is Done ==> after.phase is Finished
        }),
{
}

/// Why there is no archive: some work failed, a link leads to no file, or the program that puts
/// the files together had no output or did not succeed.
pub proof fn law_archiving_fails<M, S>(archive: ArchiveSnapshot, event: ArchiveEvent<M, S>)
    requires
        archive.wf(),
        archive.expects(event),
    ensures
        ({
            let action = archive.next(event).1;
            let told = match event {
                ArchiveEvent::StatusCacheSerialized(Err(reason)) => Some(reason),
                ArchiveEvent::Staged(Err(reason)) => Some(reason),
                ArchiveEvent::StorageLinked(Err(reason)) => Some(reason),
                ArchiveEvent::VersionWritten(Err(reason)) => Some(reason),
                ArchiveEvent::Archived(Err(reason)) => Some(reason),
                ArchiveEvent::Moved(Err(reason)) => Some(reason),
                _ => None,
            };
            &&& told matches Some(reason) ==> action == ArchiveAction::<M, S>::Done(
                Err(ArchiveError::Failed(reason)),
            )
            &&& (event matches ArchiveEvent::StorageLinked(Ok(is_file)) && !is_file) ==> action
                == ArchiveAction::<M, S>::Done(Err(ArchiveError::StoragePathSymlinkInvalid))
            &&& event matches ArchiveEvent::Archived(Ok(TarOutcome::NoOutput)) ==> action
                == ArchiveAction::<M, S>::Done(Err(ArchiveError::TarOutputUnavailable))
            &&& event matches ArchiveEvent::Archived(Ok(TarOutcome::Exited { success, status }))
                ==> success || action == ArchiveAction::<M, S>::Done(
                Err(ArchiveError::ArchiveGenerationFailure(status)),
            )
            &&& action matches ArchiveAction::Done(Err(err)) ==> match err {
                ArchiveError::Failed(reason) => told == Some(reason),
                ArchiveError::StoragePathSymlinkInvalid => event is StorageLinked,
                _ => event is Archived,
            }
        }),
{
}

/// After each action its answer is waited for, whatever it is, and nothing else; and after the
/// end nothing is.
pub proof fn law_archiving_waits_for_the_answer<M, S>(
    archive: ArchiveSnapshot,
    event: ArchiveEvent<M, S>,
    answer: ArchiveEvent<M, S>,
)
    requires
        archive.wf(),
        archive.expects(event),
    ensures
        archive.next(event).0.expects(answer) <==> match archive.next(event).1 {
            ArchiveAction::SerializeStatusCache => answer is StatusCacheSerialized,
            ArchiveAction::Stage => answer is Staged,
            ArchiveAction::LinkStorage(_) => answer is StorageLinked,
            ArchiveAction::WriteVersion => answer is VersionWritten,
            ArchiveAction::Archive => answer is Archived,
            ArchiveAction::Move => answer is Moved,
            ArchiveAction::RemoveOldArchives => answer is OldArchivesRemoved,
            ArchiveAction::Done(_) => false,
        },
{
}

} // verus!
