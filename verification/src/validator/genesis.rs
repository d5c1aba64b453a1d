//! Gets the genesis of a cluster into the ledger, and checks it.

use vstd::prelude::*;

use super::rpc_bootstrap::check_genesis_hash;
use super::rpc_bootstrap::GenesisHashMismatch;

verus! {

/// Why there is no genesis to go by, `M` being what the failed work told.
#[derive(Debug)]
pub enum GenesisError<M> {
    UnpackFailed(M),
    LoadDownloadedFailed(M),
    LoadLocalFailed(M),
    Mismatch(GenesisHashMismatch),
    RenameFailed(M),
}

impl GenesisError<String> {
    pub open spec fn spec_message(self) -> Seq<char> {
        match self {
            GenesisError::UnpackFailed(reason) => "Failed to unpack downloaded genesis config: "@
                + reason@,
            GenesisError::LoadDownloadedFailed(reason) =>
                "Failed to load downloaded genesis config: "@ + reason@,
            GenesisError::LoadLocalFailed(reason) => "Failed to load genesis config: "@ + reason@,
            GenesisError::Mismatch(mismatch) => mismatch.spec_message("downloaded"@),
            GenesisError::RenameFailed(reason) => "Unable to rename: "@ + reason@,
        }
    }

    /// The error in words.
    pub fn message(&self) -> (message: String)
        ensures
            message@ == self.spec_message(),
    {
        match self {
            GenesisError::UnpackFailed(reason) => {
                "Failed to unpack downloaded genesis config: ".to_owned().concat(reason.as_str())
            },
            GenesisError::LoadDownloadedFailed(reason) => {
                "Failed to load downloaded genesis config: ".to_owned().concat(reason.as_str())
            },
            GenesisError::LoadLocalFailed(reason) => {
                "Failed to load genesis config: ".to_owned().concat(reason.as_str())
            },
            GenesisError::Mismatch(mismatch) => mismatch.message("downloaded"),
            GenesisError::RenameFailed(reason) => {
                "Unable to rename: ".to_owned().concat(reason.as_str())
            },
        }
    }
}

/// What is being waited for.
#[derive(Clone, Copy, Debug)]
pub enum GenesisPhase {
    Start,
    Download,
    Unpack,
    LoadDownloaded,
    /// the downloaded package, whose genesis has this hash, to be put in its place
    Rename(crate::hash::Hash),
    LoadLocal,
    Finished,
}

/// What happened outside.
pub enum GenesisEvent<M> {
    Started,
    /// whether a package was downloaded; it is not where there is one already
    Downloaded(bool),
    Unpacked(Result<(), M>),
    /// the hash of the genesis in the ledger
    Loaded(Result<crate::hash::Hash, M>),
    Renamed(Result<(), M>),
}

/// What to do outside.
pub enum GenesisAction<M> {
    /// download the package of the genesis, unless it is there
    Download,
    /// unpack what was downloaded into the ledger
    Unpack,
    /// load the genesis from the ledger
    Load,
    /// put the downloaded package in its place
    Rename,
    /// the hash of the genesis, or why there is none
    Done(Result<crate::hash::Hash, GenesisError<M>>),
}

/// Whether a hash is the expected one, where there is one.
pub open spec fn is_expected(
    hash: crate::hash::Hash,
    expected: Option<crate::hash::Hash>,
) -> bool {
    expected matches Some(expected) ==> hash == expected
}

/// Gets the genesis of a cluster into the ledger, and checks it.
#[derive(Clone, Copy, Debug)]
pub struct GenesisFetch {
    pub no_genesis_fetch: bool,
    pub expected_genesis_hash: Option<crate::hash::Hash>,
    pub phase: GenesisPhase,
}

impl GenesisFetch {
    /// Only a package with the expected genesis is put in its place.
    pub open spec fn wf(self) -> bool {
        self.phase matches GenesisPhase::Rename(hash) ==> is_expected(
            hash,
            self.expected_genesis_hash,
        )
    }

    /// An event can be the answer to what is being waited for.
    pub open spec fn expects<M>(self, event: GenesisEvent<M>) -> bool {
        match event {
            GenesisEvent::Started => self.phase is Start,
            GenesisEvent::Downloaded(_) => self.phase is Download,
            GenesisEvent::Unpacked(_) => self.phase is Unpack,
            GenesisEvent::Loaded(_) => self.phase is LoadDownloaded || self.phase is LoadLocal,
            GenesisEvent::Renamed(_) => self.phase is Rename,
        }
    }

    pub open spec fn to<M>(self, phase: GenesisPhase, action: GenesisAction<M>) -> (
        GenesisFetch,
        GenesisAction<M>,
    ) {
        (GenesisFetch { phase, ..self }, action)
    }

    pub open spec fn fail<M>(self, err: GenesisError<M>) -> (GenesisFetch, GenesisAction<M>) {
        self.to(GenesisPhase::Finished, GenesisAction::Done(Err(err)))
    }

    /// A genesis was loaded from the ledger. A local one is done with once it is checked.
    pub open spec fn loaded<M>(self, hash: crate::hash::Hash) -> (GenesisFetch, GenesisAction<M>) {
        if !is_expected(hash, self.expected_genesis_hash) {
            self.fail(
                GenesisError::Mismatch(
                    GenesisHashMismatch {
                        expected: self.expected_genesis_hash->Some_0,
                        actual: hash,
                    },
                ),
            )
        } else if self.phase is LoadDownloaded {
            self.to(GenesisPhase::Rename(hash), GenesisAction::Rename)
        } else {
            self.to(GenesisPhase::Finished, GenesisAction::Done(Ok(hash)))
        }
    }

    /// What follows an event.
    pub open spec fn next<M>(self, event: GenesisEvent<M>) -> (GenesisFetch, GenesisAction<M>) {
        match (self.phase, event) {
            (_, GenesisEvent::Started) => if self.no_genesis_fetch {
                self.to(GenesisPhase::LoadLocal, GenesisAction::Load)
            } else {
                self.to(GenesisPhase::Download, GenesisAction::Download)
            },
            (_, GenesisEvent::Downloaded(downloaded)) => if downloaded {
                self.to(GenesisPhase::Unpack, GenesisAction::Unpack)
            } else {
                self.to(GenesisPhase::LoadLocal, GenesisAction::Load)
            },
            (_, GenesisEvent::Unpacked(Ok(()))) => self.to(
                GenesisPhase::LoadDownloaded,
                GenesisAction::Load,
            ),
            (_, GenesisEvent::Unpacked(Err(reason))) => self.fail(
                GenesisError::UnpackFailed(reason),
            ),
            (_, GenesisEvent::Loaded(Ok(hash))) => self.loaded(hash),
            (GenesisPhase::LoadDownloaded, GenesisEvent::Loaded(Err(reason))) => self.fail(
                GenesisError::LoadDownloadedFailed(reason),
            ),
            (_, GenesisEvent::Loaded(Err(reason))) => self.fail(
                GenesisError::LoadLocalFailed(reason),
            ),
            (GenesisPhase::Rename(hash), GenesisEvent::Renamed(Ok(()))) => self.to(
                GenesisPhase::Finished,
                GenesisAction::Done(Ok(hash)),
            ),
            (_, GenesisEvent::Renamed(Err(reason))) => self.fail(
                GenesisError::RenameFailed(reason),
            ),
            // not waited for
            (_, GenesisEvent::Renamed(Ok(()))) => (self, GenesisAction::Rename),
        }
    }

    pub fn new(
        no_genesis_fetch: bool,
        expected_genesis_hash: Option<crate::hash::Hash>,
    ) -> (fetch: Self)
        ensures
            fetch.wf(),
            fetch == (GenesisFetch {
                no_genesis_fetch,
                expected_genesis_hash,
                phase: GenesisPhase::Start,
            }),
    {
        GenesisFetch { no_genesis_fetch, expected_genesis_hash, phase: GenesisPhase::Start }
    }

    fn load<M>(&mut self, phase: GenesisPhase) -> (action: GenesisAction<M>)
        ensures
            (*final(self), action) == old(self).to::<M>(phase, GenesisAction::Load),
    {
        self.phase = phase;
        GenesisAction::Load
    }

    fn done<M>(&mut self, result: Result<crate::hash::Hash, GenesisError<M>>) -> (action:
        GenesisAction<M>)
        ensures
            (*final(self), action) == old(self).to(
                GenesisPhase::Finished,
                GenesisAction::Done(result),
            ),
    {
        self.phase = GenesisPhase::Finished;
        GenesisAction::Done(result)
    }

    /// Takes in what happened outside and says what to do next.
    pub fn step<M>(&mut self, event: GenesisEvent<M>) -> (action: GenesisAction<M>)
        requires
            old(self).wf(),
            old(self).expects(event),
        ensures
            final(self).wf(),
            (*final(self), action) == old(self).next(event),
    {
        match (self.phase, event) {
            (_, GenesisEvent::Started) => {
                if self.no_genesis_fetch {
                    self.load(GenesisPhase::LoadLocal)
                } else {
                    self.phase = GenesisPhase::Download;
                    GenesisAction::Download
                }
            },
            (_, GenesisEvent::Downloaded(downloaded)) => {
                if downloaded {
                    self.phase = GenesisPhase::Unpack;
                    GenesisAction::Unpack
                } else {
                    self.load(GenesisPhase::LoadLocal)
                }
            },
            (_, GenesisEvent::Unpacked(Ok(()))) => self.load(GenesisPhase::LoadDownloaded),
            (_, GenesisEvent::Unpacked(Err(reason))) => {
                self.done(Err(GenesisError::UnpackFailed(reason)))
            },
            (phase, GenesisEvent::Loaded(Ok(hash))) => {
                match check_genesis_hash(hash, self.expected_genesis_hash) {
                    Err(mismatch) => self.done(Err(GenesisError::Mismatch(mismatch))),
                    Ok(()) => match phase {
                        GenesisPhase::LoadDownloaded => {
                            self.phase = GenesisPhase::Rename(hash);
                            GenesisAction::Rename
                        },
                        _ => self.done(Ok(hash)),
                    },
                }
            },
            (GenesisPhase::LoadDownloaded, GenesisEvent::Loaded(Err(reason))) => {
                self.done(Err(GenesisError::LoadDownloadedFailed(reason)))
            },
            (_, GenesisEvent::Loaded(Err(reason))) => {
                self.done(Err(GenesisError::LoadLocalFailed(reason)))
            },
            (_, GenesisEvent::Renamed(Err(reason))) => {
                self.done(Err(GenesisError::RenameFailed(reason)))
            },
            (GenesisPhase::Rename(hash), GenesisEvent::Renamed(Ok(()))) => self.done(Ok(hash)),
            (_, GenesisEvent::Renamed(Ok(()))) => GenesisAction::Rename,
        }
    }
}

/// A genesis that is gone by has the expected hash, where there is one.
pub proof fn law_genesis_is_expected<M>(fetch: GenesisFetch, event: GenesisEvent<M>)
    requires
        fetch.wf(),
        fetch.expects(event),
    ensures
        fetch.next(event).0.wf(),
        fetch.next(event).0.expected_genesis_hash == fetch.expected_genesis_hash,
        fetch.next(event).1 matches GenesisAction::Done(Ok(hash)) ==> is_expected(
            hash,
            fetch.expected_genesis_hash,
        ),
{
}

/// Without fetching, nothing is downloaded or put in place.
pub proof fn law_local_genesis_is_only_loaded<M>(fetch: GenesisFetch, event: GenesisEvent<M>)
    requires
        fetch.no_genesis_fetch,
        fetch.phase is Start || fetch.phase is LoadLocal,
        fetch.expects(event),
    ensures
        fetch.next(event).0.no_genesis_fetch,
        fetch.next(event).1 is Load && fetch.next(event).0.phase is LoadLocal || fetch.next(event).1
            is Done,
{
}

/// What each event leads to. A genesis is downloaded unless it is not to be fetched; what was
/// downloaded is unpacked and loaded, and anything else is loaded from the ledger as it is. A
/// genesis with the expected hash, or any where none is expected, is put in its place where it
/// was downloaded; and it is what there is to go by once that is done, or at once where it is the
/// local one.
pub proof fn law_genesis_goes_on<M>(fetch: GenesisFetch, event: GenesisEvent<M>)
    requires
        fetch.expects(event),
    ensures
        ({
            let (after, action) = fetch.next(event);
            let fits = event matches GenesisEvent::Loaded(Ok(hash)) && (
            fetch.expected_genesis_hash is None || fetch.expected_genesis_hash == Some(hash));
            &&& after.no_genesis_fetch == fetch.no_genesis_fetch
            &&& after.expected_genesis_hash == fetch.expected_genesis_hash
            &&& action is Download <==> event is Started && !fetch.no_genesis_fetch
            &&& action is Download ==> after.phase is Download
            &&& action is Unpack <==> (event matches GenesisEvent::Downloaded(downloaded)
                && downloaded)
            &&& action is Unpack ==> after.phase is Unpack
            &&& action is Load <==> (event is Started && fetch.no_genesis_fetch) || (
            event matches GenesisEvent::Downloaded(downloaded) && !downloaded) || (
            event matches GenesisEvent::Unpacked(Ok(_)))
            &&& action is Load ==> if event is Unpacked {
                after.phase is LoadDownloaded
            } else {
                after.phase is LoadLocal
            }
            &&& action is Rename <==> fits && fetch.phase is LoadDownloaded
            &&& action is Rename ==> (event matches GenesisEvent::Loaded(Ok(hash))
                && after.phase == GenesisPhase::Rename(hash))
            &&& action is Done ==> after.phase is Finished
            &&& (action matches GenesisAction::Done(Ok(_))) <==> (fits && fetch.phase is LoadLocal)
                || (event matches GenesisEvent::Renamed(Ok(_)))
            &&& action matches GenesisAction::Done(Ok(done)) ==> match event {
                GenesisEvent::Loaded(Ok(hash)) => done == hash,
                _ => fetch.phase == GenesisPhase::Rename(done),
            }
        }),
{
}

/// Why there is no genesis: what was downloaded could not be unpacked, loaded or put in its
/// place; the local one could not be loaded; or its hash is not the expected one.
pub proof fn law_genesis_fails<M>(fetch: GenesisFetch, event: GenesisEvent<M>)
    requires
        fetch.expects(event),
    ensures
        ({
            let action = fetch.next(event).1;
            let fails = match event {
                GenesisEvent::Unpacked(result) => result is Err,
                GenesisEvent::Renamed(result) => result is Err,
                GenesisEvent::Loaded(Ok(hash)) => fetch.expected_genesis_hash is Some
                    && fetch.expected_genesis_hash != Some(hash),
                GenesisEvent::Loaded(Err(_)) => true,
                _ => false,
            };
            &&& (action matches GenesisAction::Done(Err(_))) <==> fails
            &&& action matches GenesisAction::Done(Err(err)) ==> match err {
                GenesisError::UnpackFailed(reason) => event == GenesisEvent::Unpacked(Err(reason)),
                GenesisError::LoadDownloadedFailed(reason) => event == GenesisEvent::Loaded(
                    Err(reason),
                ) && fetch.phase is LoadDownloaded,
                GenesisError::LoadLocalFailed(reason) => event == GenesisEvent::Loaded(Err(reason))
                    && fetch.phase is LoadLocal,
                GenesisError::Mismatch(mismatch) => event == GenesisEvent::<M>::Loaded(
                    Ok(mismatch.actual),
                ) && fetch.expected_genesis_hash == Some(mismatch.expected),
                GenesisError::RenameFailed(reason) => event == GenesisEvent::Renamed(Err(reason)),
            }
        }),
{
}

/// After each action its answer is waited for, whatever it is, and nothing else; and after the
/// end nothing is.
pub proof fn law_genesis_waits_for_the_answer<M>(
    fetch: GenesisFetch,
    event: GenesisEvent<M>,
    answer: GenesisEvent<M>,
)
    requires
        fetch.wf(),
        fetch.expects(event),
    ensures
        fetch.next(event).0.expects(answer) <==> match fetch.next(event).1 {
            GenesisAction::Download => answer is Downloaded,
            GenesisAction::Unpack => answer is Unpacked,
            GenesisAction::Load => answer is Loaded,
            GenesisAction::Rename => answer is Renamed,
            GenesisAction::Done(_) => false,
        },
{
}

} // verus!
