//! Checks the vote account of a validator.

use vstd::prelude::*;

use crate::base58::base58_text;
use crate::pubkey::Pubkey;
use crate::text::decimal;
use crate::text::decimal_text;

verus! {

/// Lamports that an identity account has to exceed.
pub const MINIMUM_IDENTITY_LAMPORTS: u64 = 1;

/// What a vote account says of its voters.
#[derive(Debug)]
pub struct VoteState {
    pub node_pubkey: Pubkey,
    pub authorized_voters: Vec<Pubkey>,
}

/// An account at the vote account's address.
#[derive(Debug)]
pub struct VoteAccount {
    pub owner: Pubkey,
    /// the vote state that the account's data holds, if it holds one
    pub vote_state: Option<VoteState>,
}

/// Why a vote account does not fit, `M` being what a failed request told.
#[derive(Debug)]
pub enum VoteAccountError<M> {
    VoteAccountFetchFailed(M),
    VoteAccountMissing,
    NotAVoteAccount { owner: Pubkey },
    IdentityAccountFetchFailed(M),
    IdentityAccountMissing,
    NotInitialized,
    IdentityMismatch { node_pubkey: Pubkey },
    AuthorizedVoterNotAvailable { voter: Pubkey },
    InvalidData,
    UnderfundedIdentity { lamports: u64 },
}

impl VoteAccountError<String> {
    /// The text of the error, for the address of the vote account and the identity of the
    /// validator.
    pub open spec fn spec_message(self, vote_account: Pubkey, identity: Pubkey) -> Seq<char> {
        match self {
            VoteAccountError::VoteAccountFetchFailed(message) => "failed to fetch vote account: "@
                + message@,
            VoteAccountError::VoteAccountMissing => "vote account does not exist: "@ + base58_text(
                vote_account@,
            ),
            VoteAccountError::NotAVoteAccount { owner } => "not a vote account (owned by "@
                + base58_text(owner@) + "): "@ + base58_text(vote_account@),
            VoteAccountError::IdentityAccountFetchFailed(message) =>
                "failed to fetch identity account: "@ + message@,
            VoteAccountError::IdentityAccountMissing => "identity account does not exist: "@
                + base58_text(identity@),
            VoteAccountError::NotInitialized => "Vote account not yet initialized"@,
            VoteAccountError::IdentityMismatch { node_pubkey } => "vote account's identity ("@
                + base58_text(node_pubkey@) + ") does not match the validator's identity "@
                + base58_text(identity@) + ")."@,
            VoteAccountError::AuthorizedVoterNotAvailable { voter } => "authorized voter "@
                + base58_text(voter@) + " not available"@,
            VoteAccountError::InvalidData => "invalid vote account data for "@ + base58_text(
                vote_account@,
            ),
            VoteAccountError::UnderfundedIdentity { lamports } => "underfunded identity account ("@
                + base58_text(identity@) + "): only "@ + decimal(lamports as nat)
                + " lamports available"@,
        }
    }

    pub fn message(&self, vote_account_address: &Pubkey, identity_pubkey: &Pubkey) -> (message:
        String)
        ensures
            message@ == self.spec_message(*vote_account_address, *identity_pubkey),
    {
        match self {
            VoteAccountError::VoteAccountFetchFailed(reason) => {
                "failed to fetch vote account: ".to_owned().concat(reason.as_str())
            },
            VoteAccountError::VoteAccountMissing => {
                "vote account does not exist: ".to_owned().concat(
                    vote_account_address.to_base58().as_str(),
                )
            },
            VoteAccountError::NotAVoteAccount { owner } => {
                let mut message = "not a vote account (owned by ".to_owned();
                message.append(owner.to_base58().as_str());
                message.append("): ");
                message.append(vote_account_address.to_base58().as_str());
                message
            },
            VoteAccountError::IdentityAccountFetchFailed(reason) => {
                "failed to fetch identity account: ".to_owned().concat(reason.as_str())
            },
            VoteAccountError::IdentityAccountMissing => {
                "identity account does not exist: ".to_owned().concat(
                    identity_pubkey.to_base58().as_str(),
                )
            },
            VoteAccountError::NotInitialized => "Vote account not yet initialized".to_owned(),
            VoteAccountError::IdentityMismatch { node_pubkey } => {
                let mut message = "vote account's identity (".to_owned();
                message.append(node_pubkey.to_base58().as_str());
                message.append(") does not match the validator's identity ");
                message.append(identity_pubkey.to_base58().as_str());
                message.append(").");
                message
            },
            VoteAccountError::AuthorizedVoterNotAvailable { voter } => {
                let mut message = "authorized voter ".to_owned();
                message.append(voter.to_base58().as_str());
                message.append(" not available");
                message
            },
            VoteAccountError::InvalidData => {
                "invalid vote account data for ".to_owned().concat(
                    vote_account_address.to_base58().as_str(),
                )
            },
            VoteAccountError::UnderfundedIdentity { lamports } => {
                let mut message = "underfunded identity account (".to_owned();
                message.append(identity_pubkey.to_base58().as_str());
                message.append("): only ");
                message.append(decimal_text(*lamports).as_str());
                message.append(" lamports available");
                message
            },
        }
    }
}

/// The fetched vote account has to exist and to be owned by the vote program.
pub fn check_vote_account_owner<M>(
    fetched: Result<Option<VoteAccount>, M>,
    vote_program: &Pubkey,
) -> (account: Result<VoteAccount, VoteAccountError<M>>)
    ensures
        account == (match fetched {
            Err(message) => Err(VoteAccountError::VoteAccountFetchFailed(message)),
            Ok(None) => Err(VoteAccountError::VoteAccountMissing),
            Ok(Some(account)) => if account.owner == *vote_program {
                Ok(account)
            } else {
                Err(VoteAccountError::NotAVoteAccount { owner: account.owner })
            },
        }),
{
    match fetched {
        Err(message) => Err(VoteAccountError::VoteAccountFetchFailed(message)),
        Ok(None) => Err(VoteAccountError::VoteAccountMissing),
        Ok(Some(account)) => {
            if account.owner != *vote_program {
                Err(VoteAccountError::NotAVoteAccount { owner: account.owner })
            } else {
                Ok(account)
            }
        },
    }
}

fn contains_key(keys: &[Pubkey], key: &Pubkey) -> (contained: bool)
    ensures
        contained == keys@.contains(*key),
{
    let mut i: usize = 0;
    while i < keys.len()
        invariant
            i <= keys@.len(),
            forall|j: int| 0 <= j < i ==> keys@[j] != *key,
        decreases keys@.len() - i,
    {
        if keys[i] == *key {
            return true;
        }
        i += 1;
    }
    false
}

/// The first of the voters for whom there is no key.
pub open spec fn first_unavailable(voters: Seq<Pubkey>, available: Seq<Pubkey>) -> Option<Pubkey>
    decreases voters.len(),
{
    if voters.len() == 0 {
        None
    } else if !available.contains(voters[0]) {
        Some(voters[0])
    } else {
        first_unavailable(voters.drop_first(), available)
    }
}

fn find_unavailable(voters: &Vec<Pubkey>, available: &[Pubkey]) -> (voter: Option<Pubkey>)
    ensures
        voter == first_unavailable(voters@, available@),
{
    let mut i: usize = 0;
    assert(voters@.skip(0) =~= voters@);
    while i < voters.len()
        invariant
            i <= voters@.len(),
            first_unavailable(voters@, available@) == first_unavailable(
                voters@.skip(i as int),
                available@,
            ),
        decreases voters@.len() - i,
    {
        if !contains_key(available, &voters[i]) {
            return Some(voters[i]);
        }
        assert(voters@.skip(i as int).drop_first() =~= voters@.skip(i + 1));
        i += 1;
    }
    None
}

/// What is wrong with a vote account of a validator, if anything is. The identity account was
/// fetched with its balance.
pub open spec fn vote_account_error<M>(
    account: VoteAccount,
    identity_balance: Result<Option<u64>, M>,
    identity: Pubkey,
    available_voters: Seq<Pubkey>,
) -> Option<VoteAccountError<M>> {
    match identity_balance {
        Err(message) => Some(VoteAccountError::IdentityAccountFetchFailed(message)),
        Ok(None) => Some(VoteAccountError::IdentityAccountMissing),
        Ok(Some(lamports)) => match account.vote_state {
            None => Some(VoteAccountError::InvalidData),
            Some(state) => if state.authorized_voters@.len() == 0 {
                Some(VoteAccountError::NotInitialized)
            } else if state.node_pubkey != identity {
                Some(VoteAccountError::IdentityMismatch { node_pubkey: state.node_pubkey })
            } else {
                match first_unavailable(state.authorized_voters@, available_voters) {
                    Some(voter) => Some(VoteAccountError::AuthorizedVoterNotAvailable { voter }),
                    None => if lamports <= MINIMUM_IDENTITY_LAMPORTS {
                        Some(VoteAccountError::UnderfundedIdentity { lamports })
                    } else {
                        None
                    },
                }
            },
        },
    }
}

/// Checks that a vote account, which is one of the vote program, can be voted with by a
/// validator: it is initialized for the validator's identity, all of its voters are
/// available, and the identity account can pay.
pub fn check_vote_account<M>(
    account: &VoteAccount,
    identity_balance: Result<Option<u64>, M>,
    identity_pubkey: &Pubkey,
    authorized_voter_pubkeys: &[Pubkey],
) -> (result: Result<(), VoteAccountError<M>>)
    ensures
        match vote_account_error(
            *account,
            identity_balance,
            *identity_pubkey,
            authorized_voter_pubkeys@,
        ) {
            Some(err) => result == Err::<(), VoteAccountError<M>>(err),
            None => result is Ok,
        },
{
    let lamports: u64 = match identity_balance {
        Err(message) => {
            return Err(VoteAccountError::IdentityAccountFetchFailed(message));
        },
        Ok(None) => {
            return Err(VoteAccountError::IdentityAccountMissing);
        },
        Ok(Some(lamports)) => lamports,
    };
    match &account.vote_state {
        None => {
            return Err(VoteAccountError::InvalidData);
        },
        Some(state) => {
            if state.authorized_voters.len() == 0 {
                return Err(VoteAccountError::NotInitialized);
            }
            if state.node_pubkey != *identity_pubkey {
                return Err(
                    VoteAccountError::IdentityMismatch { node_pubkey: state.node_pubkey },
                );
            }
            match find_unavailable(&state.authorized_voters, authorized_voter_pubkeys) {
                Some(voter) => {
                    return Err(VoteAccountError::AuthorizedVoterNotAvailable { voter });
                },
                None => {},
            }
        },
    }
    // Maybe we can calculate minimum voting fee; rather than 1 lamport
    if lamports <= MINIMUM_IDENTITY_LAMPORTS {
        return Err(VoteAccountError::UnderfundedIdentity { lamports });
    }
    Ok(())
}

/// With a vote account that fits, every voter of the account is available.
pub proof fn law_all_voters_are_available<M>(
    account: VoteAccount,
    identity_balance: Result<Option<u64>, M>,
    identity: Pubkey,
    available_voters: Seq<Pubkey>,
)
    requires
        vote_account_error(account, identity_balance, identity, available_voters) is None,
    ensures
        account.vote_state is Some,
        forall|i: int|
            0 <= i < account.vote_state->Some_0.authorized_voters@.len()
                ==> available_voters.contains(
                #[trigger] account.vote_state->Some_0.authorized_voters@[i],
            ),
{
    lemma_none_unavailable(account.vote_state->Some_0.authorized_voters@, available_voters);
}

proof fn lemma_none_unavailable(voters: Seq<Pubkey>, available: Seq<Pubkey>)
    requires
        first_unavailable(voters, available) is None,
    ensures
        forall|i: int| 0 <= i < voters.len() ==> available.contains(#[trigger] voters[i]),
    decreases voters.len(),
{
    if voters.len() > 0 {
        let rest = voters.drop_first();
        lemma_none_unavailable(rest, available);
        assert forall|i: int| 0 <= i < voters.len() implies available.contains(
            #[trigger] voters[i],
        ) by {
            if i > 0 {
                assert(rest[i - 1] == voters[i]);
            }
        }
    }
}

/// The voter that is reported is the first one that is not available, and none is where all are.
pub proof fn law_first_unavailable_voter(voters: Seq<Pubkey>, available: Seq<Pubkey>)
    ensures
        match first_unavailable(voters, available) {
            Some(voter) => exists|i: int|
                {
                    &&& 0 <= i < voters.len()
                    &&& #[trigger] voters[i] == voter
                    &&& !available.contains(voter)
                    &&& forall|j: int| 0 <= j < i ==> available.contains(#[trigger] voters[j])
                },
            None => forall|i: int| 0 <= i < voters.len() ==> available.contains(#[trigger] voters[i]),
        },
    decreases voters.len(),
{
    if voters.len() > 0 && available.contains(voters[0]) {
        let rest = voters.drop_first();
        law_first_unavailable_voter(rest, available);
        match first_unavailable(rest, available) {
            Some(voter) => {
                let i = choose|i: int|
                    {
                        &&& 0 <= i < rest.len()
                        &&& #[trigger] rest[i] == voter
                        &&& !available.contains(voter)
                        &&& forall|j: int| 0 <= j < i ==> available.contains(#[trigger] rest[j])
                    };
                assert(voters[i + 1] == voter);
                assert forall|j: int| 0 <= j < i + 1 implies available.contains(
                    #[trigger] voters[j],
                ) by {
                    if j > 0 {
                        assert(rest[j - 1] == voters[j]);
                    }
                }
            },
            None => {
                assert forall|i: int| 0 <= i < voters.len() implies available.contains(
                    #[trigger] voters[i],
                ) by {
                    if i > 0 {
                        assert(rest[i - 1] == voters[i]);
                    }
                }
            },
        }
    } else if voters.len() > 0 {
        assert(voters[0] == voters[0]);
    }
}

/// A vote account fits exactly where the identity account holds more than one lamport, and the
/// vote account is initialized for that identity with voters that are all available. What is
/// wrong is told in this order: the identity account, the data, the voters, the identity, a voter
/// who is not available, and the balance.
pub proof fn law_vote_account_fits<M>(
    account: VoteAccount,
    identity_balance: Result<Option<u64>, M>,
    identity: Pubkey,
    available_voters: Seq<Pubkey>,
)
    ensures
        ({
            let error = vote_account_error(account, identity_balance, identity, available_voters);
            let known = identity_balance matches Ok(Some(_));
            let lamports = identity_balance->Ok_0->Some_0;
            let state = account.vote_state->Some_0;
            let held = known && account.vote_state is Some;
            let named = held && state.authorized_voters@.len() > 0;
            let own = named && state.node_pubkey == identity;
            let all = forall|i: int|
                0 <= i < state.authorized_voters@.len() ==> available_voters.contains(
                    #[trigger] state.authorized_voters@[i],
                );
            &&& error is None <==> own && all && lamports > 1
            &&& identity_balance matches Err(reason) ==> error == Some(
                VoteAccountError::IdentityAccountFetchFailed(reason),
            )
            &&& identity_balance matches Ok(None) ==> error == Some(
                VoteAccountError::<M>::IdentityAccountMissing,
            )
            &&& known && account.vote_state is None ==> error == Some(
                VoteAccountError::<M>::InvalidData,
            )
            &&& held && !named ==> error == Some(VoteAccountError::<M>::NotInitialized)
            &&& named && !own ==> error == Some(
                VoteAccountError::<M>::IdentityMismatch { node_pubkey: state.node_pubkey },
            )
            &&& own && !all ==> (error matches Some(
                VoteAccountError::AuthorizedVoterNotAvailable { voter },
            ) && state.authorized_voters@.contains(voter) && !available_voters.contains(voter))
            &&& own && all && lamports <= 1 ==> error == Some(
                VoteAccountError::<M>::UnderfundedIdentity { lamports },
            )
        }),
{
    if account.vote_state is Some {
        let voters = account.vote_state->Some_0.authorized_voters@;
        law_first_unavailable_voter(voters, available_voters);
        if let Some(voter) = first_unavailable(voters, available_voters) {
            let i = choose|i: int| 0 <= i < voters.len() && #[trigger] voters[i] == voter;
            assert(voters[i] == voter);
            assert(!available_voters.contains(voters[i]));
        }
    }
}

} // verus!
