//! Governance votes on chain parameters: tallying an account's votes,
//! planning the storage updates that casting them makes, reading them back,
//! and computing the next parameter value from settled vote counts.

use vstd::prelude::*;
use crate::word::{
    U256, u256_saturating_add, u256_lt, u256_sub, u256_as_u64, u256_max, u256_modulus, u512_modulus, u256_add, u256_eq, u256_mul_u64, u256_div_u64,
    u512_from_u256, u512_mul, u512_div, u256_try_from_u512,
};

verus! {

/// Number of governed parameters.
pub const PARAMETER_INDEX_MAX: usize = 2;

/// Number of options a vote on one parameter can take.
pub const OPTION_INDEX_MAX: usize = 3;

/// Index of the proof-of-work base reward parameter.
pub const POW_BASE_REWARD_INDEX: u8 = 0;

/// Index of the proof-of-stake reward interest rate parameter.
pub const POS_REWARD_INTEREST_RATE_INDEX: u8 = 1;

/// Index of the "keep unchanged" option.
pub const OPTION_UNCHANGE_INDEX: u8 = 0;

/// Index of the "increase" option.
pub const OPTION_INCREASE_INDEX: u8 = 1;

/// Index of the "decrease" option.
pub const OPTION_DECREASE_INDEX: u8 = 2;

/// One entry of a vote: `votes` for option `opt_index` of parameter `index`.
#[derive(Clone, Copy, Debug, PartialEq, Eq)]
pub struct Vote {
    pub index: u16,
    pub opt_index: u16,
    pub votes: U256,
}

/// Why casting a vote was refused.
#[derive(Clone, Copy, Debug, PartialEq, Eq)]
pub enum VoteError {
    /// The vote is for another voting period than the current one.
    VersionMismatch { current: u64, voted: u64 },
    /// A vote names a parameter or an option that does not exist.
    InvalidIndex,
    /// The votes on one parameter add up to more than the account's power.
    NotEnoughVotePower { power: U256, votes: U256 },
}

/// A storage entry that casting a vote overwrites.
#[derive(Clone, Copy, Debug, PartialEq, Eq, Structural)]
pub enum WriteTarget {
    /// The account's own vote for one option of one parameter.
    AccountVote { index: usize, opt_index: usize },
    /// The total of all accounts' votes for one option of one parameter.
    TotalVotes { index: usize, opt_index: usize },
    /// The voting period the account last voted in.
    Version,
}

/// One storage write: the target and the value written to it.
#[derive(Clone, Copy, Debug, PartialEq, Eq)]
pub struct StorageWrite {
    pub target: WriteTarget,
    pub value: U256,
}

impl View for StorageWrite {
    type V = (WriteTarget, nat);

    open spec fn view(&self) -> (WriteTarget, nat) {
        (self.target, self.value@)
    }
}

/// The writes as targets and values.
pub open spec fn writes_view(writes: Seq<StorageWrite>) -> Seq<(WriteTarget, nat)> {
    writes.map_values(|w: StorageWrite| w@)
}

/// Addition that stops at 2^256 - 1.
pub open spec fn saturating_sum(a: nat, b: nat) -> nat {
    if a + b > u256_max() {
        u256_max()
    } else {
        a + b
    }
}

/// Position of the entry of option `opt_index` of parameter `index` when the
/// entries of all parameters are laid out one after the other.
pub open spec fn vote_slot(index: int, opt_index: int) -> int {
    index * 3 + opt_index
}

/// The vote names an existing parameter and option.
pub open spec fn vote_in_range(vote: Vote) -> bool {
    (vote.index as int) < PARAMETER_INDEX_MAX && (vote.opt_index as int) < OPTION_INDEX_MAX
}

pub open spec fn all_votes_in_range(votes: Seq<Vote>) -> bool {
    forall|k: int| 0 <= k < votes.len() ==> vote_in_range(#[trigger] votes[k])
}

/// The saturating sum of the votes for option `opt_index` of parameter `index`,
/// taken in order.
pub open spec fn tally_count(votes: Seq<Vote>, index: int, opt_index: int) -> nat
    decreases votes.len(),
{
    if votes.len() == 0 {
        0
    } else {
        let prev = tally_count(votes.drop_last(), index, opt_index);
        let v = votes.last();
        if v.index == index && v.opt_index == opt_index {
            saturating_sum(prev, v.votes@)
        } else {
            prev
        }
    }
}

/// Some vote names parameter `index`.
pub open spec fn votes_name_param(votes: Seq<Vote>, index: int) -> bool {
    exists|k: int| 0 <= k < votes.len() && (#[trigger] votes[k]).index == index
}

/// Parameter `index` takes part in the update: every parameter does in the
/// account's first vote of a period, and otherwise those that a vote names.
pub open spec fn param_touched(votes: Seq<Vote>, is_new_vote: bool, index: int) -> bool {
    is_new_vote || votes_name_param(votes, index)
}

/// The tallied votes of one call: which parameters take part, and the count of
/// each option, laid out by `vote_slot`.
pub struct VoteTally {
    pub touched: Vec<bool>,
    pub counts: Vec<U256>,
}

impl VoteTally {
    /// The tally is that of `votes` in a call that is or is not the account's
    /// first of the period.
    pub open spec fn is_tally_of(&self, votes: Seq<Vote>, is_new_vote: bool) -> bool {
        &&& self.touched@.len() == PARAMETER_INDEX_MAX
        &&& self.counts@.len() == PARAMETER_INDEX_MAX * OPTION_INDEX_MAX
        &&& forall|i: int|
            0 <= i < PARAMETER_INDEX_MAX ==> #[trigger] self.touched@[i] == param_touched(
                votes,
                is_new_vote,
                i,
            )
        &&& forall|i: int, j: int|
            0 <= i < PARAMETER_INDEX_MAX && 0 <= j < OPTION_INDEX_MAX
                ==> self.counts@[vote_slot(i, j)]@ == #[trigger] tally_count(votes, i, j)
    }
}

/// Sums the votes per parameter and option, saturating at 2^256 - 1, after
/// checking that every vote names an existing parameter and option.
pub fn tally_votes(votes: &Vec<Vote>, is_new_vote: bool) -> (r: Result<VoteTally, VoteError>)
    ensures
        r is Ok <==> all_votes_in_range(votes@),
        r matches Err(e) ==> e == VoteError::InvalidIndex,
        r matches Ok(t) ==> t.is_tally_of(votes@, is_new_vote),
        r matches Ok(t) ==> forall|i: int|
            0 <= i < PARAMETER_INDEX_MAX ==> #[trigger] t.touched@[i] == (is_new_vote || exists|k: int|
                0 <= k < votes@.len() && (#[trigger] votes@[k]).index == i),
        r matches Ok(t) ==> forall|i: int, j: int|
            0 <= i < PARAMETER_INDEX_MAX && 0 <= j < OPTION_INDEX_MAX ==> (#[trigger] t.counts@[i * 3
                + j])@ == capped(exact_count(votes@, i, j)),
{
    let mut touched: Vec<bool> = Vec::new();
    touched.push(is_new_vote);
    touched.push(is_new_vote);
    let mut counts: Vec<U256> = Vec::new();
    let mut s: usize = 0;
    while s < 6
        invariant
            s <= 6,
            counts@.len() == s,
            forall|t: int| 0 <= t < s ==> (#[trigger] counts@[t])@ == 0,
        decreases 6 - s,
    {
        counts.push(U256::zero());
        s = s + 1;
    }
    let n = votes.len();
    let mut k: usize = 0;
    while k < n
        invariant
            n == votes@.len(),
            k <= n,
            touched@.len() == 2,
            counts@.len() == 6,
            forall|m: int| 0 <= m < k ==> vote_in_range(#[trigger] votes@[m]),
            forall|i: int|
                0 <= i < 2 ==> #[trigger] touched@[i] == param_touched(
                    votes@.take(k as int),
                    is_new_vote,
                    i,
                ),
            forall|i: int, j: int|
                0 <= i < 2 && 0 <= j < 3 ==> counts@[vote_slot(i, j)]@ == #[trigger] tally_count(
                    votes@.take(k as int),
                    i,
                    j,
                ),
        decreases n - k,
    {
        let vote = votes[k];
        if vote.index as usize >= PARAMETER_INDEX_MAX || vote.opt_index as usize >= OPTION_INDEX_MAX {
            return Err(VoteError::InvalidIndex);
        }
        let slot = vote.index as usize * 3 + vote.opt_index as usize;
        let updated = u256_saturating_add(counts[slot], vote.votes);
        counts.set(slot, updated);
        touched.set(vote.index as usize, true);
        proof {
            let prefix = votes@.take(k as int);
            let next = votes@.take(k + 1);
            assert(next.drop_last() =~= prefix);
            assert(next.last() == vote);
            assert forall|i: int| 0 <= i < 2 implies #[trigger] touched@[i] == param_touched(
                next,
                is_new_vote,
                i,
            ) by {
                if votes_name_param(prefix, i) {
                    let w = choose|w: int| 0 <= w < prefix.len() && (#[trigger] prefix[w]).index == i;
                    assert(next[w] == prefix[w]);
                }
                if i == vote.index {
                    assert(next[k as int] == vote);
                }
                if votes_name_param(next, i) && i != vote.index {
                    let w = choose|w: int| 0 <= w < next.len() && (#[trigger] next[w]).index == i;
                    assert(w != k);
                    assert(prefix[w] == next[w]);
                }
            }
            assert forall|i: int, j: int| 0 <= i < 2 && 0 <= j < 3 implies counts@[vote_slot(i, j)]@
                == #[trigger] tally_count(next, i, j) by {
                assert(tally_count(next, i, j) == (if vote.index == i && vote.opt_index == j {
                    saturating_sum(tally_count(prefix, i, j), vote.votes@)
                } else {
                    tally_count(prefix, i, j)
                }));
                if vote.index == i && vote.opt_index == j {
                    assert(slot == vote_slot(i, j));
                    vote.votes.lemma_bound();
                } else {
                    assert(slot != vote_slot(i, j));
                }
            }
        }
        k = k + 1;
    }
    proof {
        assert(votes@.take(n as int) =~= votes@);
        assert forall|i: int, j: int|
            0 <= i < PARAMETER_INDEX_MAX && 0 <= j < OPTION_INDEX_MAX implies (#[trigger] counts@[i
            * 3 + j])@ == capped(exact_count(votes@, i, j)) by {
            law_tally_is_capped_sum(votes@, i, j);
            assert(vote_slot(i, j) == i * 3 + j);
            assert(counts@[vote_slot(i, j)]@ == tally_count(votes@, i, j));
        }
    }
    Ok(VoteTally { touched, counts })
}

/// The sum over the three options of parameter `index`, saturating.
pub open spec fn param_sum(votes: Seq<Vote>, index: int) -> nat {
    saturating_sum(
        saturating_sum(tally_count(votes, index, 0), tally_count(votes, index, 1)),
        tally_count(votes, index, 2),
    )
}

/// The account's earlier vote that the new one replaces: nothing in its first
/// vote of a period, else what storage holds.
pub open spec fn prior_vote(is_new_vote: bool, stored: nat) -> nat {
    if is_new_vote {
        0
    } else {
        stored
    }
}

/// The writes for option `opt_index` of parameter `index`: the total moves by
/// the change of the account's vote, where it changes, and the account's
/// vote is overwritten where it differs from what storage holds.
pub open spec fn option_writes(
    votes: Seq<Vote>,
    is_new_vote: bool,
    stored: Seq<nat>,
    totals: Seq<nat>,
    index: int,
    opt_index: int,
) -> Seq<(WriteTarget, nat)> {
    let slot = vote_slot(index, opt_index);
    let new_vote = tally_count(votes, index, opt_index);
    let old_vote = prior_vote(is_new_vote, stored[slot]);
    let target_total = WriteTarget::TotalVotes { index: index as usize, opt_index: opt_index as usize };
    let target_account = WriteTarget::AccountVote {
        index: index as usize,
        opt_index: opt_index as usize,
    };
    (if new_vote != old_vote {
        seq![(target_total, (totals[slot] + new_vote - old_vote) as nat)]
    } else {
        Seq::empty()
    }) + (if new_vote != stored[slot] {
        seq![(target_account, new_vote)]
    } else {
        Seq::empty()
    })
}

/// The writes for all options of parameter `index`, in option order.
pub open spec fn param_writes(
    votes: Seq<Vote>,
    is_new_vote: bool,
    stored: Seq<nat>,
    totals: Seq<nat>,
    index: int,
) -> Seq<(WriteTarget, nat)> {
    option_writes(votes, is_new_vote, stored, totals, index, 0) + option_writes(
        votes,
        is_new_vote,
        stored,
        totals,
        index,
        1,
    ) + option_writes(votes, is_new_vote, stored, totals, index, 2)
}

/// Moving a total by the change of one account's vote stays within 0 and
/// 2^256 - 1.
pub open spec fn total_update_in_range(new_vote: nat, old_vote: nat, total: nat) -> bool {
    &&& old_vote > new_vote ==> total >= old_vote - new_vote
    &&& old_vote < new_vote ==> total + (new_vote - old_vote) <= u256_max()
}

/// The writes of the first `n` parameters, and the first parameter among them
/// whose votes exceed the power, at which the writes stop.
pub open spec fn params_outcome(
    votes: Seq<Vote>,
    is_new_vote: bool,
    power: nat,
    stored: Seq<nat>,
    totals: Seq<nat>,
    n: nat,
) -> (Seq<(WriteTarget, nat)>, Option<int>)
    decreases n,
{
    if n == 0 {
        (Seq::empty(), None)
    } else {
        let (writes, failed) = params_outcome(votes, is_new_vote, power, stored, totals, (n - 1) as nat);
        let i = n - 1;
        if failed is Some || !param_touched(votes, is_new_vote, i) {
            (writes, failed)
        } else if param_sum(votes, i) > power {
            (writes, Some(i))
        } else {
            (writes + param_writes(votes, is_new_vote, stored, totals, i), None)
        }
    }
}

/// Every total that the update moves stays within 0 and 2^256 - 1.
pub open spec fn updates_in_range(
    votes: Seq<Vote>,
    is_new_vote: bool,
    power: nat,
    stored: Seq<nat>,
    totals: Seq<nat>,
) -> bool {
    forall|i: int, j: int|
        0 <= i < PARAMETER_INDEX_MAX && 0 <= j < OPTION_INDEX_MAX && params_outcome(
            votes,
            is_new_vote,
            power,
            stored,
            totals,
            i as nat,
        ).1 is None && param_touched(votes, is_new_vote, i) && param_sum(votes, i) <= power
            ==> #[trigger] total_update_in_range(
            tally_count(votes, i, j),
            prior_vote(is_new_vote, stored[vote_slot(i, j)]),
            totals[vote_slot(i, j)],
        )
}

/// The values as numbers.
pub open spec fn values_view(values: Seq<U256>) -> Seq<nat> {
    values.map_values(|v: U256| v@)
}

/// The current voting period: periods of `period` blocks counted from 1,
/// starting at the activation block.
pub fn current_voting_version(block_number: u64, activation_number: u64, period: u64) -> (r: u64)
    requires
        activation_number <= block_number,
        period > 0,
        (block_number - activation_number) / (period as int) < u64::MAX,
    ensures
        r == (block_number - activation_number) / (period as int) + 1,
{
    (block_number - activation_number) / period + 1
}

/// A vote is only taken for the current voting period.
pub fn check_vote_version(current_version: u64, version: u64) -> (r: Result<(), VoteError>)
    ensures
        r is Ok <==> version == current_version,
        r matches Err(e) ==> e == (VoteError::VersionMismatch {
            current: current_version,
            voted: version,
        }),
{
    if version != current_version {
        let e = VoteError::VersionMismatch { current: current_version, voted: version };
        Err(e)
    } else {
        Ok(())
    }
}

/// Whether this is the account's first vote of the period: the period it
/// last voted in (as storage holds it) is another one.
pub fn is_new_vote(old_version: U256, version: u64) -> (r: bool)
    requires
        old_version@ <= u64::MAX,
    ensures
        r == (old_version@ != version),
{
    u256_as_u64(old_version) != version
}

/// The writes for option `opt_index` of parameter `index`, appended to `writes`.
fn plan_option_update(
    index: usize,
    opt_index: usize,
    new_vote: U256,
    is_new_vote: bool,
    stored: U256,
    total: U256,
    writes: &mut Vec<StorageWrite>,
)
    requires
        total_update_in_range(new_vote@, prior_vote(is_new_vote, stored@), total@),
    ensures
        writes_view(final(writes)@) == writes_view(old(writes)@) + ({
            let old_vote = prior_vote(is_new_vote, stored@);
            let target_total = WriteTarget::TotalVotes { index, opt_index };
            let target_account = WriteTarget::AccountVote { index, opt_index };
            (if new_vote@ != old_vote {
                seq![(target_total, (total@ + new_vote@ - old_vote) as nat)]
            } else {
                Seq::empty()
            }) + (if new_vote@ != stored@ {
                seq![(target_account, new_vote@)]
            } else {
                Seq::empty()
            })
        }),
{
    let ghost start = writes@;
    let old_vote = if is_new_vote {
        U256::zero()
    } else {
        stored
    };
    if !u256_eq(new_vote, old_vote) {
        let new_total = if u256_lt(new_vote, old_vote) {
            u256_sub(total, u256_sub(old_vote, new_vote))
        } else {
            u256_add(total, u256_sub(new_vote, old_vote))
        };
        writes.push(StorageWrite { target: WriteTarget::TotalVotes { index, opt_index }, value: new_total });
    }
    let ghost middle = writes@;
    if !u256_eq(new_vote, stored) {
        writes.push(StorageWrite { target: WriteTarget::AccountVote { index, opt_index }, value: new_vote });
    }
    proof {
        assert(writes_view(middle) =~= writes_view(start) + (if new_vote@ != prior_vote(is_new_vote, stored@) {
            seq![(WriteTarget::TotalVotes { index, opt_index }, (total@ + new_vote@ - prior_vote(is_new_vote, stored@)) as nat)]
        } else {
            Seq::empty()
        }));
        assert(writes_view(writes@) =~= writes_view(middle) + (if new_vote@ != stored@ {
            seq![(WriteTarget::AccountVote { index, opt_index }, new_vote@)]
        } else {
            Seq::empty()
        }));
    }
}

/// The storage updates that casting the account's votes makes, and how the
/// cast ends. `old_version` is the period of the account's last vote,
/// `vote_power` its power, and `stored` and `totals` the account's votes and
/// the totals that storage holds, laid out by `vote_slot`.
///
/// Writes are planned parameter by parameter; where one parameter's votes
/// exceed the power, the writes planned so far stand and no more follow.
#[verifier::rlimit(50)]
pub fn cast_vote(
    version: u64,
    current_version: u64,
    old_version: U256,
    votes: &Vec<Vote>,
    vote_power: U256,
    stored: &Vec<U256>,
    totals: &Vec<U256>,
) -> (r: (Vec<StorageWrite>, Result<(), VoteError>))
    requires
        stored@.len() == PARAMETER_INDEX_MAX * OPTION_INDEX_MAX,
        totals@.len() == PARAMETER_INDEX_MAX * OPTION_INDEX_MAX,
        version == current_version ==> old_version@ <= u64::MAX,
        version == current_version && all_votes_in_range(votes@) ==> updates_in_range(
            votes@,
            old_version@ != version,
            vote_power@,
            values_view(stored@),
            values_view(totals@),
        ),
    ensures
        version != current_version ==> {
            &&& r.0@.len() == 0
            &&& r.1 == Err::<(), VoteError>(
                VoteError::VersionMismatch { current: current_version, voted: version },
            )
        },
        version == current_version && !all_votes_in_range(votes@) ==> {
            &&& r.0@.len() == 0
            &&& r.1 == Err::<(), VoteError>(VoteError::InvalidIndex)
        },
        version == current_version && all_votes_in_range(votes@) ==> {
            let is_new_vote = old_version@ != version;
            let (writes, failed) = params_outcome(
                votes@,
                is_new_vote,
                vote_power@,
                values_view(stored@),
                values_view(totals@),
                PARAMETER_INDEX_MAX as nat,
            );
            &&& writes_view(r.0@) == (if failed is None && is_new_vote {
                writes.push((WriteTarget::Version, version as nat))
            } else {
                writes
            })
            &&& r.1 is Ok <==> failed is None
            &&& failed matches Some(i) ==> r.1 matches Err(
                VoteError::NotEnoughVotePower { power, votes: total },
            ) && power@ == vote_power@ && total@ == param_sum(votes@, i)
        },
        version == current_version && all_votes_in_range(votes@) ==> (r.1 is Ok <==> forall|i: int|
            #![trigger exact_count(votes@, i, 0)]
            0 <= i < PARAMETER_INDEX_MAX && (old_version@ != version || exists|k: int|
                0 <= k < votes@.len() && (#[trigger] votes@[k]).index == i) ==> capped(
                exact_count(votes@, i, 0) + exact_count(votes@, i, 1) + exact_count(votes@, i, 2),
            ) <= vote_power@),
{
    let mut writes: Vec<StorageWrite> = Vec::new();
    if version != current_version {
        return (writes, Err(VoteError::VersionMismatch { current: current_version, voted: version }));
    }
    let is_new_vote = u256_as_u64(old_version) != version;
    let tally = match tally_votes(votes, is_new_vote) {
        Ok(t) => t,
        Err(e) => {
            return (writes, Err(e));
        },
    };
    let ghost sv = values_view(stored@);
    let ghost tv = values_view(totals@);
    proof {
        law_cast_succeeds_iff_within_power(votes@, is_new_vote, vote_power@, sv, tv);
    }
    let mut index: usize = 0;
    while index < PARAMETER_INDEX_MAX
        invariant
            index <= PARAMETER_INDEX_MAX,
            version == current_version,
            stored@.len() == 6,
            totals@.len() == 6,
            sv == values_view(stored@),
            tv == values_view(totals@),
            is_new_vote == (old_version@ != version),
            all_votes_in_range(votes@),
            tally.is_tally_of(votes@, is_new_vote),
            updates_in_range(votes@, is_new_vote, vote_power@, sv, tv),
            params_outcome(votes@, is_new_vote, vote_power@, sv, tv, index as nat).1 is None,
            writes_view(writes@) == params_outcome(
                votes@,
                is_new_vote,
                vote_power@,
                sv,
                tv,
                index as nat,
            ).0,
        decreases PARAMETER_INDEX_MAX - index,
    {
        let ghost before = writes@;
        let ghost i = index as int;
        assert(tally.touched@[i] == param_touched(votes@, is_new_vote, i));
        if !tally.touched[index] {
            index = index + 1;
            continue;
        }
        let base = index * 3;
        assert(tally.counts@[vote_slot(i, 0)]@ == tally_count(votes@, i, 0));
        assert(tally.counts@[vote_slot(i, 1)]@ == tally_count(votes@, i, 1));
        assert(tally.counts@[vote_slot(i, 2)]@ == tally_count(votes@, i, 2));
        let sum = u256_saturating_add(
            u256_saturating_add(tally.counts[base], tally.counts[base + 1]),
            tally.counts[base + 2],
        );
        proof {
            tally.counts@[vote_slot(i, 0)].lemma_bound();
            tally.counts@[vote_slot(i, 1)].lemma_bound();
            tally.counts@[vote_slot(i, 2)].lemma_bound();
        }
        if u256_lt(vote_power, sum) {
            proof {
                reveal_with_fuel(params_outcome, 3);
                law_cast_succeeds_iff_within_power(votes@, is_new_vote, vote_power@, sv, tv);
            }
            return (writes, Err(VoteError::NotEnoughVotePower { power: vote_power, votes: sum }));
        }
        let mut opt: usize = 0;
        while opt < OPTION_INDEX_MAX
            invariant
                opt <= OPTION_INDEX_MAX,
                index < PARAMETER_INDEX_MAX,
                i == index as int,
                base == index * 3,
                stored@.len() == 6,
                totals@.len() == 6,
                sv == values_view(stored@),
                tv == values_view(totals@),
                tally.is_tally_of(votes@, is_new_vote),
                params_outcome(votes@, is_new_vote, vote_power@, sv, tv, index as nat).1 is None,
                param_touched(votes@, is_new_vote, i),
                param_sum(votes@, i) <= vote_power@,
                updates_in_range(votes@, is_new_vote, vote_power@, sv, tv),
                writes_view(writes@) == writes_view(before) + (if opt == 0 {
                    Seq::empty()
                } else if opt == 1 {
                    option_writes(votes@, is_new_vote, sv, tv, i, 0)
                } else if opt == 2 {
                    option_writes(votes@, is_new_vote, sv, tv, i, 0) + option_writes(
                        votes@,
                        is_new_vote,
                        sv,
                        tv,
                        i,
                        1,
                    )
                } else {
                    param_writes(votes@, is_new_vote, sv, tv, i)
                }),
            decreases OPTION_INDEX_MAX - opt,
        {
            let ghost mid = writes@;
            let slot = base + opt;
            assert(slot == vote_slot(i, opt as int));
            assert(tally.counts@[vote_slot(i, opt as int)]@ == tally_count(votes@, i, opt as int));
            assert(total_update_in_range(
                tally_count(votes@, i, opt as int),
                prior_vote(is_new_vote, sv[vote_slot(i, opt as int)]),
                tv[vote_slot(i, opt as int)],
            ));
            plan_option_update(
                index,
                opt,
                tally.counts[slot],
                is_new_vote,
                stored[slot],
                totals[slot],
                &mut writes,
            );
            assert(writes_view(writes@) =~= writes_view(mid) + option_writes(
                votes@,
                is_new_vote,
                sv,
                tv,
                i,
                opt as int,
            ));
            opt = opt + 1;
        }
        index = index + 1;
    }
    if is_new_vote {
        let ghost before = writes@;
        writes.push(StorageWrite { target: WriteTarget::Version, value: U256::from_u64(version) });
        assert(writes_view(writes@) =~= writes_view(before).push((WriteTarget::Version, version as nat)));
    }
    (writes, Ok(()))
}

/// Whether `cast_vote` can be called on these inputs: the account's last
/// period fits in 64 bits, and no total that the update moves leaves
/// 0..2^256 - 1. Where this is false, casting the vote panics.
pub open spec fn cast_vote_in_range(
    version: u64,
    current_version: u64,
    old_version: nat,
    votes: Seq<Vote>,
    vote_power: nat,
    stored: Seq<nat>,
    totals: Seq<nat>,
) -> bool {
    &&& version == current_version ==> old_version <= u64::MAX
    &&& version == current_version && all_votes_in_range(votes) ==> updates_in_range(
        votes,
        old_version != version,
        vote_power,
        stored,
        totals,
    )
}

/// One total out of range, at a parameter that the update reaches, puts the
/// whole update out of range.
proof fn lemma_out_of_range(
    votes: Seq<Vote>,
    is_new_vote: bool,
    power: nat,
    stored: Seq<nat>,
    totals: Seq<nat>,
    i: int,
    j: int,
)
    requires
        0 <= i < PARAMETER_INDEX_MAX,
        0 <= j < OPTION_INDEX_MAX,
        params_outcome(votes, is_new_vote, power, stored, totals, i as nat).1 is None,
        param_touched(votes, is_new_vote, i),
        param_sum(votes, i) <= power,
        !total_update_in_range(
            tally_count(votes, i, j),
            prior_vote(is_new_vote, stored[vote_slot(i, j)]),
            totals[vote_slot(i, j)],
        ),
    ensures
        !updates_in_range(votes, is_new_vote, power, stored, totals),
{
}

/// Where the update stops at parameter `i` for want of power, it is in range
/// as soon as every parameter before `i` is.
proof fn lemma_in_range_after_refusal(
    votes: Seq<Vote>,
    is_new_vote: bool,
    power: nat,
    stored: Seq<nat>,
    totals: Seq<nat>,
    i: int,
)
    requires
        0 <= i < PARAMETER_INDEX_MAX,
        params_outcome(votes, is_new_vote, power, stored, totals, i as nat).1 is None,
        param_touched(votes, is_new_vote, i),
        param_sum(votes, i) > power,
        forall|i2: int, j: int|
            0 <= i2 < i && 0 <= j < OPTION_INDEX_MAX && param_touched(votes, is_new_vote, i2)
                && param_sum(votes, i2) <= power ==> #[trigger] total_update_in_range(
                tally_count(votes, i2, j),
                prior_vote(is_new_vote, stored[vote_slot(i2, j)]),
                totals[vote_slot(i2, j)],
            ),
    ensures
        updates_in_range(votes, is_new_vote, power, stored, totals),
{
    reveal_with_fuel(params_outcome, 3);
    assert forall|i2: int, j: int|
        0 <= i2 < PARAMETER_INDEX_MAX && 0 <= j < OPTION_INDEX_MAX && params_outcome(
            votes,
            is_new_vote,
            power,
            stored,
            totals,
            i2 as nat,
        ).1 is None && param_touched(votes, is_new_vote, i2) && param_sum(votes, i2) <= power
        implies #[trigger] total_update_in_range(
        tally_count(votes, i2, j),
        prior_vote(is_new_vote, stored[vote_slot(i2, j)]),
        totals[vote_slot(i2, j)],
    ) by {
        if i2 > i {
            assert(i == 0 && i2 == 1);
            assert(params_outcome(votes, is_new_vote, power, stored, totals, 1).1 == Some(0int));
        }
    }
}

/// Tells whether `cast_vote` can be called on these inputs.
pub fn check_cast_vote_in_range(
    version: u64,
    current_version: u64,
    old_version: U256,
    votes: &Vec<Vote>,
    vote_power: U256,
    stored: &Vec<U256>,
    totals: &Vec<U256>,
) -> (r: bool)
    requires
        stored@.len() == PARAMETER_INDEX_MAX * OPTION_INDEX_MAX,
        totals@.len() == PARAMETER_INDEX_MAX * OPTION_INDEX_MAX,
    ensures
        r == cast_vote_in_range(
            version,
            current_version,
            old_version@,
            votes@,
            vote_power@,
            values_view(stored@),
            values_view(totals@),
        ),
{
    if version != current_version {
        return true;
    }
    if u256_lt(U256::from_u64(u64::MAX), old_version) {
        return false;
    }
    let is_new_vote = !u256_eq(old_version, U256::from_u64(version));
    let tally = match tally_votes(votes, is_new_vote) {
        Ok(t) => t,
        Err(_) => {
            return true;
        },
    };
    let ghost sv = values_view(stored@);
    let ghost tv = values_view(totals@);
    let mut index: usize = 0;
    while index < PARAMETER_INDEX_MAX
        invariant
            index <= PARAMETER_INDEX_MAX,
            stored@.len() == 6,
            totals@.len() == 6,
            sv == values_view(stored@),
            tv == values_view(totals@),
            is_new_vote == (old_version@ != version),
            version == current_version,
            old_version@ <= u64::MAX,
            all_votes_in_range(votes@),
            tally.is_tally_of(votes@, is_new_vote),
            params_outcome(votes@, is_new_vote, vote_power@, sv, tv, index as nat).1 is None,
            forall|i: int, j: int|
                0 <= i < index && 0 <= j < OPTION_INDEX_MAX && param_touched(votes@, is_new_vote, i)
                    && param_sum(votes@, i) <= vote_power@ ==> #[trigger] total_update_in_range(
                    tally_count(votes@, i, j),
                    prior_vote(is_new_vote, sv[vote_slot(i, j)]),
                    tv[vote_slot(i, j)],
                ),
        decreases PARAMETER_INDEX_MAX - index,
    {
        let ghost i = index as int;
        assert(tally.touched@[i] == param_touched(votes@, is_new_vote, i));
        if tally.touched[index] {
            let base = index * 3;
            assert(tally.counts@[vote_slot(i, 0)]@ == tally_count(votes@, i, 0));
            assert(tally.counts@[vote_slot(i, 1)]@ == tally_count(votes@, i, 1));
            assert(tally.counts@[vote_slot(i, 2)]@ == tally_count(votes@, i, 2));
            let sum = u256_saturating_add(
                u256_saturating_add(tally.counts[base], tally.counts[base + 1]),
                tally.counts[base + 2],
            );
            proof {
                tally.counts@[vote_slot(i, 0)].lemma_bound();
                tally.counts@[vote_slot(i, 1)].lemma_bound();
                tally.counts@[vote_slot(i, 2)].lemma_bound();
            }
            if u256_lt(vote_power, sum) {
                proof {
                    lemma_in_range_after_refusal(votes@, is_new_vote, vote_power@, sv, tv, i);
                }
                return true;
            }
            let mut opt: usize = 0;
            while opt < OPTION_INDEX_MAX
                invariant
                    opt <= OPTION_INDEX_MAX,
                    index < PARAMETER_INDEX_MAX,
                    i == index as int,
                    base == index * 3,
                    stored@.len() == 6,
                    totals@.len() == 6,
                    sv == values_view(stored@),
                    tv == values_view(totals@),
                    tally.is_tally_of(votes@, is_new_vote),
                    is_new_vote == (old_version@ != version),
                    version == current_version,
                    old_version@ <= u64::MAX,
                    all_votes_in_range(votes@),
                    params_outcome(votes@, is_new_vote, vote_power@, sv, tv, index as nat).1 is None,
                    param_touched(votes@, is_new_vote, i),
                    param_sum(votes@, i) <= vote_power@,
                    forall|i2: int, j: int|
                        0 <= i2 < index && 0 <= j < OPTION_INDEX_MAX && param_touched(
                            votes@,
                            is_new_vote,
                            i2,
                        ) && param_sum(votes@, i2) <= vote_power@ ==> #[trigger] total_update_in_range(
                            tally_count(votes@, i2, j),
                            prior_vote(is_new_vote, sv[vote_slot(i2, j)]),
                            tv[vote_slot(i2, j)],
                        ),
                    forall|j: int|
                        0 <= j < opt ==> #[trigger] total_update_in_range(
                            tally_count(votes@, i, j),
                            prior_vote(is_new_vote, sv[vote_slot(i, j)]),
                            tv[vote_slot(i, j)],
                        ),
                decreases OPTION_INDEX_MAX - opt,
            {
                let slot = base + opt;
                assert(slot == vote_slot(i, opt as int));
                assert(tally.counts@[vote_slot(i, opt as int)]@ == tally_count(votes@, i, opt as int));
                let new_vote = tally.counts[slot];
                let old_vote = if is_new_vote {
                    U256::zero()
                } else {
                    stored[slot]
                };
                let total = totals[slot];
                proof {
                    new_vote.lemma_bound();
                    old_vote.lemma_bound();
                    total.lemma_bound();
                }
                if u256_lt(new_vote, old_vote) {
                    if u256_lt(total, u256_sub(old_vote, new_vote)) {
                        proof {
                            lemma_out_of_range(votes@, is_new_vote, vote_power@, sv, tv, i, opt as int);
                        }
                        return false;
                    }
                } else if u256_lt(old_vote, new_vote) {
                    if u256_lt(u256_sub(U256::max_value(), total), u256_sub(new_vote, old_vote)) {
                        proof {
                            lemma_out_of_range(votes@, is_new_vote, vote_power@, sv, tv, i, opt as int);
                        }
                        return false;
                    }
                }
                opt = opt + 1;
            }
        }
        index = index + 1;
    }
    true
}

/// The value that `target` holds after `writes`, where it held `initial`
/// before: that of the last write to it, or `initial` where none is.
pub open spec fn written_value(writes: Seq<(WriteTarget, nat)>, target: WriteTarget, initial: nat) -> nat
    decreases writes.len(),
{
    if writes.len() == 0 {
        initial
    } else if writes.last().0 == target {
        writes.last().1
    } else {
        written_value(writes.drop_last(), target, initial)
    }
}

/// Writes in sequence: the second batch starts from what the first left.
pub proof fn lemma_written_value_append(
    a: Seq<(WriteTarget, nat)>,
    b: Seq<(WriteTarget, nat)>,
    target: WriteTarget,
    initial: nat,
)
    ensures
        written_value(a + b, target, initial) == written_value(b, target, written_value(a, target, initial)),
    decreases b.len(),
{
    if b.len() == 0 {
        assert(a + b =~= a);
    } else {
        assert((a + b).drop_last() =~= a + b.drop_last());
        lemma_written_value_append(a, b.drop_last(), target, initial);
    }
}

/// What the writes of option `j` of parameter `i` leave in the account's
/// vote and in the total of option `oj` of parameter `oi`.
proof fn lemma_option_writes_effect(
    votes: Seq<Vote>,
    is_new_vote: bool,
    stored: Seq<nat>,
    totals: Seq<nat>,
    i: int,
    j: int,
    oi: int,
    oj: int,
    initial: nat,
)
    requires
        0 <= i < PARAMETER_INDEX_MAX,
        0 <= j < OPTION_INDEX_MAX,
        0 <= oi < PARAMETER_INDEX_MAX,
        0 <= oj < OPTION_INDEX_MAX,
    ensures
        ({
            let w = option_writes(votes, is_new_vote, stored, totals, i, j);
            let ta = WriteTarget::AccountVote { index: oi as usize, opt_index: oj as usize };
            let tt = WriteTarget::TotalVotes { index: oi as usize, opt_index: oj as usize };
            let slot = vote_slot(i, j);
            let new_vote = tally_count(votes, i, j);
            let old_vote = prior_vote(is_new_vote, stored[slot]);
            &&& written_value(w, WriteTarget::Version, initial) == initial
            &&& (oi != i || oj != j) ==> written_value(w, ta, initial) == initial
            &&& (oi != i || oj != j) ==> written_value(w, tt, initial) == initial
            &&& (oi == i && oj == j && initial == stored[slot]) ==> written_value(w, ta, initial)
                == new_vote
            &&& (oi == i && oj == j && initial == totals[slot]) ==> written_value(w, tt, initial)
                == (totals[slot] + new_vote - old_vote) as nat
        }),
{
    reveal_with_fuel(written_value, 3);
    let w = option_writes(votes, is_new_vote, stored, totals, i, j);
    let slot = vote_slot(i, j);
    let new_vote = tally_count(votes, i, j);
    let old_vote = prior_vote(is_new_vote, stored[slot]);
    let target_total = WriteTarget::TotalVotes { index: i as usize, opt_index: j as usize };
    let target_account = WriteTarget::AccountVote { index: i as usize, opt_index: j as usize };
    let first: Seq<(WriteTarget, nat)> = if new_vote != old_vote {
        seq![(target_total, (totals[slot] + new_vote - old_vote) as nat)]
    } else {
        Seq::empty()
    };
    let second: Seq<(WriteTarget, nat)> = if new_vote != stored[slot] {
        seq![(target_account, new_vote)]
    } else {
        Seq::empty()
    };
    assert(w == first + second);
    let ta = WriteTarget::AccountVote { index: oi as usize, opt_index: oj as usize };
    let tt = WriteTarget::TotalVotes { index: oi as usize, opt_index: oj as usize };
    lemma_written_value_append(first, second, ta, initial);
    lemma_written_value_append(first, second, tt, initial);
    lemma_written_value_append(first, second, WriteTarget::Version, initial);
    if oi != i || oj != j {
        assert(ta != target_account);
        assert(tt != target_total);
    }
}

/// What the writes of parameter `i` leave in the account's vote and in the
/// total of option `oj` of parameter `oi`.
proof fn lemma_param_writes_effect(
    votes: Seq<Vote>,
    is_new_vote: bool,
    stored: Seq<nat>,
    totals: Seq<nat>,
    i: int,
    oi: int,
    oj: int,
    initial: nat,
)
    requires
        0 <= i < PARAMETER_INDEX_MAX,
        0 <= oi < PARAMETER_INDEX_MAX,
        0 <= oj < OPTION_INDEX_MAX,
    ensures
        ({
            let w = param_writes(votes, is_new_vote, stored, totals, i);
            let ta = WriteTarget::AccountVote { index: oi as usize, opt_index: oj as usize };
            let tt = WriteTarget::TotalVotes { index: oi as usize, opt_index: oj as usize };
            let slot = vote_slot(i, oj);
            let new_vote = tally_count(votes, i, oj);
            let old_vote = prior_vote(is_new_vote, stored[slot]);
            &&& written_value(w, WriteTarget::Version, initial) == initial
            &&& oi != i ==> written_value(w, ta, initial) == initial
            &&& oi != i ==> written_value(w, tt, initial) == initial
            &&& (oi == i && initial == stored[slot]) ==> written_value(w, ta, initial) == new_vote
            &&& (oi == i && initial == totals[slot]) ==> written_value(w, tt, initial) == (totals[slot]
                + new_vote - old_vote) as nat
        }),
{
    let w0 = option_writes(votes, is_new_vote, stored, totals, i, 0);
    let w1 = option_writes(votes, is_new_vote, stored, totals, i, 1);
    let w2 = option_writes(votes, is_new_vote, stored, totals, i, 2);
    let ta = WriteTarget::AccountVote { index: oi as usize, opt_index: oj as usize };
    let tt = WriteTarget::TotalVotes { index: oi as usize, opt_index: oj as usize };
    let targets = seq![ta, tt, WriteTarget::Version];
    assert forall|k: int| 0 <= k < 3 implies {
        let t = #[trigger] targets[k];
        written_value(w0 + w1 + w2, t, initial) == written_value(
            w2,
            t,
            written_value(w1, t, written_value(w0, t, initial)),
        )
    } by {
        let t = targets[k];
        lemma_written_value_append(w0 + w1, w2, t, initial);
        lemma_written_value_append(w0, w1, t, initial);
    }
    assert(targets[0] == ta);
    assert(targets[1] == tt);
    assert(targets[2] == WriteTarget::Version);
    lemma_option_writes_effect(votes, is_new_vote, stored, totals, i, 0, oi, oj, initial);
    lemma_option_writes_effect(votes, is_new_vote, stored, totals, i, 1, oi, oj, initial);
    lemma_option_writes_effect(votes, is_new_vote, stored, totals, i, 2, oi, oj, initial);
    let v0a = written_value(w0, ta, initial);
    let v1a = written_value(w1, ta, v0a);
    let v0t = written_value(w0, tt, initial);
    let v1t = written_value(w1, tt, v0t);
    lemma_option_writes_effect(votes, is_new_vote, stored, totals, i, 1, oi, oj, v0a);
    lemma_option_writes_effect(votes, is_new_vote, stored, totals, i, 2, oi, oj, v1a);
    lemma_option_writes_effect(votes, is_new_vote, stored, totals, i, 1, oi, oj, v0t);
    lemma_option_writes_effect(votes, is_new_vote, stored, totals, i, 2, oi, oj, v1t);
}

/// The account's vote for option `j` of parameter `i` after a successful cast:
/// the tally where the parameter took part, else what storage held.
pub open spec fn account_vote_after(
    votes: Seq<Vote>,
    is_new_vote: bool,
    stored: Seq<nat>,
    i: int,
    j: int,
) -> nat {
    if param_touched(votes, is_new_vote, i) {
        tally_count(votes, i, j)
    } else {
        stored[vote_slot(i, j)]
    }
}

/// The total for option `j` of parameter `i` after a successful cast: moved by
/// the change of the account's vote where the parameter took part.
pub open spec fn total_votes_after(
    votes: Seq<Vote>,
    is_new_vote: bool,
    stored: Seq<nat>,
    totals: Seq<nat>,
    i: int,
    j: int,
) -> nat {
    let slot = vote_slot(i, j);
    if param_touched(votes, is_new_vote, i) {
        (totals[slot] + tally_count(votes, i, j) - prior_vote(is_new_vote, stored[slot])) as nat
    } else {
        totals[slot]
    }
}

/// A successful cast stores the tallied votes as the account's votes, moves
/// each total by exactly the change of the account's vote, and touches
/// nothing of a parameter that takes no part.
pub proof fn law_cast_vote_stores_tally(
    votes: Seq<Vote>,
    is_new_vote: bool,
    power: nat,
    stored: Seq<nat>,
    totals: Seq<nat>,
    i: int,
    j: int,
)
    requires
        stored.len() == PARAMETER_INDEX_MAX * OPTION_INDEX_MAX,
        totals.len() == PARAMETER_INDEX_MAX * OPTION_INDEX_MAX,
        params_outcome(votes, is_new_vote, power, stored, totals, PARAMETER_INDEX_MAX as nat).1 is None,
        0 <= i < PARAMETER_INDEX_MAX,
        0 <= j < OPTION_INDEX_MAX,
    ensures
        ({
            let writes = params_outcome(
                votes,
                is_new_vote,
                power,
                stored,
                totals,
                PARAMETER_INDEX_MAX as nat,
            ).0;
            let slot = vote_slot(i, j);
            &&& written_value(
                writes,
                WriteTarget::AccountVote { index: i as usize, opt_index: j as usize },
                stored[slot],
            ) == account_vote_after(votes, is_new_vote, stored, i, j)
            &&& written_value(
                writes,
                WriteTarget::TotalVotes { index: i as usize, opt_index: j as usize },
                totals[slot],
            ) == total_votes_after(votes, is_new_vote, stored, totals, i, j)
        }),
{
    reveal_with_fuel(params_outcome, 3);
    reveal_with_fuel(written_value, 1);
    let ta = WriteTarget::AccountVote { index: i as usize, opt_index: j as usize };
    let tt = WriteTarget::TotalVotes { index: i as usize, opt_index: j as usize };
    let slot = vote_slot(i, j);
    let w0: Seq<(WriteTarget, nat)> = if param_touched(votes, is_new_vote, 0) {
        param_writes(votes, is_new_vote, stored, totals, 0)
    } else {
        Seq::empty()
    };
    let w1: Seq<(WriteTarget, nat)> = if param_touched(votes, is_new_vote, 1) {
        param_writes(votes, is_new_vote, stored, totals, 1)
    } else {
        Seq::empty()
    };
    let writes = params_outcome(votes, is_new_vote, power, stored, totals, 2).0;
    assert(params_outcome(votes, is_new_vote, power, stored, totals, 1).1 is None);
    assert(params_outcome(votes, is_new_vote, power, stored, totals, 1).0 =~= Seq::empty() + w0);
    assert(writes =~= Seq::empty() + w0 + w1);
    assert(Seq::<(WriteTarget, nat)>::empty() + w0 =~= w0);
    lemma_written_value_append(w0, w1, ta, stored[slot]);
    lemma_written_value_append(w0, w1, tt, totals[slot]);
    lemma_param_writes_effect(votes, is_new_vote, stored, totals, 0, i, j, stored[slot]);
    lemma_param_writes_effect(votes, is_new_vote, stored, totals, 0, i, j, totals[slot]);
    let a0 = written_value(w0, ta, stored[slot]);
    let t0 = written_value(w0, tt, totals[slot]);
    lemma_param_writes_effect(votes, is_new_vote, stored, totals, 1, i, j, a0);
    lemma_param_writes_effect(votes, is_new_vote, stored, totals, 1, i, j, t0);
    if i == 0 {
        if param_touched(votes, is_new_vote, 0) {
            assert(a0 == tally_count(votes, i, j));
        } else {
            assert(a0 == stored[slot]);
            assert(t0 == totals[slot]);
        }
        assert(written_value(w1, ta, a0) == a0);
        assert(written_value(w1, tt, t0) == t0);
    } else {
        assert(a0 == stored[slot]);
        assert(t0 == totals[slot]);
        if !param_touched(votes, is_new_vote, 1) {
            assert(written_value(w1, ta, a0) == a0);
            assert(written_value(w1, tt, t0) == t0);
        }
    }
}

/// A vote as parameter, option and count.
pub open spec fn vote_view(vote: Vote) -> (int, int, nat) {
    (vote.index as int, vote.opt_index as int, vote.votes@)
}

/// The nonzero entries among the first `n` slots of an account's stored
/// votes, in slot order, each as parameter, option and count.
pub open spec fn listed_votes(stored: Seq<nat>, n: int) -> Seq<(int, int, nat)>
    decreases n,
{
    if n <= 0 {
        Seq::empty()
    } else {
        let prev = listed_votes(stored, n - 1);
        let slot = n - 1;
        if stored[slot] != 0 {
            prev.push((slot / 3, slot % 3, stored[slot]))
        } else {
            prev
        }
    }
}

/// The position of a listed entry.
pub open spec fn listed_slot(entry: (int, int, nat)) -> int {
    entry.0 * 3 + entry.1
}

/// The listing holds every nonzero slot once, in slot order, each with the
/// exact count the slot holds.
pub proof fn law_listed_votes_are_the_nonzero_slots(stored: Seq<nat>, n: int)
    requires
        0 <= n <= stored.len(),
    ensures
        ({
            let l = listed_votes(stored, n);
            &&& forall|k: int|
                0 <= k < l.len() ==> {
                    &&& 0 <= (#[trigger] l[k]).0
                    &&& 0 <= l[k].1 < 3
                    &&& listed_slot(l[k]) < n
                    &&& l[k].2 == stored[listed_slot(l[k])]
                    &&& l[k].2 != 0
                }
            &&& forall|k1: int, k2: int|
                0 <= k1 < k2 < l.len() ==> listed_slot(#[trigger] l[k1]) < listed_slot(#[trigger] l[k2])
            &&& forall|t: int|
                0 <= t < n && #[trigger] stored[t] != 0 ==> exists|k: int|
                    0 <= k < l.len() && listed_slot(#[trigger] l[k]) == t
        }),
    decreases n,
{
    if n > 0 {
        law_listed_votes_are_the_nonzero_slots(stored, n - 1);
        let prev = listed_votes(stored, n - 1);
        let l = listed_votes(stored, n);
        let t = n - 1;
        if stored[t] != 0 {
            assert(l == prev.push((t / 3, t % 3, stored[t])));
            assert(listed_slot(l[prev.len() as int]) == t);
            assert forall|u: int| 0 <= u < n && #[trigger] stored[u] != 0 implies exists|k: int|
                0 <= k < l.len() && listed_slot(#[trigger] l[k]) == u by {
                if u < t {
                    let k = choose|k: int| 0 <= k < prev.len() && listed_slot(#[trigger] prev[k]) == u;
                    assert(l[k] == prev[k]);
                } else {
                    assert(listed_slot(l[prev.len() as int]) == u);
                }
            }
            assert forall|k1: int, k2: int|
                0 <= k1 < k2 < l.len() implies listed_slot(#[trigger] l[k1]) < listed_slot(#[trigger] l[k2]) by {
                assert(l[k1] == prev[k1]);
                if k2 < prev.len() {
                    assert(l[k2] == prev[k2]);
                }
            }
            assert forall|k: int| 0 <= k < l.len() implies {
                &&& 0 <= (#[trigger] l[k]).0
                &&& 0 <= l[k].1 < 3
                &&& listed_slot(l[k]) < n
                &&& l[k].2 == stored[listed_slot(l[k])]
                &&& l[k].2 != 0
            } by {
                if k < prev.len() {
                    assert(l[k] == prev[k]);
                }
            }
        } else {
            assert forall|u: int| 0 <= u < n && #[trigger] stored[u] != 0 implies exists|k: int|
                0 <= k < l.len() && listed_slot(#[trigger] l[k]) == u by {
                assert(u < t);
            }
        }
    }
}

/// The account's votes as storage holds them (`stored`, laid out by
/// `vote_slot`): every nonzero entry, parameter by parameter and option by
/// option.
pub fn read_vote(stored: &Vec<U256>) -> (r: Vec<Vote>)
    requires
        stored@.len() == PARAMETER_INDEX_MAX * OPTION_INDEX_MAX,
    ensures
        r@.map_values(|v: Vote| vote_view(v)) == listed_votes(
            values_view(stored@),
            (PARAMETER_INDEX_MAX * OPTION_INDEX_MAX) as int,
        ),
        forall|k: int|
            0 <= k < r@.len() ==> {
                &&& ((#[trigger] r@[k]).index as int) < PARAMETER_INDEX_MAX
                &&& (r@[k].opt_index as int) < OPTION_INDEX_MAX
                &&& r@[k].votes@ == stored@[r@[k].index * 3 + r@[k].opt_index]@
                &&& r@[k].votes@ != 0
            },
        forall|k1: int, k2: int|
            0 <= k1 < k2 < r@.len() ==> (#[trigger] r@[k1]).index * 3 + r@[k1].opt_index < (
            #[trigger] r@[k2]).index * 3 + r@[k2].opt_index,
        forall|i: int, j: int|
            0 <= i < PARAMETER_INDEX_MAX && 0 <= j < OPTION_INDEX_MAX && (#[trigger] stored@[i * 3
                + j])@ != 0 ==> exists|k: int|
                0 <= k < r@.len() && (#[trigger] r@[k]).index == i && r@[k].opt_index == j,
{
    let ghost sv = values_view(stored@);
    let mut votes_list: Vec<Vote> = Vec::new();
    let mut index: usize = 0;
    while index < PARAMETER_INDEX_MAX
        invariant
            index <= PARAMETER_INDEX_MAX,
            stored@.len() == 6,
            sv == values_view(stored@),
            votes_list@.map_values(|v: Vote| vote_view(v)) == listed_votes(sv, index * 3),
        decreases PARAMETER_INDEX_MAX - index,
    {
        let mut opt_index: usize = 0;
        while opt_index < OPTION_INDEX_MAX
            invariant
                index < PARAMETER_INDEX_MAX,
                opt_index <= OPTION_INDEX_MAX,
                stored@.len() == 6,
                sv == values_view(stored@),
                votes_list@.map_values(|v: Vote| vote_view(v)) == listed_votes(
                    sv,
                    index * 3 + opt_index,
                ),
            decreases OPTION_INDEX_MAX - opt_index,
        {
            let slot = index * 3 + opt_index;
            let votes = stored[slot];
            let ghost before = votes_list@;
            if !u256_eq(votes, U256::zero()) {
                let vote = Vote { index: index as u16, opt_index: opt_index as u16, votes };
                votes_list.push(vote);
                assert(votes_list@.map_values(|v: Vote| vote_view(v)) =~= before.map_values(
                    |v: Vote| vote_view(v),
                ).push(vote_view(vote)));
            }
            assert(slot as int / 3 == index as int && slot as int % 3 == opt_index as int);
            opt_index = opt_index + 1;
        }
        index = index + 1;
    }
    proof {
        let l = listed_votes(sv, 6);
        let rv = votes_list@.map_values(|v: Vote| vote_view(v));
        law_listed_votes_are_the_nonzero_slots(sv, 6);
        assert forall|k: int| 0 <= k < votes_list@.len() implies vote_view(#[trigger] votes_list@[k])
            == l[k] by {
            assert(rv[k] == vote_view(votes_list@[k]));
        }
        assert forall|k: int| 0 <= k < votes_list@.len() implies {
            &&& ((#[trigger] votes_list@[k]).index as int) < PARAMETER_INDEX_MAX
            &&& (votes_list@[k].opt_index as int) < OPTION_INDEX_MAX
            &&& votes_list@[k].votes@ == stored@[votes_list@[k].index * 3 + votes_list@[k].opt_index]@
            &&& votes_list@[k].votes@ != 0
        } by {
            assert(vote_view(votes_list@[k]) == l[k]);
            assert(0 <= l[k].0 && 0 <= l[k].1 < 3 && listed_slot(l[k]) < 6);
        }
        assert forall|k1: int, k2: int| 0 <= k1 < k2 < votes_list@.len() implies (
        #[trigger] votes_list@[k1]).index * 3 + votes_list@[k1].opt_index < (
        #[trigger] votes_list@[k2]).index * 3 + votes_list@[k2].opt_index by {
            assert(vote_view(votes_list@[k1]) == l[k1]);
            assert(vote_view(votes_list@[k2]) == l[k2]);
            assert(listed_slot(l[k1]) < listed_slot(l[k2]));
        }
        assert forall|i: int, j: int|
            0 <= i < PARAMETER_INDEX_MAX && 0 <= j < OPTION_INDEX_MAX && (#[trigger] stored@[i * 3
                + j])@ != 0 implies exists|k: int|
            0 <= k < votes_list@.len() && (#[trigger] votes_list@[k]).index == i
                && votes_list@[k].opt_index == j by {
            let t = i * 3 + j;
            assert(sv[t] == stored@[t]@);
            assert(sv[t] != 0);
            let k = choose|k: int| 0 <= k < l.len() && listed_slot(#[trigger] l[k]) == t;
            assert(vote_view(votes_list@[k]) == l[k]);
            assert(0 <= l[k].1 < 3);
            assert(l[k].0 == i && l[k].1 == j);
        }
    }
    votes_list
}

/// The settled counts of both parameters, from the settled totals laid out by
/// `vote_slot`.
pub fn settled_param_vote_count(settled: &Vec<U256>) -> (r: AllParamsVoteCount)
    requires
        settled@.len() == PARAMETER_INDEX_MAX * OPTION_INDEX_MAX,
    ensures
        ({
            let s = values_view(settled@);
            let pow = POW_BASE_REWARD_INDEX as int;
            let pos = POS_REWARD_INTEREST_RATE_INDEX as int;
            let (u, i, d) = (
                OPTION_UNCHANGE_INDEX as int,
                OPTION_INCREASE_INDEX as int,
                OPTION_DECREASE_INDEX as int,
            );
            &&& r.pow_base_reward.unchange_votes() == s[vote_slot(pow, u)]
            &&& r.pow_base_reward.increase_votes() == s[vote_slot(pow, i)]
            &&& r.pow_base_reward.decrease_votes() == s[vote_slot(pow, d)]
            &&& r.pos_reward_interest.unchange_votes() == s[vote_slot(pos, u)]
            &&& r.pos_reward_interest.increase_votes() == s[vote_slot(pos, i)]
            &&& r.pos_reward_interest.decrease_votes() == s[vote_slot(pos, d)]
        }),
{
    let pow = POW_BASE_REWARD_INDEX as usize * 3;
    let pos = POS_REWARD_INTEREST_RATE_INDEX as usize * 3;
    let u = OPTION_UNCHANGE_INDEX as usize;
    let i = OPTION_INCREASE_INDEX as usize;
    let d = OPTION_DECREASE_INDEX as usize;
    let pow_base_reward = ParamVoteCount::new(settled[pow + u], settled[pow + i], settled[pow + d]);
    let pos_reward_interest = ParamVoteCount::new(settled[pos + u], settled[pos + i], settled[pos + d]);
    AllParamsVoteCount { pow_base_reward, pos_reward_interest }
}

/// Reading the votes back after a successful cast lists the tallied votes of
/// every parameter that took part (and the stored ones of the others), in
/// slot order, leaving out zeros.
pub proof fn law_read_vote_after_cast(
    votes: Seq<Vote>,
    is_new_vote: bool,
    power: nat,
    stored: Seq<nat>,
    totals: Seq<nat>,
)
    requires
        stored.len() == PARAMETER_INDEX_MAX * OPTION_INDEX_MAX,
        totals.len() == PARAMETER_INDEX_MAX * OPTION_INDEX_MAX,
        params_outcome(votes, is_new_vote, power, stored, totals, PARAMETER_INDEX_MAX as nat).1 is None,
    ensures
        ({
            let writes = params_outcome(
                votes,
                is_new_vote,
                power,
                stored,
                totals,
                PARAMETER_INDEX_MAX as nat,
            ).0;
            let after = Seq::new(
                6,
                |s: int|
                    written_value(
                        writes,
                        WriteTarget::AccountVote { index: (s / 3) as usize, opt_index: (s % 3) as usize },
                        stored[s],
                    ),
            );
            let expected = Seq::new(
                6,
                |s: int| account_vote_after(votes, is_new_vote, stored, s / 3, s % 3),
            );
            listed_votes(after, 6) == listed_votes(expected, 6)
        }),
{
    let writes = params_outcome(votes, is_new_vote, power, stored, totals, 2).0;
    let after = Seq::new(
        6,
        |s: int|
            written_value(
                writes,
                WriteTarget::AccountVote { index: (s / 3) as usize, opt_index: (s % 3) as usize },
                stored[s],
            ),
    );
    let expected = Seq::new(6, |s: int| account_vote_after(votes, is_new_vote, stored, s / 3, s % 3));
    assert forall|s: int| 0 <= s < 6 implies #[trigger] after[s] == expected[s] by {
        law_cast_vote_stores_tally(votes, is_new_vote, power, stored, totals, s / 3, s % 3);
        assert(vote_slot(s / 3, s % 3) == s);
    }
    assert(after =~= expected);
}

/// The exact sum of the votes for option `opt_index` of parameter `index`.
pub open spec fn exact_count(votes: Seq<Vote>, index: int, opt_index: int) -> nat
    decreases votes.len(),
{
    if votes.len() == 0 {
        0
    } else {
        let prev = exact_count(votes.drop_last(), index, opt_index);
        let v = votes.last();
        if v.index == index && v.opt_index == opt_index {
            prev + v.votes@
        } else {
            prev
        }
    }
}

/// Summing with saturation in order gives the exact sum capped at
/// 2^256 - 1, so the order of the votes does not matter.
pub proof fn law_tally_is_capped_sum(votes: Seq<Vote>, index: int, opt_index: int)
    ensures
        tally_count(votes, index, opt_index) == if exact_count(votes, index, opt_index) > u256_max() {
            u256_max()
        } else {
            exact_count(votes, index, opt_index)
        },
    decreases votes.len(),
{
    if votes.len() > 0 {
        law_tally_is_capped_sum(votes.drop_last(), index, opt_index);
    }
}

/// A successful cast never lets the votes on a parameter that takes part
/// exceed the account's power.
pub proof fn law_successful_cast_within_power(
    votes: Seq<Vote>,
    is_new_vote: bool,
    power: nat,
    stored: Seq<nat>,
    totals: Seq<nat>,
    i: int,
)
    requires
        params_outcome(votes, is_new_vote, power, stored, totals, PARAMETER_INDEX_MAX as nat).1 is None,
        0 <= i < PARAMETER_INDEX_MAX,
        param_touched(votes, is_new_vote, i),
    ensures
        param_sum(votes, i) <= power,
{
    reveal_with_fuel(params_outcome, 3);
}

/// A number capped at 2^256 - 1.
pub open spec fn capped(x: nat) -> nat {
    if x > u256_max() {
        u256_max()
    } else {
        x
    }
}

/// Adding capped numbers with saturation gives the capped exact sum.
proof fn lemma_saturating_sum_of_capped(a: nat, b: nat, c: nat)
    ensures
        saturating_sum(saturating_sum(capped(a), capped(b)), capped(c)) == capped(a + b + c),
{
}

/// The votes of a parameter as the power check sees them: the exact sum over
/// its three options of all votes naming it, capped at 2^256 - 1.
proof fn lemma_param_sum_is_capped_total(votes: Seq<Vote>, i: int)
    ensures
        param_sum(votes, i) == capped(
            exact_count(votes, i, 0) + exact_count(votes, i, 1) + exact_count(votes, i, 2),
        ),
{
    law_tally_is_capped_sum(votes, i, 0);
    law_tally_is_capped_sum(votes, i, 1);
    law_tally_is_capped_sum(votes, i, 2);
    lemma_saturating_sum_of_capped(
        exact_count(votes, i, 0),
        exact_count(votes, i, 1),
        exact_count(votes, i, 2),
    );
}

/// A cast (of votes that all name existing options) succeeds exactly when,
/// on every parameter that takes part (all of them in the account's first
/// vote of the period, else those some vote names, whatever its count), the
/// votes for all three options together, capped at 2^256 - 1, stay within
/// the account's power.
pub proof fn law_cast_succeeds_iff_within_power(
    votes: Seq<Vote>,
    is_new_vote: bool,
    power: nat,
    stored: Seq<nat>,
    totals: Seq<nat>,
)
    ensures
        params_outcome(votes, is_new_vote, power, stored, totals, PARAMETER_INDEX_MAX as nat).1 is None
            <==> forall|i: int|
            #![trigger exact_count(votes, i, 0)]
            0 <= i < PARAMETER_INDEX_MAX && (is_new_vote || exists|k: int|
                0 <= k < votes.len() && (#[trigger] votes[k]).index == i) ==> capped(
                exact_count(votes, i, 0) + exact_count(votes, i, 1) + exact_count(votes, i, 2),
            ) <= power,
{
    reveal_with_fuel(params_outcome, 3);
    lemma_param_sum_is_capped_total(votes, 0);
    lemma_param_sum_is_capped_total(votes, 1);
    let ok = params_outcome(votes, is_new_vote, power, stored, totals, 2).1 is None;
    let within = forall|i: int|
        #![trigger exact_count(votes, i, 0)]
        0 <= i < PARAMETER_INDEX_MAX && (is_new_vote || exists|k: int|
            0 <= k < votes.len() && (#[trigger] votes[k]).index == i) ==> capped(
            exact_count(votes, i, 0) + exact_count(votes, i, 1) + exact_count(votes, i, 2),
        ) <= power;
    if ok {
        assert forall|i: int|
            #![trigger exact_count(votes, i, 0)]
            0 <= i < PARAMETER_INDEX_MAX && (is_new_vote || exists|k: int|
                0 <= k < votes.len() && (#[trigger] votes[k]).index == i) implies capped(
            exact_count(votes, i, 0) + exact_count(votes, i, 1) + exact_count(votes, i, 2),
        ) <= power by {
            assert(param_touched(votes, is_new_vote, i));
            law_successful_cast_within_power(votes, is_new_vote, power, stored, totals, i);
            lemma_param_sum_is_capped_total(votes, i);
        }
    }
    if within {
        if param_touched(votes, is_new_vote, 0) {
            assert(exact_count(votes, 0, 0) == exact_count(votes, 0, 0));
        }
        if param_touched(votes, is_new_vote, 1) {
            assert(exact_count(votes, 1, 0) == exact_count(votes, 1, 0));
        }
    }
}

/// After a successful cast, on every parameter that some vote names (or on
/// every parameter in the account's first vote of the period) the account's
/// vote for each option is the exact sum of the votes for it, capped at
/// 2^256 - 1, and the option's total has moved from the account's earlier
/// vote (nothing in a first vote) to that sum; on any other parameter both
/// stay as storage held them.
pub proof fn law_cast_vote_records_votes(
    votes: Seq<Vote>,
    is_new_vote: bool,
    power: nat,
    stored: Seq<nat>,
    totals: Seq<nat>,
    i: int,
    j: int,
)
    requires
        stored.len() == PARAMETER_INDEX_MAX * OPTION_INDEX_MAX,
        totals.len() == PARAMETER_INDEX_MAX * OPTION_INDEX_MAX,
        params_outcome(votes, is_new_vote, power, stored, totals, PARAMETER_INDEX_MAX as nat).1 is None,
        updates_in_range(votes, is_new_vote, power, stored, totals),
        0 <= i < PARAMETER_INDEX_MAX,
        0 <= j < OPTION_INDEX_MAX,
    ensures
        ({
            let writes = params_outcome(
                votes,
                is_new_vote,
                power,
                stored,
                totals,
                PARAMETER_INDEX_MAX as nat,
            ).0;
            let slot = i * 3 + j;
            let account = written_value(
                writes,
                WriteTarget::AccountVote { index: i as usize, opt_index: j as usize },
                stored[slot],
            );
            let total = written_value(
                writes,
                WriteTarget::TotalVotes { index: i as usize, opt_index: j as usize },
                totals[slot],
            );
            let earlier = if is_new_vote {
                0
            } else {
                stored[slot]
            };
            let takes_part = is_new_vote || exists|k: int|
                0 <= k < votes.len() && (#[trigger] votes[k]).index == i;
            &&& takes_part ==> account == capped(exact_count(votes, i, j))
            &&& takes_part ==> total + earlier == totals[slot] + capped(exact_count(votes, i, j))
            &&& !takes_part ==> account == stored[slot] && total == totals[slot]
        }),
{
    law_cast_vote_stores_tally(votes, is_new_vote, power, stored, totals, i, j);
    law_tally_is_capped_sum(votes, i, j);
    if param_touched(votes, is_new_vote, i) {
        assert(param_sum(votes, i) <= power) by {
            law_successful_cast_within_power(votes, is_new_vote, power, stored, totals, i);
        }
        reveal_with_fuel(params_outcome, 3);
        assert(params_outcome(votes, is_new_vote, power, stored, totals, i as nat).1 is None);
        assert(total_update_in_range(
            tally_count(votes, i, j),
            prior_vote(is_new_vote, stored[vote_slot(i, j)]),
            totals[vote_slot(i, j)],
        ));
    }
}

/// The total that the three options of one parameter add up to.
pub open spec fn vote_total(unchange: nat, increase: nat, decrease: nat) -> nat {
    unchange + increase + decrease
}

/// Each "unchange" vote weighs 1, each "increase" vote 2 and each "decrease"
/// vote 1/2 (the sum of decrease votes is halved, rounding down).
pub open spec fn weighted_total(unchange: nat, increase: nat, decrease: nat) -> nat {
    unchange + 2 * increase + decrease / 2
}

/// The next value of a parameter: unchanged where nobody voted, and otherwise
/// the old value scaled by the weighted total over the total, rounded down.
pub open spec fn next_param_value(old: nat, unchange: nat, increase: nat, decrease: nat) -> nat {
    let total = vote_total(unchange, increase, decrease);
    if total == 0 {
        old
    } else {
        old * weighted_total(unchange, increase, decrease) / total
    }
}

/// The settled vote counts of one parameter.
#[derive(Clone, Copy, Debug, PartialEq, Eq)]
pub struct ParamVoteCount {
    unchange: U256,
    increase: U256,
    decrease: U256,
}

/// The settled vote counts of both governed parameters.
#[derive(Clone, Copy, Debug, PartialEq, Eq)]
pub struct AllParamsVoteCount {
    pub pow_base_reward: ParamVoteCount,
    pub pos_reward_interest: ParamVoteCount,
}

impl ParamVoteCount {
    pub closed spec fn unchange_votes(&self) -> nat {
        self.unchange@
    }

    pub closed spec fn increase_votes(&self) -> nat {
        self.increase@
    }

    pub closed spec fn decrease_votes(&self) -> nat {
        self.decrease@
    }

    /// No step of the computation of the next value leaves 256 bits: the
    /// total, the weighted total (where the total is not zero) and the scaled
    /// value all fit.
    pub open spec fn next_params_in_range(&self, old_value: nat) -> bool {
        let (u, i, d) = (self.unchange_votes(), self.increase_votes(), self.decrease_votes());
        &&& vote_total(u, i, d) <= u256_max()
        &&& vote_total(u, i, d) != 0 ==> {
            &&& weighted_total(u, i, d) <= u256_max()
            &&& next_param_value(old_value, u, i, d) <= u256_max()
        }
    }

    pub fn new(unchange: U256, increase: U256, decrease: U256) -> (r: Self)
        ensures
            r.unchange_votes() == unchange@,
            r.increase_votes() == increase@,
            r.decrease_votes() == decrease@,
    {
        Self { unchange, increase, decrease }
    }

    pub fn unchange(&self) -> (r: U256)
        ensures
            r@ == self.unchange_votes(),
    {
        self.unchange
    }

    pub fn increase(&self) -> (r: U256)
        ensures
            r@ == self.increase_votes(),
    {
        self.increase
    }

    pub fn decrease(&self) -> (r: U256)
        ensures
            r@ == self.decrease_votes(),
    {
        self.decrease
    }

    /// The parameter value that follows `old_value` under these votes.
    pub fn compute_next_params(&self, old_value: U256) -> (r: U256)
        requires
            self.next_params_in_range(old_value@),
        ensures
            r@ == next_param_value(
                old_value@,
                self.unchange_votes(),
                self.increase_votes(),
                self.decrease_votes(),
            ),
    {
        let total = u256_add(u256_add(self.unchange, self.increase), self.decrease);
        if u256_eq(total, U256::zero()) {
            return old_value;
        }
        let weighted = u256_add(
            u256_add(self.unchange, u256_mul_u64(self.increase, 2)),
            u256_div_u64(self.decrease, 2),
        );
        proof {
            old_value.lemma_bound();
            weighted.lemma_bound();
            lemma_u256_product_fits(old_value@, weighted@);
        }
        let product = u512_mul(u512_from_u256(old_value), u512_from_u256(weighted));
        let new_value = u512_div(product, u512_from_u256(total));
        match u256_try_from_u512(new_value) {
            Ok(v) => v,
            Err(_) => {
                proof {
                    assert(false);
                }
                U256::zero()
            },
        }
    }
}

/// The product of two 256-bit values fits in 512 bits.
pub proof fn lemma_u256_product_fits(a: nat, b: nat)
    requires
        a <= u256_max(),
        b <= u256_max(),
    ensures
        a * b < u512_modulus(),
{
    let m = u256_modulus();
    assert(a * b < m * m) by (nonlinear_arith)
        requires
            a < m,
            b < m,
            0 <= a,
            0 <= b,
    ;
}


/// Where nobody voted, the parameter keeps its value.
pub proof fn law_no_votes_keeps_value(old: nat)
    ensures
        next_param_value(old, 0, 0, 0) == old,
{
}

/// Where every vote is for "unchange", the parameter keeps its value.
pub proof fn law_unchange_votes_keep_value(old: nat, unchange: nat)
    requires
        unchange > 0,
    ensures
        next_param_value(old, unchange, 0, 0) == old,
{
    assert(old * unchange / unchange == old) by (nonlinear_arith)
        requires
            unchange > 0,
    ;
}

/// Where every vote is for "increase", the parameter doubles.
pub proof fn law_increase_votes_double_value(old: nat, increase: nat)
    requires
        increase > 0,
    ensures
        next_param_value(old, 0, increase, 0) == 2 * old,
{
    assert(old * (2 * increase) / increase == 2 * old) by (nonlinear_arith)
        requires
            increase > 0,
    ;
}

/// Where every vote is for "decrease" and their number is even, the
/// parameter halves, rounding down.
pub proof fn law_decrease_votes_halve_value(old: nat, decrease: nat)
    requires
        decrease > 0,
        decrease % 2 == 0,
    ensures
        next_param_value(old, 0, 0, decrease) == old / 2,
{
    let h = decrease / 2;
    assert(decrease == 2 * h);
    assert(old * h / (2 * h) == old / 2) by (nonlinear_arith)
        requires
            h > 0,
    {
        vstd::arithmetic::div_mod::lemma_div_denominator(old as int, h as int, 2);
        vstd::arithmetic::div_mod::lemma_div_by_multiple(old as int, h as int);
        assert(old * h / h == old);
        assert((old * h) / (h * 2) == ((old * h) / h) / 2) by {
            vstd::arithmetic::div_mod::lemma_div_denominator((old * h) as int, h as int, 2);
        }
        assert(h * 2 == 2 * h);
    }
}

/// The parameter never more than doubles in one step.
pub proof fn law_next_value_at_most_double(old: nat, unchange: nat, increase: nat, decrease: nat)
    ensures
        next_param_value(old, unchange, increase, decrease) <= 2 * old,
{
    let t = vote_total(unchange, increase, decrease);
    let w = weighted_total(unchange, increase, decrease);
    if t != 0 {
        assert(decrease / 2 <= decrease);
        assert(w <= 2 * t);
        assert(old * w / t <= 2 * old) by (nonlinear_arith)
            requires
                t > 0,
                0 <= w <= 2 * t,
                old >= 0,
        ;
    }
}

/// Without "increase" votes the parameter never grows.
pub proof fn law_no_increase_never_grows(old: nat, unchange: nat, decrease: nat)
    ensures
        next_param_value(old, unchange, 0, decrease) <= old,
{
    let t = vote_total(unchange, 0, decrease);
    let w = weighted_total(unchange, 0, decrease);
    if t != 0 {
        assert(decrease / 2 <= decrease);
        assert(old * w / t <= old) by (nonlinear_arith)
            requires
                t > 0,
                0 <= w <= t,
                old >= 0,
        ;
    }
}

/// Without "decrease" votes the parameter never shrinks.
pub proof fn law_no_decrease_never_shrinks(old: nat, unchange: nat, increase: nat)
    ensures
        next_param_value(old, unchange, increase, 0) >= old,
{
    let t = vote_total(unchange, increase, 0);
    let w = weighted_total(unchange, increase, 0);
    if t != 0 {
        assert(w >= t);
        assert(old * w / t >= old) by (nonlinear_arith)
            requires
                t > 0,
                w >= t,
                old >= 0,
        ;
    }
}

/// One more "increase" vote never lowers the next value.
pub proof fn law_more_increase_votes_never_lower(
    old: nat,
    unchange: nat,
    increase: nat,
    decrease: nat,
)
    ensures
        next_param_value(old, unchange, increase, decrease) <= next_param_value(
            old,
            unchange,
            increase + 1,
            decrease,
        ),
{
    let t = vote_total(unchange, increase, decrease);
    let w = weighted_total(unchange, increase, decrease);
    assert(decrease / 2 <= decrease);
    assert(vote_total(unchange, increase + 1, decrease) == t + 1);
    assert(weighted_total(unchange, increase + 1, decrease) == w + 2);
    if t == 0 {
        assert(w == 0);
        assert(old * 2 / 1 == 2 * old);
    } else {
        assert(w <= 2 * t);
        // old * w / t <= old * (w + 2) / (t + 1), because w * (t + 1) <= (w + 2) * t
        let q = old * w / t;
        law_next_value_at_most_double(old, unchange, increase, decrease);
        assert(q * t <= old * w) by (nonlinear_arith)
            requires
                t > 0,
                q == old * w / t,
                old * w >= 0,
        ;
        assert(q * (t + 1) <= old * (w + 2)) by (nonlinear_arith)
            requires
                t > 0,
                q * t <= old * w,
                w <= 2 * t,
                q <= 2 * old,
                q >= 0,
                old >= 0,
        ;
        assert(q <= old * (w + 2) / (t + 1)) by (nonlinear_arith)
            requires
                t + 1 > 0,
                q * (t + 1) <= old * (w + 2),
                q >= 0,
        ;
    }
}

} // verus!
