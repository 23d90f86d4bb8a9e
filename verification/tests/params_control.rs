use conflux_logic::params_control::{
    cast_vote, check_cast_vote_in_range, check_vote_version, is_new_vote, current_voting_version, read_vote,
    settled_param_vote_count, tally_votes, ParamVoteCount, StorageWrite, Vote, VoteError,
    WriteTarget,
};
use conflux_logic::word::U256;

fn u(x: u64) -> U256 {
    U256::from_u64(x)
}

fn vote(index: u16, opt_index: u16, votes: u64) -> Vote {
    Vote { index, opt_index, votes: u(votes) }
}

fn account(index: usize, opt_index: usize, value: u64) -> StorageWrite {
    StorageWrite { target: WriteTarget::AccountVote { index, opt_index }, value: u(value) }
}

fn total(index: usize, opt_index: usize, value: u64) -> StorageWrite {
    StorageWrite { target: WriteTarget::TotalVotes { index, opt_index }, value: u(value) }
}

fn values(xs: [u64; 6]) -> Vec<U256> {
    xs.iter().map(|x| u(*x)).collect()
}

fn next(old: u64, unchange: u64, increase: u64, decrease: u64) -> U256 {
    ParamVoteCount::new(u(unchange), u(increase), u(decrease)).compute_next_params(u(old))
}

#[test]
fn next_params_without_votes_keeps_value() {
    assert_eq!(next(1000, 0, 0, 0), u(1000));
}

#[test]
fn next_params_with_only_unchange_votes_keeps_value() {
    assert_eq!(next(1000, 7, 0, 0), u(1000));
}

#[test]
fn next_params_with_only_increase_votes_doubles() {
    assert_eq!(next(1000, 0, 3, 0), u(2000));
}

#[test]
fn next_params_with_only_decrease_votes_halves() {
    assert_eq!(next(1000, 0, 0, 2), u(500));
}

#[test]
fn next_params_weighted_mix() {
    // total 4, weighted 1 + 2 * 2 + 1 / 2 = 5
    assert_eq!(next(1000, 1, 2, 1), u(1250));
    // total 4, weighted 1 + 2 + 1 = 4
    assert_eq!(next(100, 1, 1, 2), u(100));
    // total 3, weighted 1 + 0 + 1 = 2, rounded down
    assert_eq!(next(10, 1, 0, 2), u(6));
}

#[test]
fn next_params_never_more_than_doubles() {
    for (un, inc, dec) in [(1u64, 5u64, 0u64), (0, 9, 1), (3, 3, 3)] {
        let r = next(777, un, inc, dec);
        assert!(r.limbs[0] <= 2 * 777 && r.limbs[1..] == [0, 0, 0]);
    }
}

#[test]
fn next_params_more_increase_votes_never_lower() {
    let a = next(1000, 2, 1, 3);
    let b = next(1000, 2, 2, 3);
    assert!(a.limbs[0] <= b.limbs[0]);
}

#[test]
fn next_params_large_value_uses_wide_product() {
    // old = 2^200, all votes for increase: 2^201
    let old = U256 { limbs: [0, 0, 0, 256] };
    let count = ParamVoteCount::new(u(0), u(5), u(0));
    assert_eq!(count.compute_next_params(old), U256 { limbs: [0, 0, 0, 512] });
}

#[test]
fn param_vote_count_getters() {
    let c = ParamVoteCount::new(u(1), u(2), u(3));
    assert_eq!((c.unchange(), c.increase(), c.decrease()), (u(1), u(2), u(3)));
}

#[test]
fn voting_version_counts_periods_from_one() {
    assert_eq!(current_voting_version(100, 10, 30), 4);
    assert_eq!(current_voting_version(10, 10, 30), 1);
    assert_eq!(current_voting_version(39, 10, 30), 1);
    assert_eq!(current_voting_version(40, 10, 30), 2);
}

#[test]
fn tally_rejects_unknown_parameter_or_option() {
    assert_eq!(tally_votes(&vec![vote(2, 0, 1)], false).err(), Some(VoteError::InvalidIndex));
    assert_eq!(tally_votes(&vec![vote(0, 3, 1)], false).err(), Some(VoteError::InvalidIndex));
}

#[test]
fn tally_sums_and_saturates() {
    let max = U256::max_value();
    let votes = vec![
        vote(0, 1, 4),
        vote(0, 1, 6),
        Vote { index: 1, opt_index: 2, votes: max },
        vote(1, 2, 1),
    ];
    let t = tally_votes(&votes, false).ok().unwrap();
    assert_eq!(t.touched, vec![true, true]);
    assert_eq!(t.counts, vec![u(0), u(10), u(0), u(0), u(0), max]);
    let t = tally_votes(&vec![vote(1, 0, 3)], false).ok().unwrap();
    assert_eq!(t.touched, vec![false, true]);
    let t = tally_votes(&vec![], true).ok().unwrap();
    assert_eq!(t.touched, vec![true, true]);
}

#[test]
fn cast_vote_refuses_other_period() {
    let (writes, r) = cast_vote(2, 3, u(0), &vec![vote(0, 0, 1)], u(10), &values([0; 6]), &values([0; 6]));
    assert!(writes.is_empty());
    assert_eq!(r, Err(VoteError::VersionMismatch { current: 3, voted: 2 }));
}

#[test]
fn cast_vote_refuses_invalid_index_without_writes() {
    let (writes, r) = cast_vote(1, 1, u(0), &vec![vote(0, 0, 1), vote(5, 0, 1)], u(10), &values([0; 6]), &values([0; 6]));
    assert!(writes.is_empty());
    assert_eq!(r, Err(VoteError::InvalidIndex));
}

#[test]
fn cast_vote_first_vote_of_period() {
    let (writes, r) = cast_vote(1, 1, u(0), &vec![vote(0, 1, 5)], u(10), &values([0; 6]), &values([0; 6]));
    assert_eq!(r, Ok(()));
    assert_eq!(
        writes,
        vec![
            total(0, 1, 5),
            account(0, 1, 5),
            StorageWrite { target: WriteTarget::Version, value: u(1) },
        ]
    );
}

#[test]
fn cast_vote_first_vote_resets_stale_votes() {
    // Stale votes of an earlier period are overwritten; totals are not reduced by them.
    let (writes, r) = cast_vote(2, 2, u(1), &vec![vote(0, 0, 4)], u(10), &values([0, 0, 0, 0, 3, 0]), &values([1, 1, 1, 1, 1, 1]));
    assert_eq!(r, Ok(()));
    assert_eq!(
        writes,
        vec![
            total(0, 0, 5),
            account(0, 0, 4),
            account(1, 1, 0),
            StorageWrite { target: WriteTarget::Version, value: u(2) },
        ]
    );
}

#[test]
fn cast_vote_changes_existing_vote() {
    let (writes, r) = cast_vote(1, 1, u(1), &vec![vote(0, 0, 1)], u(10), &values([3, 0, 0, 9, 9, 9]), &values([10, 0, 0, 20, 20, 20]));
    assert_eq!(r, Ok(()));
    assert_eq!(writes, vec![total(0, 0, 8), account(0, 0, 1)]);
}

#[test]
fn cast_vote_not_enough_power() {
    let (writes, r) = cast_vote(1, 1, u(1), &vec![vote(0, 0, 5), vote(0, 1, 6)], u(10), &values([0; 6]), &values([0; 6]));
    assert!(writes.is_empty());
    assert_eq!(r, Err(VoteError::NotEnoughVotePower { power: u(10), votes: u(11) }));
}

#[test]
fn cast_vote_power_failure_keeps_earlier_parameter_writes() {
    let (writes, r) = cast_vote(1, 1, u(1), &vec![vote(0, 2, 3), vote(1, 0, 20)], u(10), &values([0; 6]), &values([0; 6]));
    assert_eq!(writes, vec![total(0, 2, 3), account(0, 2, 3)]);
    assert_eq!(r, Err(VoteError::NotEnoughVotePower { power: u(10), votes: u(20) }));
}

#[test]
fn cast_vote_range_check() {
    let votes = vec![vote(0, 1, 1)];
    // not a first vote: the account's vote of 5 for option 0 goes away, but the total is only 2
    assert!(!check_cast_vote_in_range(1, 1, u(1), &votes, u(10), &values([5, 0, 0, 0, 0, 0]), &values([2, 0, 0, 0, 0, 0])));
    assert!(check_cast_vote_in_range(1, 1, u(1), &votes, u(10), &values([5, 0, 0, 0, 0, 0]), &values([5, 0, 0, 0, 0, 0])));
    // a stored period that does not fit in 64 bits
    assert!(!check_cast_vote_in_range(1, 1, U256::max_value(), &votes, u(10), &values([0; 6]), &values([0; 6])));
    // other period: nothing is computed
    assert!(check_cast_vote_in_range(1, 2, U256::max_value(), &votes, u(10), &values([0; 6]), &values([0; 6])));
    // a total that would overflow
    let mut totals = values([0; 6]);
    totals[1] = U256::max_value();
    assert!(!check_cast_vote_in_range(1, 1, u(0), &votes, u(10), &values([0; 6]), &totals));
}

#[test]
fn read_vote_lists_nonzero_entries() {
    let r = read_vote(&values([0, 5, 0, 0, 0, 7]));
    assert_eq!(r, vec![vote(0, 1, 5), vote(1, 2, 7)]);
    assert!(read_vote(&values([0; 6])).is_empty());
}

fn apply(writes: &[StorageWrite], stored: &mut Vec<U256>, totals: &mut Vec<U256>) {
    for w in writes {
        match w.target {
            WriteTarget::AccountVote { index, opt_index } => stored[index * 3 + opt_index] = w.value,
            WriteTarget::TotalVotes { index, opt_index } => totals[index * 3 + opt_index] = w.value,
            WriteTarget::Version => {}
        }
    }
}

#[test]
fn read_vote_after_cast_gives_the_tally() {
    let mut stored = values([2, 0, 1, 4, 0, 0]);
    let mut totals = values([9, 9, 9, 9, 9, 9]);
    let votes = vec![vote(0, 1, 3), vote(0, 1, 2), vote(0, 0, 1)];
    let (writes, r) = cast_vote(1, 1, u(1), &votes, u(10), &stored, &totals);
    assert_eq!(r, Ok(()));
    apply(&writes, &mut stored, &mut totals);
    assert_eq!(read_vote(&stored), vec![vote(0, 0, 1), vote(0, 1, 5), vote(1, 0, 4)]);
    // each total moved by the change of the account's vote
    assert_eq!(totals, values([8, 14, 8, 9, 9, 9]));
}

#[test]
fn settled_counts_by_parameter_and_option() {
    let all = settled_param_vote_count(&values([1, 2, 3, 4, 5, 6]));
    assert_eq!(all.pow_base_reward, ParamVoteCount::new(u(1), u(2), u(3)));
    assert_eq!(all.pos_reward_interest, ParamVoteCount::new(u(4), u(5), u(6)));
}

#[test]
fn tally_does_not_depend_on_vote_order() {
    let max = U256::max_value();
    let a = vec![Vote { index: 0, opt_index: 0, votes: max }, vote(0, 0, 3), vote(1, 1, 2)];
    let b = vec![vote(1, 1, 2), vote(0, 0, 3), Vote { index: 0, opt_index: 0, votes: max }];
    let ta = tally_votes(&a, false).ok().unwrap();
    let tb = tally_votes(&b, false).ok().unwrap();
    assert_eq!(ta.counts, tb.counts);
    assert_eq!(ta.counts[0], max);
}

#[test]
fn vote_version_check_and_first_vote() {
    assert_eq!(check_vote_version(3, 3), Ok(()));
    assert_eq!(check_vote_version(3, 2), Err(VoteError::VersionMismatch { current: 3, voted: 2 }));
    assert!(is_new_vote(u(0), 1));
    assert!(!is_new_vote(u(1), 1));
}

#[test]
fn next_params_without_increase_votes_never_grows() {
    for (un, dec) in [(1u64, 1u64), (0, 3), (5, 0), (2, 7)] {
        assert!(next(1001, un, 0, dec).limbs[0] <= 1001);
    }
}

#[test]
fn next_params_without_decrease_votes_never_shrinks() {
    for (un, inc) in [(1u64, 1u64), (0, 3), (5, 0), (2, 7)] {
        assert!(next(1001, un, inc, 0).limbs[0] >= 1001);
    }
}
