//! Trace RPC rules: pairing each call or create with its result, choosing a
//! transaction's traces and placing them in the chain, and the checks that an
//! epoch's traces are usable.

use vstd::prelude::*;

verus! {

/// A 32-byte hash.
pub type H256 = [u8; 32];

/// The kind of a trace's action.
#[derive(Clone, Copy, Debug, PartialEq, Eq, Structural)]
pub enum ActionKind {
    Call,
    Create,
    CallResult,
    CreateResult,
    InternalTransfer,
}

/// What the pairing does with one trace.
#[derive(Clone, Copy, Debug, PartialEq, Eq, Structural)]
pub enum PairStep {
    /// The trace opens a new paired trace, numbered by its order among those
    /// opened.
    Open,
    /// The trace is the result of paired trace `trace_index`.
    Close { trace_index: usize },
    /// The trace takes no part.
    Skip,
}

/// Why the traces cannot be paired.
#[derive(Clone, Copy, Debug, PartialEq, Eq, Structural)]
pub enum PairError {
    /// A result came with no open call or create.
    UnmatchedResult,
    /// Some call or create got no result.
    UnmatchedCall,
}

pub open spec fn opens(kind: ActionKind) -> bool {
    kind == ActionKind::Call || kind == ActionKind::Create
}

pub open spec fn closes(kind: ActionKind) -> bool {
    kind == ActionKind::CallResult || kind == ActionKind::CreateResult
}

/// The pairing after the traces of `kinds`, each result matched with the
/// latest call or create that has no result yet: the steps so far, the stack
/// of open traces, the number opened, and whether a result came unmatched
/// (the steps stop there).
pub open spec fn pairing_state(kinds: Seq<ActionKind>) -> (Seq<PairStep>, Seq<usize>, nat, bool)
    decreases kinds.len(),
{
    if kinds.len() == 0 {
        (Seq::empty(), Seq::empty(), 0, false)
    } else {
        let (steps, stack, opened, failed) = pairing_state(kinds.drop_last());
        let kind = kinds.last();
        if failed {
            (steps, stack, opened, failed)
        } else if opens(kind) {
            (steps.push(PairStep::Open), stack.push(opened as usize), opened + 1, false)
        } else if closes(kind) {
            if stack.len() == 0 {
                (steps, stack, opened, true)
            } else {
                (
                    steps.push(PairStep::Close { trace_index: stack.last() }),
                    stack.drop_last(),
                    opened,
                    false,
                )
            }
        } else {
            (steps.push(PairStep::Skip), stack, opened, false)
        }
    }
}

/// How the pairing of `kinds` ends.
pub open spec fn pairing_result(kinds: Seq<ActionKind>) -> Result<(), PairError> {
    let (steps, stack, opened, failed) = pairing_state(kinds);
    if failed {
        Err(PairError::UnmatchedResult)
    } else if stack.len() != 0 {
        Err(PairError::UnmatchedCall)
    } else {
        Ok(())
    }
}

/// Pairs every result with the latest call or create still open, in trace
/// order. The steps say what each trace does, up to the first result that
/// finds nothing open; the result says whether every trace was paired.
pub fn pair_trace_actions(kinds: &Vec<ActionKind>) -> (r: (Vec<PairStep>, Result<(), PairError>))
    ensures
        r.0@ == pairing_state(kinds@).0,
        r.1 == pairing_result(kinds@),
        forall|k: int| 0 <= k < r.0@.len() ==> step_matches_kind(#[trigger] r.0@[k], kinds@[k]),
        r.1 is Ok ==> r.0@.len() == kinds@.len(),
        r.1 is Ok <==> prefixes_nested(kinds@, kinds@.len() as int) && nesting_depth(kinds@) == 0,
{
    proof {
        law_pairing_follows_nesting(kinds@);
    }
    let mut steps: Vec<PairStep> = Vec::new();
    let mut stack: Vec<usize> = Vec::new();
    let mut opened: usize = 0;
    let n = kinds.len();
    let mut k: usize = 0;
    while k < n
        invariant
            n == kinds@.len(),
            k <= n,
            opened <= k,
            pairing_state(kinds@.take(k as int)) == (steps@, stack@, opened as nat, false),
        decreases n - k,
    {
        let kind = kinds[k];
        proof {
            assert(kinds@.take(k + 1).drop_last() =~= kinds@.take(k as int));
            assert(kinds@.take(k + 1).last() == kind);
        }
        match kind {
            ActionKind::Call | ActionKind::Create => {
                steps.push(PairStep::Open);
                stack.push(opened);
                opened = opened + 1;
            },
            ActionKind::CallResult | ActionKind::CreateResult => {
                match stack.pop() {
                    Some(trace_index) => {
                        steps.push(PairStep::Close { trace_index });
                    },
                    None => {
                        proof {
                            lemma_pairing_stays_failed(kinds@, k as int + 1);
                            law_pairing_follows_nesting(kinds@);
                        }
                        return (steps, Err(PairError::UnmatchedResult));
                    },
                }
            },
            ActionKind::InternalTransfer => {
                steps.push(PairStep::Skip);
            },
        }
        k = k + 1;
    }
    proof {
        assert(kinds@.take(n as int) =~= kinds@);
    }
    if stack.len() != 0 {
        return (steps, Err(PairError::UnmatchedCall));
    }
    (steps, Ok(()))
}

/// Once a result finds nothing open, later traces change nothing.
pub proof fn lemma_pairing_stays_failed(kinds: Seq<ActionKind>, n: int)
    requires
        0 <= n <= kinds.len(),
        pairing_state(kinds.take(n)).3,
    ensures
        pairing_state(kinds) == pairing_state(kinds.take(n)),
    decreases kinds.len() - n,
{
    if n < kinds.len() {
        assert(kinds.take(n + 1).drop_last() =~= kinds.take(n));
        lemma_pairing_stays_failed(kinds, n + 1);
    } else {
        assert(kinds.take(n) =~= kinds);
    }
}


/// The number of `Open` steps.
pub open spec fn open_count(steps: Seq<PairStep>) -> nat
    decreases steps.len(),
{
    if steps.len() == 0 {
        0
    } else {
        open_count(steps.drop_last()) + if steps.last() == PairStep::Open {
            1nat
        } else {
            0nat
        }
    }
}

/// Step `k` is the result of paired trace `t`.
pub open spec fn step_closes(steps: Seq<PairStep>, k: int, t: int) -> bool {
    0 <= k < steps.len() && steps[k] is Close && steps[k]->trace_index as int == t
}

/// Some step is the result of paired trace `t`.
pub open spec fn trace_closed(steps: Seq<PairStep>, t: int) -> bool {
    exists|k: int| #[trigger] step_closes(steps, k, t)
}

/// Paired trace `t` had its result among the first `k` steps.
pub open spec fn closed_before(steps: Seq<PairStep>, k: int, t: int) -> bool {
    trace_closed(steps.take(k), t)
}

/// Paired trace `t` is still open or has its result.
pub open spec fn trace_settled(steps: Seq<PairStep>, stack: Seq<usize>, t: int) -> bool {
    stack.contains(t as usize) || trace_closed(steps, t)
}

/// What holds of the pairing after every trace as long as no result came
/// unmatched.
pub open spec fn pairing_invariant(steps: Seq<PairStep>, stack: Seq<usize>, opened: nat) -> bool {
    &&& open_count(steps) == opened
    &&& forall|i: int, j: int| 0 <= i < j < stack.len() ==> stack[i] < stack[j]
    &&& forall|i: int| 0 <= i < stack.len() ==> stack[i] < opened
    &&& forall|k: int, t: int|
        #[trigger] step_closes(steps, k, t) ==> 0 <= t < opened && t < open_count(steps.take(k))
            && !stack.contains(t as usize)
    &&& forall|k1: int, k2: int, t: int|
        #[trigger] step_closes(steps, k1, t) && #[trigger] step_closes(steps, k2, t) ==> k1 == k2
    &&& forall|t: int| 0 <= t < opened ==> #[trigger] trace_settled(steps, stack, t)
    &&& forall|k: int, t: int, t2: int|
        #[trigger] step_closes(steps, k, t) && t < t2 < open_count(steps.take(k)) ==> #[trigger]
            closed_before(steps, k, t2)
}

proof fn lemma_open_count_push(steps: Seq<PairStep>, step: PairStep)
    ensures
        open_count(steps.push(step)) == open_count(steps) + if step == PairStep::Open {
            1nat
        } else {
            0nat
        },
        steps.push(step).take(steps.len() as int) == steps,
{
    assert(steps.push(step).drop_last() =~= steps);
    assert(steps.push(step).take(steps.len() as int) =~= steps);
}

/// The invariant holds after every prefix that had no unmatched result.
pub proof fn lemma_pairing_invariant(kinds: Seq<ActionKind>)
    requires
        kinds.len() <= usize::MAX,
    ensures
        ({
            let (steps, stack, opened, failed) = pairing_state(kinds);
            &&& opened <= kinds.len()
            &&& !failed ==> pairing_invariant(steps, stack, opened)
        }),
    decreases kinds.len(),
{
    if kinds.len() > 0 {
        let prev = kinds.drop_last();
        lemma_pairing_invariant(prev);
        let (steps, stack, opened, failed) = pairing_state(prev);
        let kind = kinds.last();
        if !failed {
            if opens(kind) {
                let nsteps = steps.push(PairStep::Open);
                let nstack = stack.push(opened as usize);
                lemma_open_count_push(steps, PairStep::Open);
                assert forall|k: int, t: int| #[trigger] step_closes(nsteps, k, t) implies 0 <= t
                    < opened + 1 && t < open_count(nsteps.take(k)) && !nstack.contains(t as usize) by {
                    assert(step_closes(steps, k, t));
                    assert(nsteps.take(k) =~= steps.take(k));
                    assert(opened < kinds.len());
                    if nstack.contains(t as usize) {
                        let i = choose|i: int| 0 <= i < nstack.len() && nstack[i] == t as usize;
                        if i < stack.len() {
                            assert(stack.contains(t as usize));
                        } else {
                            assert(nstack[i] == opened as usize);
                        }
                    }
                }
                assert forall|k1: int, k2: int, t: int|
                    #[trigger] step_closes(nsteps, k1, t) && #[trigger] step_closes(nsteps, k2, t)
                    implies k1 == k2 by {
                    assert(step_closes(steps, k1, t));
                    assert(step_closes(steps, k2, t));
                }
                assert forall|t: int| 0 <= t < opened + 1 implies #[trigger] trace_settled(
                    nsteps,
                    nstack,
                    t,
                ) by {
                    if t < opened {
                        assert(trace_settled(steps, stack, t));
                    }
                    if t == opened {
                        assert(nstack[stack.len() as int] == t as usize);
                    } else if stack.contains(t as usize) {
                        let i = choose|i: int| 0 <= i < stack.len() && stack[i] == t as usize;
                        assert(nstack[i] == t as usize);
                    } else {
                        let k = choose|k: int| #[trigger] step_closes(steps, k, t);
                        assert(step_closes(nsteps, k, t));
                    }
                }
                assert forall|k: int, t: int, t2: int|
                    #[trigger] step_closes(nsteps, k, t) && t < t2 < open_count(nsteps.take(k))
                    implies #[trigger] closed_before(nsteps, k, t2) by {
                    assert(step_closes(steps, k, t));
                    assert(nsteps.take(k) =~= steps.take(k));
                    assert(closed_before(steps, k, t2));
                }
            } else if closes(kind) {
                if stack.len() > 0 {
                    let top = stack.last();
                    let nsteps = steps.push(PairStep::Close { trace_index: top });
                    let nstack = stack.drop_last();
                    let last = steps.len() as int;
                    lemma_open_count_push(steps, PairStep::Close { trace_index: top });
                    assert(stack[stack.len() - 1] == top);
                    assert(!nstack.contains(top)) by {
                        if nstack.contains(top) {
                            let i = choose|i: int| 0 <= i < nstack.len() && nstack[i] == top;
                            assert(stack[i] == top);
                        }
                    }
                    assert forall|k: int, t: int| #[trigger] step_closes(nsteps, k, t) implies 0 <= t
                        < opened && t < open_count(nsteps.take(k)) && !nstack.contains(t as usize) by {
                        if k == last {
                            assert(t == top as int);
                            assert(nsteps.take(k) =~= steps);
                        } else {
                            assert(step_closes(steps, k, t));
                            assert(nsteps.take(k) =~= steps.take(k));
                            if nstack.contains(t as usize) {
                                let i = choose|i: int| 0 <= i < nstack.len() && nstack[i] == t as usize;
                                assert(stack[i] == t as usize);
                                assert(stack.contains(t as usize));
                            }
                        }
                    }
                    assert forall|k1: int, k2: int, t: int|
                        #[trigger] step_closes(nsteps, k1, t) && #[trigger] step_closes(nsteps, k2, t)
                        implies k1 == k2 by {
                        if k1 != last && k2 != last {
                            assert(step_closes(steps, k1, t));
                            assert(step_closes(steps, k2, t));
                        } else if k1 == last && k2 != last {
                            assert(step_closes(steps, k2, t));
                            assert(stack.contains(t as usize));
                        } else if k2 == last && k1 != last {
                            assert(step_closes(steps, k1, t));
                            assert(stack.contains(t as usize));
                        }
                    }
                    assert forall|t: int| 0 <= t < opened implies #[trigger] trace_settled(
                        nsteps,
                        nstack,
                        t,
                    ) by {
                        assert(trace_settled(steps, stack, t));
                        if t as usize == top {
                            assert(step_closes(nsteps, last, t));
                        } else if stack.contains(t as usize) {
                            let i = choose|i: int| 0 <= i < stack.len() && stack[i] == t as usize;
                            assert(i != stack.len() - 1);
                            assert(nstack[i] == t as usize);
                        } else {
                            let k = choose|k: int| #[trigger] step_closes(steps, k, t);
                            assert(step_closes(nsteps, k, t));
                        }
                    }
                    assert forall|k: int, t: int, t2: int|
                        #[trigger] step_closes(nsteps, k, t) && t < t2 < open_count(nsteps.take(k))
                        implies #[trigger] closed_before(nsteps, k, t2) by {
                        if k == last {
                            assert(nsteps.take(k) =~= steps);
                            assert(t == top as int);
                            assert(trace_settled(steps, stack, t2));
                            if stack.contains(t2 as usize) {
                                let i = choose|i: int| 0 <= i < stack.len() && stack[i] == t2 as usize;
                                assert(i != stack.len() - 1);
                                assert(stack[i] < stack[stack.len() - 1]);
                            }
                            let w = choose|w: int| #[trigger] step_closes(steps, w, t2);
                            assert(step_closes(nsteps.take(k), w, t2));
                        } else {
                            assert(step_closes(steps, k, t));
                            assert(nsteps.take(k) =~= steps.take(k));
                            assert(closed_before(steps, k, t2));
                        }
                    }
                }
            } else {
                let nsteps = steps.push(PairStep::Skip);
                lemma_open_count_push(steps, PairStep::Skip);
                assert forall|k: int, t: int| #[trigger] step_closes(nsteps, k, t) implies 0 <= t
                    < opened && t < open_count(nsteps.take(k)) && !stack.contains(t as usize) by {
                    assert(step_closes(steps, k, t));
                    assert(nsteps.take(k) =~= steps.take(k));
                }
                assert forall|k1: int, k2: int, t: int|
                    #[trigger] step_closes(nsteps, k1, t) && #[trigger] step_closes(nsteps, k2, t)
                    implies k1 == k2 by {
                    assert(step_closes(steps, k1, t));
                    assert(step_closes(steps, k2, t));
                }
                assert forall|t: int| 0 <= t < opened implies #[trigger] trace_settled(
                    nsteps,
                    stack,
                    t,
                ) by {
                    assert(trace_settled(steps, stack, t));
                    if !stack.contains(t as usize) {
                        let k = choose|k: int| #[trigger] step_closes(steps, k, t);
                        assert(step_closes(nsteps, k, t));
                    }
                }
                assert forall|k: int, t: int, t2: int|
                    #[trigger] step_closes(nsteps, k, t) && t < t2 < open_count(nsteps.take(k))
                    implies #[trigger] closed_before(nsteps, k, t2) by {
                    assert(step_closes(steps, k, t));
                    assert(nsteps.take(k) =~= steps.take(k));
                    assert(closed_before(steps, k, t2));
                }
            }
        }
    }
}

/// Where the pairing succeeds, every call or create gets exactly one result,
/// and every result comes after the call or create it belongs to.
pub proof fn law_each_call_paired_once(kinds: Seq<ActionKind>)
    requires
        kinds.len() <= usize::MAX,
        pairing_result(kinds) is Ok,
    ensures
        ({
            let (steps, stack, opened, failed) = pairing_state(kinds);
            &&& open_count(steps) == opened
            &&& forall|t: int| 0 <= t < opened ==> #[trigger] trace_closed(steps, t)
            &&& forall|k1: int, k2: int, t: int|
                #[trigger] step_closes(steps, k1, t) && #[trigger] step_closes(steps, k2, t) ==> k1
                    == k2
            &&& forall|k: int, t: int| #[trigger]
                step_closes(steps, k, t) ==> 0 <= t < open_count(steps.take(k))
        }),
{
    lemma_pairing_invariant(kinds);
    let (steps, stack, opened, failed) = pairing_state(kinds);
    assert forall|t: int| 0 <= t < opened implies #[trigger] trace_closed(steps, t) by {
        assert(trace_settled(steps, stack, t));
    }
}


/// The number of calls and creates minus the number of results among
/// `kinds`.
pub open spec fn nesting_depth(kinds: Seq<ActionKind>) -> int
    decreases kinds.len(),
{
    if kinds.len() == 0 {
        0
    } else {
        let k = kinds.last();
        nesting_depth(kinds.drop_last()) + if k == ActionKind::Call || k == ActionKind::Create {
            1int
        } else if k == ActionKind::CallResult || k == ActionKind::CreateResult {
            -1int
        } else {
            0int
        }
    }
}

/// Every prefix of the first `n` traces has at least as many calls and
/// creates as results.
pub open spec fn prefixes_nested(kinds: Seq<ActionKind>, n: int) -> bool {
    forall|m: int| 0 <= m <= n ==> #[trigger] nesting_depth(kinds.take(m)) >= 0
}

/// The step taken for trace `k` matches its kind.
pub open spec fn step_matches_kind(step: PairStep, kind: ActionKind) -> bool {
    &&& (step == PairStep::Open <==> (kind == ActionKind::Call || kind == ActionKind::Create))
    &&& (step is Close <==> (kind == ActionKind::CallResult || kind == ActionKind::CreateResult))
    &&& (step == PairStep::Skip <==> kind == ActionKind::InternalTransfer)
}

/// The shape of the pairing: one step per trace, matching its kind, until a
/// result comes with nothing open (where the calls and results before it
/// balance); the open traces are those not yet given a result.
pub proof fn lemma_pairing_shape(kinds: Seq<ActionKind>)
    ensures
        ({
            let (steps, stack, opened, failed) = pairing_state(kinds);
            &&& steps.len() <= kinds.len()
            &&& forall|k: int| 0 <= k < steps.len() ==> step_matches_kind(#[trigger] steps[k], kinds[k])
            &&& prefixes_nested(kinds, steps.len() as int)
            &&& !failed ==> steps.len() == kinds.len() && stack.len() == nesting_depth(kinds)
            &&& failed ==> {
                &&& steps.len() < kinds.len()
                &&& (kinds[steps.len() as int] == ActionKind::CallResult || kinds[steps.len() as int]
                    == ActionKind::CreateResult)
                &&& nesting_depth(kinds.take(steps.len() as int)) == 0
            }
        }),
    decreases kinds.len(),
{
    let (steps, stack, opened, failed) = pairing_state(kinds);
    if kinds.len() == 0 {
        assert forall|m: int| 0 <= m <= 0 implies #[trigger] nesting_depth(kinds.take(m)) >= 0 by {
            assert(kinds.take(m).len() == 0);
        }
    } else {
        let prev = kinds.drop_last();
        lemma_pairing_shape(prev);
        let (psteps, pstack, popened, pfailed) = pairing_state(prev);
        let n = kinds.len() - 1;
        assert forall|m: int| 0 <= m <= n implies #[trigger] kinds.take(m) == prev.take(m) by {
            assert(kinds.take(m) =~= prev.take(m));
        }
        assert forall|m: int| 0 <= m <= psteps.len() implies #[trigger] nesting_depth(kinds.take(m))
            >= 0 by {
            assert(kinds.take(m) == prev.take(m));
            assert(nesting_depth(prev.take(m)) >= 0);
        }
        if pfailed {
            assert forall|k: int| 0 <= k < steps.len() implies step_matches_kind(
                #[trigger] steps[k],
                kinds[k],
            ) by {
                assert(step_matches_kind(psteps[k], prev[k]));
            }
            assert(kinds.take(steps.len() as int) == prev.take(steps.len() as int));
        } else {
            assert(kinds.take(n) =~= prev);
            assert(kinds.take(n + 1) =~= kinds);
            assert(nesting_depth(kinds) == nesting_depth(prev) + if kinds[n] == ActionKind::Call
                || kinds[n] == ActionKind::Create {
                1int
            } else if kinds[n] == ActionKind::CallResult || kinds[n] == ActionKind::CreateResult {
                -1int
            } else {
                0int
            });
            if failed {
                assert(steps == psteps);
                assert forall|k: int| 0 <= k < steps.len() implies step_matches_kind(
                    #[trigger] steps[k],
                    kinds[k],
                ) by {
                    assert(step_matches_kind(psteps[k], prev[k]));
                }
            } else {
                assert forall|k: int| 0 <= k < steps.len() implies step_matches_kind(
                    #[trigger] steps[k],
                    kinds[k],
                ) by {
                    if k < n {
                        assert(steps[k] == psteps[k]);
                        assert(step_matches_kind(psteps[k], prev[k]));
                    }
                }
                assert forall|m: int| 0 <= m <= steps.len() implies #[trigger] nesting_depth(
                    kinds.take(m),
                ) >= 0 by {
                    if m == n + 1 {
                        assert(kinds.take(m) == kinds);
                    }
                }
            }
        }
    }
}

/// Every call or create opens a paired trace and every result closes one, in
/// trace order, and the pairing succeeds exactly when the traces are nested:
/// no prefix has more results than calls and creates, and they balance in
/// the end.
pub proof fn law_pairing_follows_nesting(kinds: Seq<ActionKind>)
    ensures
        ({
            let steps = pairing_state(kinds).0;
            &&& forall|k: int| 0 <= k < steps.len() ==> step_matches_kind(#[trigger] steps[k], kinds[k])
            &&& pairing_result(kinds) is Ok ==> steps.len() == kinds.len()
            &&& (pairing_result(kinds) is Ok <==> prefixes_nested(kinds, kinds.len() as int)
                && nesting_depth(kinds) == 0)
        }),
{
    lemma_pairing_shape(kinds);
    let (steps, stack, opened, failed) = pairing_state(kinds);
    if failed {
        let s = steps.len() as int;
        assert(kinds.take(s + 1).drop_last() =~= kinds.take(s));
        assert(kinds.take(s + 1).last() == kinds[s]);
        assert(nesting_depth(kinds.take(s + 1)) < 0);
    } else {
        assert(kinds.take(kinds.len() as int) =~= kinds);
    }
}

/// One executed trace: its action and whether it took effect.
#[derive(Clone, Debug, PartialEq, Eq)]
pub struct ExecTrace<A> {
    pub action: A,
    pub valid: bool,
}

/// Where a transaction's traces sit in the chain.
#[derive(Clone, Copy, Debug, PartialEq, Eq)]
pub struct TraceLocation {
    pub epoch_hash: H256,
    pub epoch_number: u64,
    pub block_hash: H256,
    pub transaction_position: usize,
    pub transaction_hash: H256,
}

/// A trace with its place in the chain.
#[derive(Clone, Debug, PartialEq, Eq)]
pub struct LocalizedTrace<A> {
    pub action: A,
    pub valid: bool,
    pub epoch_hash: Option<H256>,
    pub epoch_number: Option<u64>,
    pub block_hash: Option<H256>,
    pub transaction_position: Option<usize>,
    pub transaction_hash: Option<H256>,
}

/// Where a transaction was executed: its block, its position among the
/// block's executed transactions, whether it is a phantom transaction, and its
/// position as the Ethereum-space RPC reports it.
#[derive(Clone, Copy, Debug, PartialEq, Eq)]
pub struct TransactionIndex {
    pub block_hash: H256,
    pub real_index: usize,
    pub is_phantom: bool,
    pub rpc_index: Option<usize>,
}

/// The trace of `trace` placed at `location`.
pub open spec fn localized<A>(trace: ExecTrace<A>, location: TraceLocation) -> LocalizedTrace<A> {
    LocalizedTrace {
        action: trace.action,
        valid: trace.valid,
        epoch_hash: Some(location.epoch_hash),
        epoch_number: Some(location.epoch_number),
        block_hash: Some(location.block_hash),
        transaction_position: Some(location.transaction_position),
        transaction_hash: Some(location.transaction_hash),
    }
}

/// The block whose traces hold the transaction's traces: none for a phantom
/// transaction, which has no traces of its own.
pub fn traced_block(tx_index: &TransactionIndex) -> (r: Option<H256>)
    ensures
        r == (if tx_index.is_phantom {
            None
        } else {
            Some(tx_index.block_hash)
        }),
{
    if tx_index.is_phantom {
        None
    } else {
        Some(tx_index.block_hash)
    }
}

/// The traces of the transaction at `tx_index` among the traces of its
/// block's transactions: none for a phantom transaction or a position past
/// the end.
pub fn select_transaction_traces<T>(tx_index: &TransactionIndex, block_traces: Vec<T>) -> (r: Option<T>)
    ensures
        r is Some <==> !tx_index.is_phantom && tx_index.real_index < block_traces@.len(),
        r matches Some(t) ==> t == block_traces@[tx_index.real_index as int],
{
    if tx_index.is_phantom {
        return None;
    }
    if tx_index.real_index >= block_traces.len() {
        return None;
    }
    let mut traces = block_traces;
    Some(traces.swap_remove(tx_index.real_index))
}

/// A placed trace keeps its action and validity and reports every part of
/// the location it was given.
pub proof fn law_localized_reports_location<A>(trace: ExecTrace<A>, location: TraceLocation)
    ensures
        ({
            let r = localized(trace, location);
            &&& r.action == trace.action
            &&& r.valid == trace.valid
            &&& r.epoch_hash == Some(location.epoch_hash)
            &&& r.epoch_number == Some(location.epoch_number)
            &&& r.block_hash == Some(location.block_hash)
            &&& r.transaction_position == Some(location.transaction_position)
            &&& r.transaction_hash == Some(location.transaction_hash)
        }),
{
}

/// Every trace, in order, placed at `location`.
pub fn localize_traces<A>(traces: Vec<ExecTrace<A>>, location: &TraceLocation) -> (r: Vec<LocalizedTrace<A>>)
    ensures
        r@ == traces@.map_values(|t: ExecTrace<A>| localized(t, *location)),
        r@.len() == traces@.len(),
        forall|k: int|
            0 <= k < r@.len() ==> {
                &&& (#[trigger] r@[k]).action == traces@[k].action
                &&& r@[k].valid == traces@[k].valid
                &&& r@[k].epoch_hash == Some(location.epoch_hash)
                &&& r@[k].epoch_number == Some(location.epoch_number)
                &&& r@[k].block_hash == Some(location.block_hash)
                &&& r@[k].transaction_position == Some(location.transaction_position)
                &&& r@[k].transaction_hash == Some(location.transaction_hash)
            },
{
    let ghost all = traces@;
    let ghost n = traces@.len();
    let mut rest = traces;
    let mut reversed: Vec<ExecTrace<A>> = Vec::new();
    while rest.len() > 0
        invariant
            rest@ == all.take(rest@.len() as int),
            rest@.len() + reversed@.len() == n,
            n == all.len(),
            forall|i: int| 0 <= i < reversed@.len() ==> #[trigger] reversed@[i] == all[n - 1 - i],
        decreases rest@.len(),
    {
        let ghost before = rest@;
        let trace = rest.pop().unwrap();
        assert(rest@ =~= all.take(rest@.len() as int));
        reversed.push(trace);
    }
    let mut out: Vec<LocalizedTrace<A>> = Vec::new();
    while reversed.len() > 0
        invariant
            reversed@.len() + out@.len() == n,
            n == all.len(),
            forall|i: int| 0 <= i < reversed@.len() ==> #[trigger] reversed@[i] == all[n - 1 - i],
            out@ == all.take(out@.len() as int).map_values(|t: ExecTrace<A>| localized(t, *location)),
        decreases reversed@.len(),
    {
        let trace = reversed.pop().unwrap();
        let ghost k = out@.len() as int;
        assert(trace == all[k]);
        let entry = LocalizedTrace {
            action: trace.action,
            valid: trace.valid,
            epoch_hash: Some(location.epoch_hash),
            epoch_number: Some(location.epoch_number),
            block_hash: Some(location.block_hash),
            transaction_position: Some(location.transaction_position),
            transaction_hash: Some(location.transaction_hash),
        };
        out.push(entry);
        assert(out@ =~= all.take(k + 1).map_values(|t: ExecTrace<A>| localized(t, *location)));
    }
    assert(all.take(n as int) =~= all);
    proof {
        assert forall|k: int| 0 <= k < out@.len() implies {
            &&& (#[trigger] out@[k]).action == all[k].action
            &&& out@[k].valid == all[k].valid
            &&& out@[k].epoch_hash == Some(location.epoch_hash)
            &&& out@[k].epoch_number == Some(location.epoch_number)
            &&& out@[k].block_hash == Some(location.block_hash)
            &&& out@[k].transaction_position == Some(location.transaction_position)
            &&& out@[k].transaction_hash == Some(location.transaction_hash)
        } by {
            law_localized_reports_location(all[k], *location);
        }
    }
    out
}

/// The traces where there are any, and `None` where there are none.
pub fn traces_if_any<T>(traces: Vec<T>) -> (r: Option<Vec<T>>)
    ensures
        r is None <==> traces@.len() == 0,
        r matches Some(v) ==> v@ == traces@,
{
    if traces.len() == 0 {
        None
    } else {
        Some(traces)
    }
}

/// Byte-wise equality of two hashes.
pub fn hash_eq(a: &H256, b: &H256) -> (r: bool)
    ensures
        r == (a@ == b@),
{
    let mut i: usize = 0;
    while i < 32
        invariant
            i <= 32,
            forall|j: int| 0 <= j < i ==> a@[j] == b@[j],
        decreases 32 - i,
    {
        if a[i] != b[i] {
            return false;
        }
        i = i + 1;
    }
    assert(a@ =~= b@);
    true
}

/// The first block of an epoch whose traces cannot be reported: they are
/// missing, or were recorded under another pivot than `pivot`. `pivots`
/// holds, per block of the epoch, the pivot its traces were recorded under.
pub fn first_unusable_block(pivot: &H256, pivots: &Vec<Option<H256>>) -> (r: Option<usize>)
    ensures
        r is None <==> forall|k: int| 0 <= k < pivots@.len() ==> #[trigger] pivots@[k] == Some(*pivot),
        r matches Some(k) ==> {
            &&& k < pivots@.len()
            &&& pivots@[k as int] != Some(*pivot)
            &&& forall|j: int| 0 <= j < k ==> #[trigger] pivots@[j] == Some(*pivot)
        },
{
    let n = pivots.len();
    let mut k: usize = 0;
    while k < n
        invariant
            n == pivots@.len(),
            k <= n,
            forall|j: int| 0 <= j < k ==> #[trigger] pivots@[j] == Some(*pivot),
        decreases n - k,
    {
        match &pivots[k] {
            None => {
                return Some(k);
            },
            Some(recorded) => {
                if !hash_eq(recorded, pivot) {
                    return Some(k);
                }
            },
        }
        k = k + 1;
    }
    None
}


/// Answers trace queries from the block data store `data_man` and the
/// consensus graph `consensus`, writing addresses for `network`.
pub struct TraceHandler<D, G, N> {
    data_man: D,
    consensus: G,
    network: N,
}

impl<D, G, N> TraceHandler<D, G, N> {
    pub closed spec fn data_man_spec(&self) -> D {
        self.data_man
    }

    pub closed spec fn consensus_spec(&self) -> G {
        self.consensus
    }

    pub closed spec fn network_spec(&self) -> N {
        self.network
    }

    pub fn new(data_man: D, network: N, consensus: G) -> (r: Self)
        ensures
            r.data_man_spec() == data_man,
            r.network_spec() == network,
            r.consensus_spec() == consensus,
    {
        TraceHandler { data_man, consensus, network }
    }

    pub fn data_man(&self) -> (r: &D)
        ensures
            *r == self.data_man_spec(),
    {
        &self.data_man
    }

    pub fn consensus(&self) -> (r: &G)
        ensures
            *r == self.consensus_spec(),
    {
        &self.consensus
    }

    pub fn network(&self) -> (r: &N)
        ensures
            *r == self.network_spec(),
    {
        &self.network
    }
}

/// Answers Ethereum-space trace queries through `trace_handler`.
pub struct EthTraceHandler<D, G, N> {
    pub trace_handler: TraceHandler<D, G, N>,
}


/// Each result belongs to the latest call or create that was still open:
/// every trace opened after it and before the result already had its own.
pub proof fn law_results_close_latest_open_call(kinds: Seq<ActionKind>)
    requires
        kinds.len() <= usize::MAX,
        !pairing_state(kinds).3,
    ensures
        ({
            let steps = pairing_state(kinds).0;
            forall|k: int, t: int, t2: int|
                #[trigger] step_closes(steps, k, t) && t < t2 < open_count(steps.take(k)) ==> #[trigger]
                    closed_before(steps, k, t2)
        }),
{
    lemma_pairing_invariant(kinds);
}

} // verus!
