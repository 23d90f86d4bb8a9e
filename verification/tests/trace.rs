use conflux_logic::trace::{
    first_unusable_block, hash_eq, localize_traces, pair_trace_actions, select_transaction_traces,
    traces_if_any, ActionKind, EthTraceHandler, ExecTrace, LocalizedTrace, PairError, PairStep,
    TraceHandler, TraceLocation, TransactionIndex,
};

use ActionKind::{Call, CallResult, Create, CreateResult, InternalTransfer};

#[test]
fn pairs_nested_calls_last_in_first_out() {
    let (steps, r) = pair_trace_actions(&vec![Call, Create, InternalTransfer, CreateResult, CallResult]);
    assert_eq!(r, Ok(()));
    assert_eq!(
        steps,
        vec![
            PairStep::Open,
            PairStep::Open,
            PairStep::Skip,
            PairStep::Close { trace_index: 1 },
            PairStep::Close { trace_index: 0 },
        ]
    );
}

#[test]
fn pairs_sequential_calls() {
    let (steps, r) = pair_trace_actions(&vec![Call, CallResult, Create, CreateResult]);
    assert_eq!(r, Ok(()));
    assert_eq!(
        steps,
        vec![PairStep::Open, PairStep::Close { trace_index: 0 }, PairStep::Open, PairStep::Close { trace_index: 1 }]
    );
}

#[test]
fn unmatched_result_stops_the_pairing() {
    let (steps, r) = pair_trace_actions(&vec![Call, CallResult, CallResult, Call]);
    assert_eq!(r, Err(PairError::UnmatchedResult));
    assert_eq!(steps, vec![PairStep::Open, PairStep::Close { trace_index: 0 }]);
}

#[test]
fn unmatched_call_is_reported_at_the_end() {
    let (steps, r) = pair_trace_actions(&vec![Call, InternalTransfer]);
    assert_eq!(r, Err(PairError::UnmatchedCall));
    assert_eq!(steps, vec![PairStep::Open, PairStep::Skip]);
}

#[test]
fn empty_traces_pair_trivially() {
    let (steps, r) = pair_trace_actions(&vec![]);
    assert_eq!(r, Ok(()));
    assert!(steps.is_empty());
}

fn tx_index(real_index: usize, is_phantom: bool) -> TransactionIndex {
    TransactionIndex { block_hash: [3; 32], real_index, is_phantom, rpc_index: Some(real_index) }
}

#[test]
fn selects_the_transaction_traces() {
    let block = vec![vec![1], vec![2, 3], vec![]];
    assert_eq!(select_transaction_traces(&tx_index(1, false), block.clone()), Some(vec![2, 3]));
    assert_eq!(select_transaction_traces(&tx_index(2, false), block.clone()), Some(vec![]));
    assert_eq!(select_transaction_traces(&tx_index(3, false), block.clone()), None);
    assert_eq!(select_transaction_traces(&tx_index(1, true), block), None);
}

#[test]
fn localizes_traces_in_order() {
    let location = TraceLocation {
        epoch_hash: [1; 32],
        epoch_number: 42,
        block_hash: [2; 32],
        transaction_position: 5,
        transaction_hash: [9; 32],
    };
    let traces = vec![ExecTrace { action: "a", valid: true }, ExecTrace { action: "b", valid: false }];
    let r = localize_traces(traces, &location);
    let expect = |action, valid| LocalizedTrace {
        action,
        valid,
        epoch_hash: Some([1; 32]),
        epoch_number: Some(42),
        block_hash: Some([2; 32]),
        transaction_position: Some(5),
        transaction_hash: Some([9; 32]),
    };
    assert_eq!(r, vec![expect("a", true), expect("b", false)]);
    assert!(localize_traces(Vec::<ExecTrace<u8>>::new(), &location).is_empty());
}

#[test]
fn no_traces_is_none() {
    assert_eq!(traces_if_any(Vec::<u8>::new()), None);
    assert_eq!(traces_if_any(vec![1u8]), Some(vec![1u8]));
}

#[test]
fn hash_equality_is_bytewise() {
    let mut b = [7u8; 32];
    assert!(hash_eq(&[7; 32], &b));
    b[31] = 0;
    assert!(!hash_eq(&[7; 32], &b));
}

#[test]
fn first_unusable_block_of_epoch() {
    let p = [5u8; 32];
    assert_eq!(first_unusable_block(&p, &vec![Some(p), Some(p)]), None);
    assert_eq!(first_unusable_block(&p, &vec![Some(p), None, Some([6; 32])]), Some(1));
    assert_eq!(first_unusable_block(&p, &vec![Some([6; 32]), None]), Some(0));
    assert_eq!(first_unusable_block(&p, &vec![]), None);
}

#[test]
fn trace_handlers_keep_their_parts() {
    let h = TraceHandler::new("data", 1u32, "consensus");
    assert_eq!((*h.data_man(), *h.network(), *h.consensus()), ("data", 1u32, "consensus"));
    let eth = EthTraceHandler { trace_handler: h };
    assert_eq!(*eth.trace_handler.network(), 1u32);
}

#[test]
fn phantom_transactions_have_no_traced_block() {
    assert_eq!(conflux_logic::trace::traced_block(&tx_index(0, true)), None);
    assert_eq!(conflux_logic::trace::traced_block(&tx_index(0, false)), Some([3; 32]));
}
