use conflux_logic::block_retrieval::BlockRetrievalRpcResponse;
use conflux_logic::pool::TransactionPoolHandler;
use std::sync::Arc;

#[test]
fn pool_handler_delegates_to_common() {
    let common = Arc::new(String::from("common"));
    let handler = TransactionPoolHandler::new(common.clone());
    assert!(Arc::ptr_eq(handler.common(), &common));
}

#[test]
fn block_retrieval_response_keeps_request_id() {
    let r = BlockRetrievalRpcResponse::new(17, vec![1u8, 2]);
    assert_eq!(r.request_id, 17);
    assert_eq!(r.response, vec![1, 2]);
}
