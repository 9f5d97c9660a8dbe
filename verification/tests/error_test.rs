use volo_loadbalance::error::LoadBalanceError;

fn assert_send_sync<T: Send + Sync>() {}

#[test]
fn test_error_variants() {
    // Test NoAvailableNodes error
    let no_nodes_error = LoadBalanceError::NoAvailableNodes;
    assert_eq!(no_nodes_error.message(), "no available nodes");

    // Test MissingHashKey error
    let missing_key_error = LoadBalanceError::MissingHashKey;
    assert_eq!(missing_key_error.message(), "hash key missing");
}

#[test]
fn test_error_debug() {
    let no_nodes_error = LoadBalanceError::NoAvailableNodes;
    let debug_output = format!("{:?}", no_nodes_error);

    // Ensure Debug trait works correctly
    assert!(debug_output.contains("NoAvailableNodes"));

    let missing_key_error = LoadBalanceError::MissingHashKey;
    let debug_output2 = format!("{:?}", missing_key_error);
    assert!(debug_output2.contains("MissingHashKey"));
}

#[test]
fn test_error_send_sync() {
    assert_send_sync::<LoadBalanceError>();
}
