use line_echo::websockets::{WsError, WsResult};

#[test]
fn ws_error_describes_itself() {
    assert_eq!(WsError::AddrInUse.message(), "Address In Use");
}

#[test]
fn ws_result_carries_errors() {
    let r: WsResult<u32> = Err(WsError::AddrInUse);
    assert!(matches!(r, Err(WsError::AddrInUse)));
    let ok: WsResult<u32> = Ok(7);
    assert_eq!(ok.unwrap(), 7);
}
