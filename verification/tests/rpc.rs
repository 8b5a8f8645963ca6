use guinea::rpc::{request_chain, Pending, Requesting};
use std::any::TypeId;

#[test]
fn a_request_awaited_up_the_chain_is_a_cycle() {
    let chain = vec![TypeId::of::<u8>(), TypeId::of::<u16>()];
    match request_chain(&chain, TypeId::of::<u8>()) {
        Requesting::Cycle { depth } => assert_eq!(depth, 2),
        Requesting::Go { .. } => panic!("a request awaiting itself must be refused"),
    }
    match request_chain(&chain, TypeId::of::<u32>()) {
        Requesting::Go { chain: next } => {
            assert_eq!(next, vec![TypeId::of::<u8>(), TypeId::of::<u16>(), TypeId::of::<u32>()])
        }
        Requesting::Cycle { .. } => panic!("a new request goes out"),
    }
    assert!(matches!(request_chain(&Vec::new(), TypeId::of::<u8>()), Requesting::Go { .. }));
}

#[test]
fn a_reply_reaches_its_request_once() {
    let mut pending: Pending<&str> = Pending::new();
    pending.wait(7, "first");
    pending.wait(9, "second");
    assert_eq!(pending.take(7), Some("first"));
    assert_eq!(pending.take(7), None, "a reply is handed over once");
    pending.wait(9, "again");
    assert_eq!(pending.take(9), Some("again"), "waiting again under an id replaces the earlier one");
    assert_eq!(pending.take(9), None);
}
