use sdle::proxy::{BackendOutcome, ProxyRouter};

const SERVER: &str = "67e55044-10b1-426f-9247-bb680e5fe0c8";

#[test]
fn client_requests_go_to_the_target_server() {
    let router = ProxyRouter::new();
    let out = router.on_frontend(vec![b"client".to_vec(), vec![], b"{}".to_vec()]);
    assert_eq!(out, vec![b"peer1".to_vec(), b"client".to_vec(), vec![], b"{}".to_vec()]);
}

#[test]
fn an_announcement_registers_the_server() {
    let mut router = ProxyRouter::new();
    match router.on_backend(vec![SERVER.as_bytes().to_vec(), b"READY".to_vec()]) {
        BackendOutcome::Registered(id) => assert_eq!(id, 0x67e55044_10b1_426f_9247_bb680e5fe0c8u128),
        _ => panic!("expected a registration"),
    }
    assert!(matches!(
        router.on_backend(vec![b"not a uuid".to_vec(), b"READY".to_vec()]),
        BackendOutcome::Dropped
    ));
}

#[test]
fn replies_lose_the_server_frame() {
    let mut router = ProxyRouter::new();
    match router.on_backend(vec![SERVER.as_bytes().to_vec(), b"client".to_vec(), vec![], b"ok".to_vec()]) {
        BackendOutcome::Forward(frames) => {
            assert_eq!(frames, vec![b"client".to_vec(), vec![], b"ok".to_vec()])
        }
        _ => panic!("expected frames to forward"),
    }
    match router.on_backend(vec![SERVER.as_bytes().to_vec(), b"READ".to_vec()]) {
        BackendOutcome::Forward(frames) => assert_eq!(frames, vec![b"READ".to_vec()]),
        _ => panic!("expected frames to forward"),
    }
    match router.on_backend(vec![]) {
        BackendOutcome::Forward(frames) => assert!(frames.is_empty()),
        _ => panic!("expected frames to forward"),
    }
}
