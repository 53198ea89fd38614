use lsp_sidecar::supervisor::{LspError, Supervisor};

#[test]
fn send_with_no_prior_start_fails_not_running() {
    let sup = Supervisor::new();
    assert_eq!(sup.check_send(), Err(LspError::NotRunning));
}

#[test]
fn stop_with_no_prior_start_is_a_no_op() {
    let mut sup = Supervisor::new();
    sup.stop();
    sup.stop();
    assert_eq!(sup.check_send(), Err(LspError::NotRunning));
}

#[test]
fn start_installs_a_session() {
    let mut sup = Supervisor::new();
    let sid = sup.start();
    assert_eq!(sup.check_send(), Ok(sid));
}

#[test]
fn restart_discards_the_prior_session() {
    let mut sup = Supervisor::new();
    let first = sup.start();
    let second = sup.start();
    assert_ne!(first, second);
    // a send now is directed at the fresh session alone
    assert_eq!(sup.check_send(), Ok(second));
}

#[test]
fn stop_after_start_refuses_send() {
    let mut sup = Supervisor::new();
    sup.start();
    sup.stop();
    assert_eq!(sup.check_send(), Err(LspError::NotRunning));
}

#[test]
fn session_numbers_never_repeat() {
    let mut sup = Supervisor::new();
    let mut seen = Vec::new();
    for _ in 0..5 {
        assert!(sup.can_start());
        let sid = sup.start();
        assert!(!seen.contains(&sid));
        seen.push(sid);
        sup.stop();
    }
}
