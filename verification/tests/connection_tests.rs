use http_server::server::connection::{
    connection_step, expired_connections, get_plan, ConnAction, ConnEvent, GetPlan,
};

#[test]
fn connections_close_on_end_errors_and_idleness() {
    assert_eq!(connection_step(0, 10, 30000, false, ConnEvent::Read(0)), ConnAction::Close);
    assert_eq!(connection_step(0, 10, 30000, true, ConnEvent::ReadError), ConnAction::Close);
    assert_eq!(connection_step(0, 10, 30000, false, ConnEvent::WriteError), ConnAction::Close);
    assert_eq!(connection_step(1000, 31001, 30000, false, ConnEvent::Tick), ConnAction::Close);
    assert_eq!(connection_step(1000, 31000, 30000, false, ConnEvent::Tick), ConnAction::Keep);
    assert_eq!(connection_step(5000, 1000, 30000, false, ConnEvent::Tick), ConnAction::Keep);
}

#[test]
fn complete_requests_are_processed() {
    assert_eq!(connection_step(0, 10, 30000, true, ConnEvent::Read(12)), ConnAction::Process);
    assert_eq!(connection_step(0, 10, 30000, false, ConnEvent::Read(12)), ConnAction::Keep);
    assert_eq!(connection_step(0, 10, 30000, true, ConnEvent::Wrote), ConnAction::Keep);
    assert_eq!(connection_step(0, 99999, 30000, false, ConnEvent::WriteWouldBlock), ConnAction::Keep);
}

#[test]
fn get_plans() {
    assert_eq!(get_plan(true, false, false, 0), GetPlan::NotListed);
    assert_eq!(get_plan(true, true, true, 0), GetPlan::ReadOnlyDirectory);
    assert_eq!(get_plan(true, true, false, 0), GetPlan::Listing);
    assert_eq!(get_plan(false, true, true, 1_000_000), GetPlan::WholeFile);
    assert_eq!(get_plan(false, false, false, 1_000_001), GetPlan::ChunkedFile);
}

#[test]
fn sweep_lists_connections_idle_past_the_timeout() {
    let conns = vec![(3, 1000), (4, 5000), (7, 0), (9, 40000)];
    assert_eq!(expired_connections(&conns, 35000, 30000), vec![3, 7]);
    assert_eq!(expired_connections(&conns, 31000, 30000), vec![7]);
    assert_eq!(expired_connections(&Vec::new(), 99999, 30000), Vec::<usize>::new());
}
