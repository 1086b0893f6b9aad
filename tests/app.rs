use spacetraders_gateway::app::{list_move, Tab};
use spacetraders_gateway::io::IoEvent;

#[test]
fn list_selection_wraps_around() {
    assert_eq!(list_move(3, Some(2), 1), Some(0));
    assert_eq!(list_move(3, Some(0), -1), Some(2));
    assert_eq!(list_move(3, Some(1), 1), Some(2));
    assert_eq!(list_move(3, None, 1), Some(0));
    assert_eq!(list_move(0, Some(1), 1), None);
    assert_eq!(list_move(0, None, -1), None);
    assert_eq!(list_move(5, Some(1), -7), Some(4));
}

#[test]
fn tabs_and_io_events_compare() {
    assert_eq!(Tab::Agent, Tab::Agent);
    assert_ne!(Tab::Systems, Tab::Fleet);
    let e = IoEvent::AcceptContract("abc".to_string());
    assert!(matches!(e.clone(), IoEvent::AcceptContract(id) if id == "abc"));
}
