use naia_server_sync::entity_message_waitlist::EntityMessageWaitlist;

fn collect(w: &mut EntityMessageWaitlist<&'static str>) -> Vec<&'static str> {
    let mut out = Vec::new();
    w.collect_ready_messages(&mut out);
    out
}

#[test]
fn spawn_effect_example() {
    let mut w = EntityMessageWaitlist::new();
    w.queue_message(vec![1, 2], "spawn-effect");
    w.queue_message(vec![2], "update-E2");
    w.add_entity(&2);
    assert_eq!(collect(&mut w), vec!["update-E2"]);
    w.add_entity(&1);
    assert_eq!(collect(&mut w), vec!["spawn-effect"]);
}

#[test]
fn gated_until_all_dependencies_in_scope() {
    let mut w = EntityMessageWaitlist::new();
    w.queue_message(vec![10, 11], "m");
    w.add_entity(&10);
    assert!(collect(&mut w).is_empty());
    w.add_entity(&11);
    assert_eq!(collect(&mut w), vec!["m"]);
    assert!(collect(&mut w).is_empty());
}

#[test]
fn released_once_despite_scope_churn() {
    let mut w = EntityMessageWaitlist::new();
    w.queue_message(vec![1], "m");
    w.add_entity(&1);
    w.remove_entity(&1);
    w.add_entity(&1);
    w.add_entity(&1);
    assert_eq!(collect(&mut w), vec!["m"]);
    w.remove_entity(&1);
    w.add_entity(&1);
    assert!(collect(&mut w).is_empty());
}

#[test]
fn disjoint_messages_release_independently() {
    let mut w = EntityMessageWaitlist::new();
    w.queue_message(vec![1], "a");
    w.queue_message(vec![2], "b");
    w.queue_message(vec![1, 3], "superset");
    w.add_entity(&1);
    assert_eq!(collect(&mut w), vec!["a"]);
    w.add_entity(&2);
    assert_eq!(collect(&mut w), vec!["b"]);
    w.add_entity(&3);
    assert_eq!(collect(&mut w), vec!["superset"]);
}

#[test]
fn removal_after_release_keeps_ready_message() {
    let mut w = EntityMessageWaitlist::new();
    w.queue_message(vec![4], "m");
    w.add_entity(&4);
    w.remove_entity(&4);
    assert_eq!(collect(&mut w), vec!["m"]);
}

#[test]
fn removal_before_release_blocks_it() {
    let mut w = EntityMessageWaitlist::new();
    w.queue_message(vec![1, 2], "m");
    w.add_entity(&1);
    w.remove_entity(&1);
    w.add_entity(&2);
    assert!(collect(&mut w).is_empty());
    w.add_entity(&1);
    assert_eq!(collect(&mut w), vec!["m"]);
}

#[test]
fn reused_handle_carries_no_old_dependencies() {
    let mut w = EntityMessageWaitlist::new();
    w.queue_message(vec![1, 2], "old");
    w.add_entity(&1);
    w.add_entity(&2);
    assert_eq!(collect(&mut w), vec!["old"]);
    w.queue_message(vec![3], "new");
    w.add_entity(&1);
    w.add_entity(&2);
    assert!(collect(&mut w).is_empty());
    w.add_entity(&3);
    assert_eq!(collect(&mut w), vec!["new"]);
}

#[test]
fn simultaneous_release_in_handle_order() {
    let mut w = EntityMessageWaitlist::new();
    w.queue_message(vec![5], "first");
    w.queue_message(vec![6], "gone");
    w.queue_message(vec![5], "third");
    w.add_entity(&6);
    assert_eq!(collect(&mut w), vec!["gone"]);
    // Handle 1 is free again and goes to the next message.
    w.queue_message(vec![5], "reused");
    w.add_entity(&5);
    assert_eq!(collect(&mut w), vec!["first", "reused", "third"]);
}

#[test]
fn message_without_entities_is_ready_at_once() {
    let mut w = EntityMessageWaitlist::new();
    w.queue_message(vec![], "free");
    assert_eq!(collect(&mut w), vec!["free"]);
}

#[test]
fn collect_appends_to_outgoing_queue() {
    let mut w = EntityMessageWaitlist::new();
    w.queue_message(vec![1], "x");
    w.add_entity(&1);
    let mut out = vec!["earlier"];
    w.collect_ready_messages(&mut out);
    assert_eq!(out, vec!["earlier", "x"]);
}
