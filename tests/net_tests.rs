use task::error::TaskDomainError;
use task::kernel::{Entity, Id};
use task::net::{Net, NetAggregateRoot, RelationType, Status};
use task::task::Task;

fn net() -> Entity<Net> {
    Entity::<Net>::new("Todo".to_string(), "Done".to_string())
}

fn task(n: u128) -> Id<Task> {
    Id::from_u128(n)
}

fn with_tasks(net: &mut Entity<Net>, ids: &[u128]) {
    for &i in ids {
        net.add_task(task(i)).unwrap();
    }
}

#[test]
fn new_net_has_default_then_accepted() {
    let net = net();
    let statuses = net.statuses();
    assert_eq!(statuses.len(), 2);
    assert_eq!(statuses[0].id, net.default_status());
    assert_eq!(statuses[0].data.name, "Todo");
    assert_eq!(statuses[1].id, net.accepted_status());
    assert_eq!(statuses[1].data.name, "Done");
    assert_ne!(net.default_status(), net.accepted_status());
    assert_eq!(net.task_count(), 0);
}

#[test]
fn random_ids_differ() {
    let a: Id<Task> = Id::new();
    let b: Id<Task> = Id::new();
    assert_ne!(a, b);
}

#[test]
fn compose_chain_acceptance() {
    let mut net = net();
    let (d, a) = (net.default_status(), net.accepted_status());
    with_tasks(&mut net, &[1, 2]);
    net.new_relation(task(1), task(2), RelationType::Compose).unwrap();
    assert_eq!(net.task_status(task(1)), Some(d));
    assert_eq!(net.task_status(task(2)), Some(d));
    net.change_task_status(task(1), a).unwrap();
    assert_eq!(net.task_status(task(1)), Some(a));
    assert_eq!(net.task_status(task(2)), Some(a));
}

#[test]
fn require_alone_does_not_accept() {
    let mut net = net();
    let (d, a) = (net.default_status(), net.accepted_status());
    with_tasks(&mut net, &[1, 2]);
    net.new_relation(task(1), task(2), RelationType::Require).unwrap();
    net.change_task_status(task(1), a).unwrap();
    let err = net.change_task_status(task(2), a).unwrap_err();
    assert_eq!(
        err,
        TaskDomainError::RelationConstraintNotSatisfied { net: net.id, task: task(2) }
    );
    assert_eq!(net.task_status(task(2)), Some(d));
}

#[test]
fn mixed_compose_and_require() {
    let mut net = net();
    let (d, a) = (net.default_status(), net.accepted_status());
    with_tasks(&mut net, &[1, 2, 3]);
    net.new_relation(task(1), task(3), RelationType::Compose).unwrap();
    net.new_relation(task(2), task(3), RelationType::Require).unwrap();
    net.change_task_status(task(1), a).unwrap();
    assert_eq!(net.task_status(task(3)), Some(d));
    net.change_task_status(task(2), a).unwrap();
    assert_eq!(net.task_status(task(3)), Some(a));
}

#[test]
fn cycle_rejected() {
    let mut net = net();
    with_tasks(&mut net, &[1, 2]);
    net.new_relation(task(1), task(2), RelationType::Require).unwrap();
    let err = net.new_relation(task(2), task(1), RelationType::Require).unwrap_err();
    assert_eq!(err, TaskDomainError::CycleNotAllowedInNet(net.id));
    assert_eq!(net.relation(task(1), task(2)), Some(RelationType::Require));
    assert_eq!(net.relation(task(2), task(1)), None);
}

#[test]
fn longer_cycle_and_self_relation_rejected() {
    let mut net = net();
    with_tasks(&mut net, &[1, 2, 3]);
    net.new_relation(task(1), task(2), RelationType::Compose).unwrap();
    net.new_relation(task(2), task(3), RelationType::Compose).unwrap();
    assert_eq!(
        net.new_relation(task(3), task(1), RelationType::Require),
        Err(TaskDomainError::CycleNotAllowedInNet(net.id))
    );
    assert_eq!(
        net.new_relation(task(2), task(2), RelationType::Require),
        Err(TaskDomainError::CycleNotAllowedInNet(net.id))
    );
    assert_eq!(net.relation(task(3), task(1)), None);
    assert_eq!(net.relation(task(2), task(2)), None);
}

#[test]
fn remove_relation_keeps_status() {
    let mut net = net();
    let a = net.accepted_status();
    with_tasks(&mut net, &[1, 2]);
    net.new_relation(task(1), task(2), RelationType::Compose).unwrap();
    net.change_task_status(task(1), a).unwrap();
    assert_eq!(net.task_status(task(2)), Some(a));
    net.remove_relation(task(1), task(2)).unwrap();
    assert_eq!(net.relation(task(1), task(2)), None);
    assert_eq!(net.task_status(task(2)), Some(a));
}

#[test]
fn remove_status_migrates_to_default() {
    let mut net = net();
    let d = net.default_status();
    net.new_status("x".to_string());
    let sx = net.statuses()[2].id;
    with_tasks(&mut net, &[1]);
    net.change_task_status(task(1), sx).unwrap();
    assert_eq!(net.task_status(task(1)), Some(sx));
    net.remove_status(sx).unwrap();
    assert!(net.statuses().iter().all(|s| s.id != sx));
    assert_eq!(net.statuses().len(), 2);
    assert_eq!(net.task_status(task(1)), Some(d));
}

#[test]
fn default_and_accepted_not_removable() {
    let mut net = net();
    let (d, a) = (net.default_status(), net.accepted_status());
    assert_eq!(
        net.remove_status(d),
        Err(TaskDomainError::StatusNotRemovable { net: net.id, status: d })
    );
    assert_eq!(
        net.remove_status(a),
        Err(TaskDomainError::StatusNotRemovable { net: net.id, status: a })
    );
    assert_eq!(net.statuses().len(), 2);
}

#[test]
fn unknown_status_not_found() {
    let mut net = net();
    let unknown: Id<Status> = Id::from_u128(42);
    let expected = Err(TaskDomainError::StatusNotFoundInNet { net: net.id, status: unknown });
    assert_eq!(net.remove_status(unknown), expected);
    assert_eq!(net.change_status_name(unknown, "y".to_string()), expected);
    assert_eq!(net.change_default(unknown), expected);
    with_tasks(&mut net, &[1]);
    assert_eq!(net.change_task_status(task(1), unknown), expected);
    assert_eq!(net.task_status(task(1)), Some(net.default_status()));
}

#[test]
fn controlled_task_status_refused() {
    let mut net = net();
    let a = net.accepted_status();
    with_tasks(&mut net, &[1, 2]);
    net.new_relation(task(1), task(2), RelationType::Compose).unwrap();
    assert_eq!(
        net.change_task_status(task(2), a),
        Err(TaskDomainError::RelationConstraintNotSatisfied { net: net.id, task: task(2) })
    );
}

#[test]
fn unknown_task_not_found() {
    let mut net = net();
    let a = net.accepted_status();
    assert_eq!(
        net.change_task_status(task(9), a),
        Err(TaskDomainError::TaskNotFoundInNet { net: net.id, task: task(9) })
    );
    with_tasks(&mut net, &[1]);
    assert_eq!(
        net.new_relation(task(9), task(1), RelationType::Compose),
        Err(TaskDomainError::TaskNotFoundInNet { net: net.id, task: task(9) })
    );
    assert_eq!(
        net.new_relation(task(1), task(9), RelationType::Compose),
        Err(TaskDomainError::TaskNotFoundInNet { net: net.id, task: task(9) })
    );
    assert_eq!(net.relation(task(1), task(9)), None);
    assert_eq!(net.task_count(), 1);
}

#[test]
fn task_already_in_net() {
    let mut net = net();
    with_tasks(&mut net, &[1]);
    assert_eq!(
        net.add_task(task(1)),
        Err(TaskDomainError::TaskAlreadyInNet { task: task(1), net: net.id })
    );
    assert_eq!(net.task_count(), 1);
}

#[test]
fn add_then_remove_task_restores() {
    let mut net = net();
    let a = net.accepted_status();
    with_tasks(&mut net, &[1, 2]);
    net.new_relation(task(1), task(2), RelationType::Compose).unwrap();
    net.change_task_status(task(1), a).unwrap();
    net.add_task(task(3)).unwrap();
    assert_eq!(net.task_count(), 3);
    net.remove_task(task(3)).unwrap();
    assert_eq!(net.task_count(), 2);
    assert_eq!(net.task_status(task(3)), None);
    assert_eq!(net.task_status(task(1)), Some(a));
    assert_eq!(net.task_status(task(2)), Some(a));
    assert_eq!(net.relation(task(1), task(2)), Some(RelationType::Compose));
}

#[test]
fn remove_task_drops_its_relations_and_repropagates() {
    let mut net = net();
    let (d, a) = (net.default_status(), net.accepted_status());
    with_tasks(&mut net, &[1, 2, 3]);
    net.new_relation(task(1), task(3), RelationType::Compose).unwrap();
    net.new_relation(task(2), task(3), RelationType::Compose).unwrap();
    net.change_task_status(task(1), a).unwrap();
    assert_eq!(net.task_status(task(3)), Some(d));
    net.remove_task(task(2)).unwrap();
    assert_eq!(net.relation(task(2), task(3)), None);
    assert_eq!(net.task_status(task(3)), Some(a));
}

#[test]
fn remove_absent_task_changes_nothing() {
    let mut net = net();
    let a = net.accepted_status();
    with_tasks(&mut net, &[1, 2]);
    net.new_relation(task(1), task(2), RelationType::Compose).unwrap();
    net.change_task_status(task(1), a).unwrap();
    net.remove_task(task(7)).unwrap();
    assert_eq!(net.task_count(), 2);
    assert_eq!(net.task_status(task(1)), Some(a));
    assert_eq!(net.task_status(task(2)), Some(a));
}

#[test]
fn new_status_twice_gives_distinct_ids() {
    let mut net = net();
    net.new_status("n".to_string());
    net.new_status("n".to_string());
    let statuses = net.statuses();
    assert_eq!(statuses.len(), 4);
    assert_ne!(statuses[2].id, statuses[3].id);
    assert_eq!(statuses[2].data.name, "n");
    assert_eq!(statuses[3].data.name, "n");
}

#[test]
fn change_default_to_current_is_noop() {
    let mut net = net();
    let d = net.default_status();
    with_tasks(&mut net, &[1, 2]);
    net.change_default(d).unwrap();
    assert_eq!(net.default_status(), d);
    assert_eq!(net.statuses().len(), 2);
    assert_eq!(net.task_status(task(1)), Some(d));
    assert_eq!(net.task_status(task(2)), Some(d));
}

#[test]
fn change_default_moves_only_old_default_holders() {
    let mut net = net();
    let d = net.default_status();
    net.new_status("x".to_string());
    let sx = net.statuses()[2].id;
    with_tasks(&mut net, &[1, 2]);
    net.change_task_status(task(2), sx).unwrap();
    net.new_status("y".to_string());
    let sy = net.statuses()[3].id;
    net.change_default(sx).unwrap();
    assert_eq!(net.default_status(), sx);
    assert_eq!(net.task_status(task(1)), Some(sx));
    assert_eq!(net.task_status(task(2)), Some(sx));
    net.change_task_status(task(2), d).unwrap();
    net.change_default(sy).unwrap();
    assert_eq!(net.task_status(task(1)), Some(sy));
    assert_eq!(net.task_status(task(2)), Some(d));
}

#[test]
fn propagation_runs_down_a_chain() {
    let mut net = net();
    let (d, a) = (net.default_status(), net.accepted_status());
    with_tasks(&mut net, &[1, 2, 3]);
    net.new_relation(task(2), task(3), RelationType::Compose).unwrap();
    net.new_relation(task(1), task(2), RelationType::Compose).unwrap();
    net.change_task_status(task(1), a).unwrap();
    assert_eq!(net.task_status(task(2)), Some(a));
    assert_eq!(net.task_status(task(3)), Some(a));
    net.change_task_status(task(1), d).unwrap();
    assert_eq!(net.task_status(task(2)), Some(d));
    assert_eq!(net.task_status(task(3)), Some(d));
}

#[test]
fn new_relation_to_accepted_parent_accepts_at_once() {
    let mut net = net();
    let a = net.accepted_status();
    with_tasks(&mut net, &[1, 2]);
    net.change_task_status(task(1), a).unwrap();
    net.new_relation(task(1), task(2), RelationType::Compose).unwrap();
    assert_eq!(net.task_status(task(2)), Some(a));
}

#[test]
fn new_relation_replaces_type() {
    let mut net = net();
    let (d, a) = (net.default_status(), net.accepted_status());
    with_tasks(&mut net, &[1, 2]);
    net.change_task_status(task(1), a).unwrap();
    net.new_relation(task(1), task(2), RelationType::Require).unwrap();
    assert_eq!(net.task_status(task(2)), Some(d));
    net.new_relation(task(1), task(2), RelationType::Compose).unwrap();
    assert_eq!(net.relation(task(1), task(2)), Some(RelationType::Compose));
    assert_eq!(net.task_status(task(2)), Some(a));
}

#[test]
fn controlled_status_follows_parents() {
    let mut net = net();
    let (d, a) = (net.default_status(), net.accepted_status());
    with_tasks(&mut net, &[1, 2, 3]);
    net.new_relation(task(1), task(3), RelationType::Compose).unwrap();
    net.new_relation(task(2), task(3), RelationType::Compose).unwrap();
    net.change_task_status(task(1), a).unwrap();
    net.change_task_status(task(2), a).unwrap();
    assert_eq!(net.task_status(task(3)), Some(a));
    net.change_task_status(task(2), d).unwrap();
    assert_eq!(net.task_status(task(3)), Some(d));
}

#[test]
fn change_default_to_accepted_propagates() {
    let mut net = net();
    let (d, a) = (net.default_status(), net.accepted_status());
    net.new_status("x".to_string());
    let sx = net.statuses()[2].id;
    with_tasks(&mut net, &[1, 2]);
    net.change_task_status(task(2), sx).unwrap();
    net.new_relation(task(1), task(2), RelationType::Compose).unwrap();
    assert_eq!(net.task_status(task(1)), Some(d));
    assert_eq!(net.task_status(task(2)), Some(sx));
    net.change_default(a).unwrap();
    assert_eq!(net.default_status(), a);
    assert_eq!(net.task_status(task(1)), Some(a));
    assert_eq!(net.task_status(task(2)), Some(a));
}

#[test]
fn require_only_child_keeps_its_status() {
    let mut net = net();
    let a = net.accepted_status();
    with_tasks(&mut net, &[1, 2]);
    net.change_task_status(task(1), a).unwrap();
    net.change_task_status(task(2), a).unwrap();
    net.new_relation(task(1), task(2), RelationType::Require).unwrap();
    assert_eq!(net.task_status(task(2)), Some(a));
}

#[test]
fn task_ids_lists_each_task_once() {
    let mut net = net();
    with_tasks(&mut net, &[3, 1, 2]);
    net.remove_task(task(1)).unwrap();
    let mut ids: Vec<u128> = net.task_ids().iter().map(|t| t.id).collect();
    ids.sort();
    assert_eq!(ids, vec![2, 3]);
}

#[test]
fn relations_lists_each_edge_once() {
    let mut net = net();
    with_tasks(&mut net, &[1, 2, 3]);
    net.new_relation(task(1), task(2), RelationType::Require).unwrap();
    net.new_relation(task(2), task(3), RelationType::Compose).unwrap();
    net.new_relation(task(1), task(2), RelationType::Compose).unwrap();
    let mut edges: Vec<(u128, u128, RelationType)> =
        net.relations().iter().map(|(a, b, w)| (a.id, b.id, *w)).collect();
    edges.sort_by_key(|e| (e.0, e.1));
    assert_eq!(
        edges,
        vec![(1, 2, RelationType::Compose), (2, 3, RelationType::Compose)]
    );
}
