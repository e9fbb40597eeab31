use task::kernel::{Entity, Id};
use task::list::{List, ListAggregateRoot};
use task::net::{Net, NetAggregateRoot, RelationType};
use task::task::{Task, TaskAggregateRoot};

#[test]
fn list_test_rename() {
    let mut list = Entity::<List>::new("Test List".to_string());
    list.rename("Renamed List".to_string());
    assert_eq!(list.data.title, "Renamed List");
}

#[test]
fn list_test_new() {
    let list = Entity::<List>::new("New List".to_string());
    assert_eq!(list.data.title, "New List");
}

#[test]
fn task_test_rename() {
    let list_id = Id::new();
    let mut task = Entity::<Task>::new("Test Task".to_string(), list_id);
    task.rename("Renamed Task".to_string());
    assert_eq!(task.data.name, "Renamed Task");
}

#[test]
fn task_test_new() {
    let list_id = Id::new();
    let task = Entity::<Task>::new("New Task".to_string(), list_id);
    assert_eq!(task.data.name, "New Task");
    assert_eq!(task.data.list, list_id);
}

#[test]
fn test_categorize_to() {
    let list_id = Id::new();
    let new_list_id = Id::new();
    let mut task = Entity::<Task>::new("Test Task".to_string(), list_id);
    task.categorize_to(new_list_id);
    assert_eq!(task.data.list, new_list_id);
}

#[test]
fn test_list_aggregate_root() {
    let mut list = Entity::<List>::new("Test List".to_string());
    assert_eq!(list.data.title, "Test List");

    list.rename("Renamed List".to_string());
    assert_eq!(list.data.title, "Renamed List");
}

#[test]
fn test_task_aggregate_root() {
    let list_id = Id::new();
    let mut task = Entity::<Task>::new("Test Task".to_string(), list_id);
    assert_eq!(task.data.name, "Test Task");
    assert_eq!(task.data.list, list_id);

    task.rename("Renamed Task".to_string());
    assert_eq!(task.data.name, "Renamed Task");

    let new_list_id = Id::new();
    task.categorize_to(new_list_id);
    assert_eq!(task.data.list, new_list_id);
}

// A network always holds its default and accepted statuses, so the status
// added here is the third one.
#[test]
fn test_net_aggregate_root() {
    let mut net = Entity::<Net>::new("Default".to_string(), "Accepted".to_string());

    net.new_status("New Status".to_string());
    assert_eq!(net.statuses().len(), 3);
    assert_eq!(net.statuses()[2].data.name, "New Status");

    let status_id = net.statuses()[2].id;
    net.change_status_name(status_id, "Renamed Status".to_string())
        .unwrap();
    assert_eq!(net.statuses()[2].data.name, "Renamed Status");

    net.change_default(status_id).unwrap();
    assert_eq!(net.default_status(), status_id);

    let task_id = Id::new();
    net.add_task(task_id).unwrap();
    assert_eq!(net.task_count(), 1);
    assert_eq!(net.task_status(task_id), Some(status_id));

    net.change_task_status(task_id, net.accepted_status())
        .unwrap();
    assert_eq!(net.task_status(task_id), Some(net.accepted_status()));

    let task_id_2 = Id::new();
    net.add_task(task_id_2).unwrap();
    net.new_relation(task_id, task_id_2, RelationType::Compose)
        .unwrap();
    assert!(net.relation(task_id, task_id_2).is_some());

    net.remove_relation(task_id, task_id_2).unwrap();
    assert!(net.relation(task_id, task_id_2).is_none());

    net.remove_task(task_id).unwrap();
    assert!(net.task_status(task_id).is_none());
}
