use ranked_stream::tasks::{Task, TaskContent, TaskEvent, TaskFilter, TaskStore};

fn gen_task(id: u64) -> Task {
    Task {
        id,
        index_uid: String::from("test"),
        content: TaskContent::CreateIndex { primary_key: None },
        events: Vec::new(),
    }
}

/// The next task identifier is zero in an empty store and moves past the
/// highest stored identifier: storing a task below it leaves it unchanged,
/// storing one at or above it moves it to the task's identifier plus one.
#[test]
fn test_increment_task_id() {
    let mut store = TaskStore::new();
    assert_eq!(store.next_task_id(), 0);

    let ids: Vec<u64> = (0..100u64).map(|i| (i * 37 + 11) % 100).collect();
    for id in ids {
        let previous_id = store.next_task_id();

        store.put(gen_task(id));

        let next_id = store.next_task_id();

        // if we put a task whose id is below the next_id, then the next_id
        // remains unchanged, otherwise it becomes task.id + 1
        if id < previous_id {
            assert_eq!(next_id, previous_id);
        } else {
            assert_eq!(next_id, id + 1);
        }
    }
}

/// A filter with no index admits every task; one with indexes admits
/// exactly the tasks of those indexes.
#[test]
fn filter_admits_named_indexes() {
    let empty = TaskFilter::default();
    assert!(empty.pass(&gen_task(0)));

    let mut filter = TaskFilter::default();
    filter.filter_index(String::from("movies"));
    filter.filter_index(String::from("test"));
    assert!(filter.pass(&gen_task(1)));

    let mut other = TaskFilter::default();
    other.filter_index(String::from("movies"));
    assert!(!other.pass(&gen_task(1)));
}

/// Registering stores a record under the next identifier with a creation
/// event, and queues it as pending.
#[test]
fn register_assigns_increasing_ids() {
    let mut store = TaskStore::new();
    let a = store.register(
        String::from("test"),
        TaskContent::CreateIndex { primary_key: Some(String::from("id")) },
        1000,
    );
    let b = store.register(String::from("test"), TaskContent::IndexDeletion, 2000);
    assert_eq!(a, 0);
    assert_eq!(b, 1);
    let task = store.get(a).unwrap();
    assert_eq!(task.id, 0);
    assert_eq!(task.index_uid, "test");
    assert_eq!(task.events, vec![TaskEvent::Created(1000)]);
    assert_eq!(store.peek_pending(), Some(0));
}

/// The pending queue serves the smallest identifier first, and deleting
/// identifiers removes them from the queue without touching the records.
#[test]
fn pending_queue_serves_smallest() {
    let mut store = TaskStore::new();
    let a = store.register(String::from("test"), TaskContent::IndexDeletion, 1);
    let b = store.register(String::from("test"), TaskContent::IndexDeletion, 2);
    let c = store.register(String::from("test"), TaskContent::IndexDeletion, 3);
    assert_eq!(store.peek_pending(), Some(a));
    store.delete_tasks(&vec![a, c]);
    assert_eq!(store.peek_pending(), Some(b));
    assert!(store.get(a).is_some());
    assert!(store.get(c).is_some());
    store.delete_tasks(&vec![b]);
    assert_eq!(store.peek_pending(), None);
}

/// A missing task is an error; a filter that rejects the task reports it
/// exactly as missing.
#[test]
fn get_task_applies_filter() {
    let mut store = TaskStore::new();
    store.register(String::from("movies"), TaskContent::IndexDeletion, 5);
    assert!(store.get_task(0, None).is_ok());
    assert!(store.get_task(9, None).is_err());

    let mut filter = TaskFilter::default();
    filter.filter_index(String::from("movies"));
    assert!(store.get_task(0, Some(&filter)).is_ok());

    let mut other = TaskFilter::default();
    other.filter_index(String::from("books"));
    assert!(store.get_task(0, Some(&other)).is_err());
}

/// The processing task is the smallest pending one, only while its latest
/// event says it is being processed.
#[test]
fn processing_task_follows_events() {
    let mut store = TaskStore::new();
    let id = store.register(String::from("test"), TaskContent::IndexDeletion, 7);
    assert_eq!(store.get_processing_task().unwrap().map(|t| t.id), None);

    let mut task = gen_task(id);
    task.events = vec![TaskEvent::Created(7), TaskEvent::Processing(8)];
    store.update_tasks(vec![task]);
    assert_eq!(store.get_processing_task().unwrap().map(|t| t.id), Some(id));
}

/// Listing walks the records from the highest identifier down, honouring
/// offset, filter and limit.
#[test]
fn list_tasks_descending_with_limit() {
    let mut store = TaskStore::new();
    for i in 0..5u64 {
        let uid = if i % 2 == 0 { "even" } else { "odd" };
        store.register(String::from(uid), TaskContent::IndexDeletion, i as i64);
    }
    let all = store.list_tasks(None, None, None);
    let ids: Vec<u64> = all.iter().map(|t| t.id).collect();
    assert_eq!(ids, vec![4, 3, 2, 1, 0]);

    let limited = store.list_tasks(None, None, Some(2));
    let ids: Vec<u64> = limited.iter().map(|t| t.id).collect();
    assert_eq!(ids, vec![4, 3]);

    let offset = store.list_tasks(Some(2), None, None);
    let ids: Vec<u64> = offset.iter().map(|t| t.id).collect();
    assert_eq!(ids, vec![2, 1, 0]);

    let mut filter = TaskFilter::default();
    filter.filter_index(String::from("even"));
    let filtered = store.list_tasks(None, Some(&filter), None);
    let ids: Vec<u64> = filtered.iter().map(|t| t.id).collect();
    assert_eq!(ids, vec![4, 2, 0]);
}

/// Updating replaces records by identifier and leaves others alone.
#[test]
fn update_replaces_by_id() {
    let mut store = TaskStore::new();
    store.register(String::from("test"), TaskContent::IndexDeletion, 1);
    store.register(String::from("test"), TaskContent::IndexDeletion, 2);
    let mut replacement = gen_task(0);
    replacement.events = vec![TaskEvent::Succeeded(9)];
    store.update_tasks(vec![replacement]);
    assert_eq!(store.get(0).unwrap().events, vec![TaskEvent::Succeeded(9)]);
    assert_eq!(store.get(1).unwrap().events, vec![TaskEvent::Created(2)]);
}
