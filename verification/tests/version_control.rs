use uprtcl::commits::{create_commit, create_context, create_perspective, get_commit_history};
use uprtcl::entries::EntryValue;
use uprtcl::errors::UprtclError;
use uprtcl::perspectives::{get_perspective_head, update_perspective_head};
use uprtcl::store::Store;

fn agent() -> String {
    String::from("alice")
}

#[test]
fn commit_creation_is_deterministic() {
    let mut store = Store::new();
    let a1 = create_commit(
        &mut store,
        String::from("data-0"),
        vec![],
        String::from("first"),
        10,
        agent(),
    );
    let a2 = create_commit(
        &mut store,
        String::from("data-0"),
        vec![],
        String::from("first"),
        10,
        agent(),
    );
    assert_eq!(a1, a2);
    // the store holds the entry once
    assert_eq!(store.entries.len(), 1);
}

#[test]
fn different_fields_give_different_addresses() {
    let mut store = Store::new();
    let a1 = create_commit(
        &mut store,
        String::from("data-0"),
        vec![],
        String::from("first"),
        10,
        agent(),
    );
    let a2 = create_commit(
        &mut store,
        String::from("data-0"),
        vec![],
        String::from("first"),
        11,
        agent(),
    );
    assert_ne!(a1, a2);
    assert_eq!(store.entries.len(), 2);
}

#[test]
fn perspective_and_context_have_addresses() {
    let mut store = Store::new();
    let p = create_perspective(
        &mut store,
        Some(String::from("main")),
        5,
        String::from("replica-1"),
        agent(),
    );
    let c = create_context(&mut store, 5, 42, agent());
    assert_ne!(p, c);
    assert!(store.contains(&p));
    assert!(store.contains(&c));
}

#[test]
fn end_to_end_head_and_history() {
    let mut store = Store::new();
    let c0 = create_commit(
        &mut store,
        String::from("d0"),
        vec![],
        String::from("c0"),
        1,
        agent(),
    );
    let p = create_perspective(&mut store, None, 1, String::from("replica-1"), agent());
    update_perspective_head(&mut store, &p, &c0);
    let head = get_perspective_head(&store, &p).unwrap();
    assert_eq!(head, Some(c0.clone()));

    let c1 = create_commit(
        &mut store,
        String::from("d1"),
        vec![c0.clone()],
        String::from("c1"),
        2,
        agent(),
    );
    update_perspective_head(&mut store, &p, &c1);
    let head = get_perspective_head(&store, &p).unwrap();
    assert_eq!(head, Some(c1.clone()));

    // history lists ancestors before descendants
    let history = get_commit_history(&store, &c1).unwrap();
    assert_eq!(history.len(), 2);
    assert_eq!(history[0].message, "c0");
    assert_eq!(history[0].data_id, "d0");
    assert_eq!(history[1].message, "c1");
    assert_eq!(history[1].data_id, "d1");
}

#[test]
fn history_of_merge_commit_deduplicates() {
    let mut store = Store::new();
    let root = create_commit(
        &mut store,
        String::from("d0"),
        vec![],
        String::from("root"),
        1,
        agent(),
    );
    let left = create_commit(
        &mut store,
        String::from("dl"),
        vec![root.clone()],
        String::from("left"),
        2,
        agent(),
    );
    let right = create_commit(
        &mut store,
        String::from("dr"),
        vec![root.clone()],
        String::from("right"),
        3,
        agent(),
    );
    let merge = create_commit(
        &mut store,
        String::from("dm"),
        vec![left.clone(), right.clone()],
        String::from("merge"),
        4,
        agent(),
    );
    let history = get_commit_history(&store, &merge).unwrap();
    // root is reachable through both parents but listed once
    assert_eq!(history.len(), 4);
    assert_eq!(history[3].message, "merge");
    let roots: Vec<&str> = history
        .iter()
        .filter(|c| c.message == "root")
        .map(|c| c.message.as_str())
        .collect();
    assert_eq!(roots.len(), 1);
}

#[test]
fn history_of_missing_commit_is_not_found() {
    let store = Store::new();
    let r = get_commit_history(&store, &String::from("nowhere"));
    assert!(matches!(r, Err(UprtclError::NotFound)));
}

#[test]
fn history_stops_on_missing_parent() {
    let mut store = Store::new();
    let c = create_commit(
        &mut store,
        String::from("d"),
        vec![String::from("missing-parent")],
        String::from("c"),
        1,
        agent(),
    );
    let r = get_commit_history(&store, &c);
    assert!(matches!(r, Err(UprtclError::NotFound)));
}

#[test]
fn stored_commit_can_be_read_back() {
    let mut store = Store::new();
    let a = create_commit(
        &mut store,
        String::from("payload"),
        vec![],
        String::from("hello"),
        7,
        agent(),
    );
    match store.get(&a) {
        Some(EntryValue::Commit(c)) => {
            assert_eq!(c.message, "hello");
            assert_eq!(c.data_id, "payload");
            assert_eq!(c.timestamp, 7);
            assert_eq!(c.creator_id, "alice");
            assert!(c.parents_ids.is_empty());
        }
        _ => panic!("expected a commit under the returned address"),
    }
}
