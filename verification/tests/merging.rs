use uprtcl::commits::create_commit;
use uprtcl::entries::{EntryValue, Link, Object};
use uprtcl::errors::UprtclError;
use uprtcl::merge::{
    find_most_recent_common_ancestor, get_merge_result, merge_commits, merge_commits_contents,
    merge_objects, store_object,
};
use uprtcl::perspectives::{
    get_perspective_context, get_perspective_head, merge_perspectives, update_perspective_context,
    update_perspective_head,
};
use uprtcl::store::Store;

fn agent() -> String {
    String::from("alice")
}

fn commit(store: &mut Store, data: &str, parents: Vec<String>, msg: &str, ts: u64) -> String {
    create_commit(
        store,
        String::from(data),
        parents,
        String::from(msg),
        ts,
        agent(),
    )
}

fn object(data: Option<&str>, links: Vec<(&str, &str)>) -> Object {
    Object {
        data: data.map(String::from),
        links: links
            .into_iter()
            .map(|(n, a)| Link {
                name: String::from(n),
                address: String::from(a),
            })
            .collect(),
    }
}

#[test]
fn ancestor_of_fork_is_the_fork_point() {
    let mut store = Store::new();
    let a = commit(&mut store, "da", vec![], "a", 1);
    let b = commit(&mut store, "db", vec![a.clone()], "b", 2);
    let c = commit(&mut store, "dc", vec![b.clone()], "c", 3);
    let d = commit(&mut store, "dd", vec![c.clone()], "d", 4);
    let e = commit(&mut store, "de", vec![c.clone()], "e", 5);
    let lca = find_most_recent_common_ancestor(&store, &d, &e).unwrap();
    assert_eq!(lca, c);
}

#[test]
fn disjoint_histories_have_no_common_ancestor() {
    let mut store = Store::new();
    let x1 = commit(&mut store, "dx1", vec![], "x1", 1);
    let x2 = commit(&mut store, "dx2", vec![x1.clone()], "x2", 2);
    let y1 = commit(&mut store, "dy1", vec![], "y1", 3);
    let y2 = commit(&mut store, "dy2", vec![y1.clone()], "y2", 4);
    let r = find_most_recent_common_ancestor(&store, &x2, &y2);
    assert!(matches!(r, Err(UprtclError::NoCommonAncestor)));
}

#[test]
fn ancestor_search_reports_missing_commits() {
    let store = Store::new();
    let r = find_most_recent_common_ancestor(
        &store,
        &String::from("ghost-1"),
        &String::from("ghost-2"),
    );
    assert!(matches!(r, Err(UprtclError::NotFound)));
}

#[test]
fn merge_slot_keeps_the_changed_side() {
    let anc = Some(String::from("old"));
    let from = Some(String::from("new"));
    let to = Some(String::from("old"));
    // changed only on the from side: keep from
    let r = get_merge_result(&from, &to, &anc).unwrap();
    assert_eq!(r, Some(String::from("new")));
    // changed only on the to side: keep to
    let r = get_merge_result(&to, &from, &anc).unwrap();
    assert_eq!(r, Some(String::from("new")));
    // unchanged everywhere: keep the common value
    let r = get_merge_result(&to, &to, &anc).unwrap();
    assert_eq!(r, Some(String::from("old")));
}

#[test]
fn merge_slot_conflicts_on_double_change() {
    let anc = Some(String::from("old"));
    let from = Some(String::from("left"));
    let to = Some(String::from("right"));
    let r = get_merge_result(&from, &to, &anc);
    assert!(matches!(r, Err(UprtclError::Conflict(None))));
}

#[test]
fn merge_objects_joins_disjoint_additions() {
    let anc = object(None, vec![("a", "X")]);
    let from = object(None, vec![("a", "X"), ("b", "Y")]);
    let to = object(None, vec![("a", "X"), ("c", "Z")]);
    let merged = merge_objects(&from, &to, &anc).unwrap();
    assert!(merged.data.is_none());
    let names: Vec<&str> = merged.links.iter().map(|l| l.name.as_str()).collect();
    let addrs: Vec<&str> = merged.links.iter().map(|l| l.address.as_str()).collect();
    assert_eq!(names, vec!["a", "b", "c"]);
    assert_eq!(addrs, vec!["X", "Y", "Z"]);
}

#[test]
fn merge_objects_names_the_conflicting_key() {
    let anc = object(None, vec![("a", "X")]);
    let from = object(None, vec![("a", "L")]);
    let to = object(None, vec![("a", "R")]);
    let r = merge_objects(&from, &to, &anc);
    match r {
        Err(UprtclError::Conflict(Some(key))) => assert_eq!(key, "a"),
        other => panic!("expected a conflict naming the key, got {:?}", other.is_ok()),
    }
}

#[test]
fn merge_objects_conflicts_on_the_data_slot() {
    let anc = object(Some("base"), vec![]);
    let from = object(Some("left"), vec![]);
    let to = object(Some("right"), vec![]);
    let r = merge_objects(&from, &to, &anc);
    assert!(matches!(r, Err(UprtclError::Conflict(None))));
}

#[test]
fn equal_payloads_merge_to_the_shared_payload() {
    let mut store = Store::new();
    let shared = String::from("same-data");
    let c1 = commit(&mut store, "same-data", vec![], "one", 1);
    let c2 = commit(&mut store, "same-data", vec![], "two", 2);
    let r = merge_commits_contents(&mut store, &c1, &c2).unwrap();
    assert_eq!(r, shared);
}

#[test]
fn merge_end_to_end_produces_a_merge_commit() {
    let mut store = Store::new();
    let oa = store_object(&mut store, object(None, vec![("a", "X")]));
    let ca = commit(&mut store, &oa, vec![], "base", 1);
    let o1 = store_object(&mut store, object(None, vec![("a", "X"), ("b", "Y")]));
    let c1 = commit(&mut store, &o1, vec![ca.clone()], "branch-1", 2);
    let o2 = store_object(&mut store, object(None, vec![("a", "X"), ("c", "Z")]));
    let c2 = commit(&mut store, &o2, vec![ca.clone()], "branch-2", 3);

    let merged = merge_commits(&mut store, &c1, &c2, String::from("join"), 4, agent()).unwrap();

    let merged_commit = match store.get(&merged) {
        Some(EntryValue::Commit(c)) => c,
        _ => panic!("merge commit not stored"),
    };
    assert_eq!(merged_commit.message, "join");
    assert_eq!(merged_commit.parents_ids, vec![c1.clone(), c2.clone()]);
    let merged_object = match store.get(&merged_commit.data_id) {
        Some(EntryValue::Object(o)) => o,
        _ => panic!("merged payload not stored"),
    };
    let pairs: Vec<(&str, &str)> = merged_object
        .links
        .iter()
        .map(|l| (l.name.as_str(), l.address.as_str()))
        .collect();
    assert_eq!(pairs, vec![("a", "X"), ("b", "Y"), ("c", "Z")]);
}

#[test]
fn merge_perspectives_moves_the_head() {
    let mut store = Store::new();
    let oa = store_object(&mut store, object(None, vec![("a", "X")]));
    let ca = commit(&mut store, &oa, vec![], "base", 1);
    let o1 = store_object(&mut store, object(None, vec![("a", "X"), ("b", "Y")]));
    let c1 = commit(&mut store, &o1, vec![ca.clone()], "branch-1", 2);
    let o2 = store_object(&mut store, object(None, vec![("a", "X"), ("c", "Z")]));
    let c2 = commit(&mut store, &o2, vec![ca.clone()], "branch-2", 3);

    let p_from = String::from("perspective-from");
    let p_to = String::from("perspective-to");
    update_perspective_head(&mut store, &p_from, &c1);
    update_perspective_head(&mut store, &p_to, &c2);

    let merged =
        merge_perspectives(&mut store, &p_from, &p_to, String::from("join"), 4, agent()).unwrap();
    let head = get_perspective_head(&store, &p_to).unwrap();
    assert_eq!(head, Some(merged));
}

#[test]
fn merge_of_conflicting_branches_fails() {
    let mut store = Store::new();
    let oa = store_object(&mut store, object(None, vec![("a", "X")]));
    let ca = commit(&mut store, &oa, vec![], "base", 1);
    let o1 = store_object(&mut store, object(None, vec![("a", "L")]));
    let c1 = commit(&mut store, &o1, vec![ca.clone()], "branch-1", 2);
    let o2 = store_object(&mut store, object(None, vec![("a", "R")]));
    let c2 = commit(&mut store, &o2, vec![ca.clone()], "branch-2", 3);
    let r = merge_commits(&mut store, &c1, &c2, String::from("join"), 4, agent());
    match r {
        Err(UprtclError::Conflict(Some(key))) => assert_eq!(key, "a"),
        _ => panic!("expected a named conflict"),
    }
}

#[test]
fn merging_disjoint_branches_has_no_ancestor() {
    let mut store = Store::new();
    let c1 = commit(&mut store, "d1", vec![], "one", 1);
    let c2 = commit(&mut store, "d2", vec![], "two", 2);
    let r = merge_commits(&mut store, &c1, &c2, String::from("join"), 3, agent());
    assert!(matches!(r, Err(UprtclError::NoCommonAncestor)));
}

#[test]
fn merging_perspectives_without_heads_is_not_found() {
    let mut store = Store::new();
    let r = merge_perspectives(
        &mut store,
        &String::from("p-from"),
        &String::from("p-to"),
        String::from("join"),
        1,
        agent(),
    );
    assert!(matches!(r, Err(UprtclError::NotFound)));
}

#[test]
fn merging_across_contexts_is_refused() {
    let mut store = Store::new();
    let c1 = commit(&mut store, "d1", vec![], "one", 1);
    let p_from = String::from("perspective-from");
    let p_to = String::from("perspective-to");
    update_perspective_head(&mut store, &p_from, &c1);
    update_perspective_head(&mut store, &p_to, &c1);
    update_perspective_context(&mut store, &p_from, &String::from("doc-1"));
    update_perspective_context(&mut store, &p_to, &String::from("doc-2"));
    let r = merge_perspectives(&mut store, &p_from, &p_to, String::from("join"), 2, agent());
    assert!(matches!(r, Err(UprtclError::ValidationRejected)));
    // nothing changed: the heads are still the original commit
    assert_eq!(get_perspective_head(&store, &p_to).unwrap(), Some(c1.clone()));
    assert_eq!(get_perspective_context(&store, &p_to).unwrap(), Some(String::from("doc-2")));
}

#[test]
fn merging_within_one_context_is_allowed() {
    let mut store = Store::new();
    let c1 = commit(&mut store, "d1", vec![], "one", 1);
    let p_from = String::from("perspective-from");
    let p_to = String::from("perspective-to");
    update_perspective_head(&mut store, &p_from, &c1);
    update_perspective_head(&mut store, &p_to, &c1);
    update_perspective_context(&mut store, &p_from, &String::from("doc-1"));
    update_perspective_context(&mut store, &p_to, &String::from("doc-1"));
    // equal payloads merge to the shared payload; the head moves
    let r = merge_perspectives(&mut store, &p_from, &p_to, String::from("join"), 2, agent());
    assert!(r.is_ok());
}
