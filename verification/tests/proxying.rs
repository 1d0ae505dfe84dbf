use uprtcl::commits::create_commit;
use uprtcl::errors::UprtclError;
use uprtcl::perspectives::{
    get_context_perspectives, get_perspective_context, get_perspective_details,
    update_perspective_context, update_perspective_details, update_perspective_name,
    PerspectiveDetails,
};
use uprtcl::proxy::{compute_content_address, resolve_internal, set_proxy};
use uprtcl::store::Store;

fn agent() -> String {
    String::from("alice")
}

#[test]
fn proxy_round_trip_returns_the_internal_address() {
    let mut store = Store::new();
    let external = String::from("zExternalHash");
    let internal = String::from("local:internal-entry");
    set_proxy(&mut store, &external, &internal);
    let r = resolve_internal(&store, &external);
    assert_eq!(r, Some(internal));
}

#[test]
fn stored_address_resolves_to_itself_despite_mappings() {
    let mut store = Store::new();
    let c = create_commit(
        &mut store,
        String::from("d"),
        vec![],
        String::from("m"),
        1,
        agent(),
    );
    // even an explicit mapping elsewhere does not shadow a local entry
    set_proxy(&mut store, &c, &String::from("somewhere-else"));
    let r = resolve_internal(&store, &c);
    assert_eq!(r, Some(c));
}

#[test]
fn unknown_address_resolves_to_nothing() {
    let store = Store::new();
    assert_eq!(resolve_internal(&store, &String::from("nowhere")), None);
}

#[test]
fn remapping_overrides_the_previous_mapping() {
    let mut store = Store::new();
    let external = String::from("zExternalHash");
    set_proxy(&mut store, &external, &String::from("first"));
    set_proxy(&mut store, &external, &String::from("second"));
    let r = resolve_internal(&store, &external);
    assert_eq!(r, Some(String::from("second")));
}

#[test]
fn mapping_an_address_to_itself_only_stores_the_anchor() {
    let mut store = Store::new();
    let a = String::from("zSelf");
    set_proxy(&mut store, &a, &a);
    assert!(store.links.is_empty());
    // without an entry or a mapping link the address stays unknown
    assert_eq!(resolve_internal(&store, &a), None);
}

#[test]
fn content_address_is_deterministic_and_encoded() {
    let c = String::from("{\"name\":\"doc\",\"value\":1}");
    let a1 = compute_content_address(&c).unwrap();
    let a2 = compute_content_address(&c).unwrap();
    assert_eq!(a1, a2);
    // base-58 multibase text, not the input handed back
    assert!(a1.starts_with('z'));
    assert_ne!(a1, c);
    let other = compute_content_address(&String::from("{\"name\":\"doc\",\"value\":2}")).unwrap();
    assert_ne!(a1, other);
}

#[test]
fn content_address_canonicalizes_field_order() {
    let a = compute_content_address(&String::from("{\"a\":1,\"b\":2}")).unwrap();
    let b = compute_content_address(&String::from("{\"b\":2,\"a\":1}")).unwrap();
    assert_eq!(a, b);
}

#[test]
fn text_that_is_not_json_is_malformed() {
    let r = compute_content_address(&String::from("not json at all"));
    assert!(matches!(r, Err(UprtclError::Malformed)));
}

#[test]
fn perspective_context_and_membership() {
    let mut store = Store::new();
    let p = create_commit(
        &mut store,
        String::from("d"),
        vec![],
        String::from("p"),
        1,
        agent(),
    );
    let ctx = String::from("shared-document");
    update_perspective_context(&mut store, &p, &ctx);
    let current = get_perspective_context(&store, &p).unwrap();
    assert_eq!(current, Some(ctx.clone()));
    let members = get_context_perspectives(&store, &ctx);
    assert_eq!(members, vec![p.clone()]);
}

#[test]
fn details_follow_the_proxy_and_read_all_logs() {
    let mut store = Store::new();
    let p = create_commit(
        &mut store,
        String::from("d"),
        vec![],
        String::from("p"),
        1,
        agent(),
    );
    update_perspective_name(&mut store, &p, &String::from("main"));
    update_perspective_context(&mut store, &p, &String::from("doc-1"));
    let d = get_perspective_details(&store, &p).unwrap();
    assert_eq!(d.name, Some(String::from("main")));
    assert_eq!(d.context, Some(String::from("doc-1")));
    assert_eq!(d.head, None);

    let r = get_perspective_details(&store, &String::from("unknown"));
    assert!(matches!(r, Err(UprtclError::NotFound)));
}

#[test]
fn details_update_writes_the_given_fields() {
    let mut store = Store::new();
    let p = create_commit(
        &mut store,
        String::from("d"),
        vec![],
        String::from("p"),
        1,
        agent(),
    );
    let details = PerspectiveDetails {
        name: Some(String::from("main")),
        context: None,
        head: Some(String::from("head-commit")),
    };
    update_perspective_details(&mut store, &p, details).unwrap();
    let d = get_perspective_details(&store, &p).unwrap();
    assert_eq!(d.name, Some(String::from("main")));
    assert_eq!(d.head, Some(String::from("head-commit")));
    assert_eq!(d.context, None);

    let r = update_perspective_details(
        &mut store,
        &String::from("unknown"),
        PerspectiveDetails { name: None, context: None, head: None },
    );
    assert!(matches!(r, Err(UprtclError::NotFound)));
}
