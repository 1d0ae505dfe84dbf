use uprtcl::apps::{
    init, option_to_string, validate_agent, Document, Lens, LinkMatch, Note, Proof, Repository,
    Source, TextType,
};
use uprtcl::entries::{validate_entry_op, EntryOp};
use uprtcl::errors::UprtclError;

#[test]
fn constructors_keep_their_fields() {
    let s = Source::new(String::from("holochain://dna-1"));
    assert_eq!(s.source, "holochain://dna-1");
    let d = Document::new(String::from("title"), String::from("body"));
    assert_eq!(d.title, "title");
    assert_eq!(d.content, "body");
    let n = Note::new(String::from("note"), String::from("text"));
    assert_eq!(n.title, "note");
    assert_eq!(n.content, "text");
    let l = Lens::new(String::from("plain-text"));
    assert_eq!(l.lens, "plain-text");
    let p = Proof::new(String::from("ECDSA"), String::from("sig-bytes"));
    assert_eq!(p.proof_type, "ECDSA");
    let r = Repository::new("main-repo");
    assert_eq!(r.name, "main-repo");
}

#[test]
fn text_and_match_variants_exist() {
    let t = TextType::Paragraph;
    assert!(matches!(t, TextType::Paragraph));
    let t = TextType::Title;
    assert!(matches!(t, TextType::Title));
    let m: LinkMatch<String> = LinkMatch::Exactly(String::from("head"));
    assert!(matches!(m, LinkMatch::Exactly(_)));
    let m: LinkMatch<String> = LinkMatch::Any;
    assert!(matches!(m, LinkMatch::Any));
}

#[test]
fn agents_are_always_accepted() {
    assert!(validate_agent(&String::from("any-agent")).is_ok());
    assert!(init().is_ok());
}

#[test]
fn optional_text_defaults_to_empty() {
    assert_eq!(option_to_string(Some(String::from("link"))), "link");
    assert_eq!(option_to_string(None), "");
}

#[test]
fn errors_describe_themselves() {
    assert_eq!(UprtclError::NotFound.as_text(), "entry not found");
    assert_eq!(
        UprtclError::NoCommonAncestor.as_text(),
        "commits don't have a common ancestor"
    );
    assert_eq!(
        UprtclError::Conflict(Some(String::from("a"))).as_text(),
        "there was a conflict trying to merge"
    );
    assert_eq!(UprtclError::Malformed.as_text(), "could not decode");
    assert_eq!(
        UprtclError::ValidationRejected.as_text(),
        "cannot modify or delete an immutable entry"
    );
}

#[test]
fn entries_are_write_once() {
    assert!(validate_entry_op(&EntryOp::Create).is_ok());
    assert!(matches!(
        validate_entry_op(&EntryOp::Modify),
        Err(UprtclError::ValidationRejected)
    ));
    assert!(matches!(
        validate_entry_op(&EntryOp::Delete),
        Err(UprtclError::ValidationRejected)
    ));
}
