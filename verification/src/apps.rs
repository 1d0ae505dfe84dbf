//! Entry types of the small applications built on the version-control
//! core — documents, notes, lenses, discovery sources — together with
//! the agent-validation and module-initialization rules, which accept
//! every agent: entry immutability, not admission, is what the core
//! polices.

use vstd::prelude::*;

use crate::errors::UprtclError;

verus! {

/// An external source from which addresses can be retrieved.
pub struct Source {
    pub source: String,
}

impl Source {
    pub fn new(source: String) -> (s: Source)
        ensures
            s.source == source,
    {
        Source { source }
    }
}

/// A simple titled document.
pub struct Document {
    pub title: String,
    pub content: String,
}

impl Document {
    pub fn new(title: String, content: String) -> (d: Document)
        ensures
            d.title == title,
            d.content == content,
    {
        Document { title, content }
    }
}

/// The kind of a text node of a document.
pub enum TextType {
    Paragraph,
    Title,
}

/// A simple titled note.
pub struct Note {
    pub title: String,
    pub content: String,
}

impl Note {
    pub fn new(title: String, content: String) -> (n: Note)
        ensures
            n.title == title,
            n.content == content,
    {
        Note { title, content }
    }
}

/// The lens from which a user views an entry.
pub struct Lens {
    pub lens: String,
}

impl Lens {
    pub fn new(lens: String) -> (l: Lens)
        ensures
            l.lens == lens,
    {
        Lens { lens }
    }
}

/// How a link query matches link types and tags: every value, or one
/// exact text. The modeled index supports exactly these two.
pub enum LinkMatch<S> {
    Any,
    Exactly(S),
}

/// The cryptographic proof a secured entry variant attaches to its
/// payload. Signing itself belongs to the substrate; the library only
/// carries the proof's fields.
pub struct Proof {
    pub proof_type: String,
    pub signature: String,
}

impl Proof {
    pub fn new(proof_type: String, signature: String) -> (p: Proof)
        ensures
            p.proof_type == proof_type,
            p.signature == signature,
    {
        Proof { proof_type, signature }
    }
}

/// A repository: a named collection of branches.
pub struct Repository {
    pub name: String,
}

impl Repository {
    pub fn new(name: &str) -> (r: Repository)
        ensures
            r.name@ == name@,
    {
        Repository { name: name.to_owned() }
    }
}

/// Admission control for agents: every agent is accepted — the store's
/// write-once policy, not admission, protects the data.
pub fn validate_agent(_agent_id: &String) -> (r: Result<(), UprtclError>)
    ensures
        r is Ok,
{
    Ok(())
}

/// Module initialization: nothing to set up, so it always succeeds.
pub fn init() -> (r: Result<(), UprtclError>)
    ensures
        r is Ok,
{
    Ok(())
}

/// An optional text, or the empty text in its absence.
pub fn option_to_string(link_option: Option<String>) -> (r: String)
    ensures
        match link_option {
            Some(link) => r == link,
            None => r@.len() == 0,
        },
{
    match link_option {
        Some(link) => link,
        None => String::new(),
    }
}

} // verus!
