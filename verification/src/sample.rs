//! The sample handler of the demonstration server.
use vstd::prelude::*;
use vstd::string::*;

use crate::request::Request;

verus! {

/// A small table from names to texts, in the order the entries were made.
pub struct OuterHashmap {
    pub entries: Vec<(String, String)>,
}

impl OuterHashmap {
    /// The entries as (name, text) pairs.
    pub open spec fn pairs(&self) -> Seq<(Seq<char>, Seq<char>)> {
        self.entries@.map_values(|p: (String, String)| (p.0@, p.1@))
    }
}

/// The handler mounted on `/jsoncito`: the table `hola → hola`, `chau → chau`.
pub fn some_kinda_handler(req: &Request) -> (m: OuterHashmap)
    ensures
        m.pairs() == seq![("hola"@, "hola"@), ("chau"@, "chau"@)],
{
    let mut entries: Vec<(String, String)> = Vec::new();
    entries.push((String::from_str("hola"), String::from_str("hola")));
    entries.push((String::from_str("chau"), String::from_str("chau")));
    let m = OuterHashmap { entries };
    assert(m.pairs() =~= seq![("hola"@, "hola"@), ("chau"@, "chau"@)]);
    m
}

} // verus!
