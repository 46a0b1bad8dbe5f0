//! The library of a document: named members, each a symbol or opaque bytes.

use crate::document::DomDocument;
use crate::timeline::DomSymbol;
use vstd::prelude::*;

verus! {

/// The extension of the final component of a path, as `Path::extension`
/// finds it.
pub uninterp spec fn path_extension(name: Seq<char>) -> Option<Seq<char>>;

/// Relies on `std::path::Path::extension`: the text after the last dot of the
/// final component, which depends on the path alone.
#[verifier::external_body]
fn extension_of(name: &str) -> (r: Option<String>)
    ensures
        match r {
            Some(e) => path_extension(name@) == Some(e@),
            None => path_extension(name@) is None,
        },
{
    std::path::Path::new(name).extension().map(|e| e.to_string_lossy().into_owned())
}

/// A member of the library.
pub enum LibraryEntry {
    /// A symbol, read from an XML member.
    Xml(DomSymbol),
    /// Any other member, as its bytes.
    Unknown(Vec<u8>),
}

impl LibraryEntry {
    /// Whether a member of this name holds a symbol: its extension is `xml`.
    pub fn is_symbol_name(name: &str) -> (r: bool)
        ensures
            r == (path_extension(name@) == Some("xml"@)),
    {
        match extension_of(name) {
            Some(e) => e == "xml".to_owned(),
            None => false,
        }
    }

    pub fn as_xml(&self) -> (r: Option<&DomSymbol>)
        ensures
            match self {
                LibraryEntry::Xml(s) => r == Some(s),
                LibraryEntry::Unknown(_) => r is None,
            },
    {
        match self {
            LibraryEntry::Xml(x) => Some(x),
            LibraryEntry::Unknown(_) => None,
        }
    }
}

/// The member named `name`: the first of that name.
pub open spec fn lookup(lib: Seq<(String, LibraryEntry)>, name: Seq<char>) -> Option<LibraryEntry>
    decreases lib.len(),
{
    if lib.len() == 0 {
        None
    } else if lib[0].0@ == name {
        Some(lib[0].1)
    } else {
        lookup(lib.drop_first(), name)
    }
}

/// The names of the members that are symbols, in order.
pub open spec fn symbol_names(lib: Seq<(String, LibraryEntry)>) -> Seq<Seq<char>>
    decreases lib.len(),
{
    if lib.len() == 0 {
        Seq::empty()
    } else {
        let rest = symbol_names(lib.drop_last());
        match lib.last().1 {
            LibraryEntry::Xml(_) => rest.push(lib.last().0@),
            LibraryEntry::Unknown(_) => rest,
        }
    }
}

proof fn lemma_lookup_update(
    lib: Seq<(String, LibraryEntry)>,
    i: int,
    key: String,
    entry: LibraryEntry,
    n: Seq<char>,
)
    requires
        0 <= i < lib.len(),
        lib[i].0@ == key@,
        forall|j: int| 0 <= j < i ==> (#[trigger] lib[j]).0@ != key@,
    ensures
        n == key@ ==> lookup(lib.update(i, (key, entry)), n) == Some(entry),
        n != key@ ==> lookup(lib.update(i, (key, entry)), n) == lookup(lib, n),
    decreases lib.len(),
{
    let u = lib.update(i, (key, entry));
    if i > 0 {
        assert(u.drop_first() =~= lib.drop_first().update(i - 1, (key, entry)));
        assert forall|j: int| 0 <= j < i - 1 implies (#[trigger] lib.drop_first()[j]).0@ != key@ by {
            assert(lib.drop_first()[j] == lib[j + 1]);
        }
        lemma_lookup_update(lib.drop_first(), i - 1, key, entry, n);
    } else {
        assert(u.drop_first() =~= lib.drop_first());
    }
}

proof fn lemma_lookup_push(lib: Seq<(String, LibraryEntry)>, key: String, entry: LibraryEntry, n: Seq<char>)
    requires
        lookup(lib, key@) is None,
    ensures
        n == key@ ==> lookup(lib.push((key, entry)), n) == Some(entry),
        n != key@ ==> lookup(lib.push((key, entry)), n) == lookup(lib, n),
    decreases lib.len(),
{
    if lib.len() > 0 {
        assert(lib.push((key, entry)).drop_first() =~= lib.drop_first().push((key, entry)));
        assert(lib.push((key, entry))[0] == lib[0]);
        lemma_lookup_push(lib.drop_first(), key, entry, n);
    } else {
        let empty = Seq::<(String, LibraryEntry)>::empty();
        assert(lib.push((key, entry)).drop_first() =~= empty);
        assert(lookup(empty, n) is None);
    }
}

/// A document with its library.
pub struct Fla {
    pub dom_document: DomDocument,
    pub library: Vec<(String, LibraryEntry)>,
}

impl Fla {
    /// No two members share a name.
    pub open spec fn wf(&self) -> bool {
        forall|i: int, j: int|
            0 <= i < j < self.library@.len() ==> (#[trigger] self.library@[i]).0@
                != (#[trigger] self.library@[j]).0@
    }

    /// A document with an empty library.
    pub fn from_document(dom_document: DomDocument) -> (r: Fla)
        ensures
            r.dom_document == dom_document,
            r.library@.len() == 0,
            r.wf(),
    {
        Fla { dom_document, library: Vec::new() }
    }

    /// Adds a member, in place of any member of the same name.
    pub fn insert_library_asset(&mut self, name: String, entry: LibraryEntry)
        ensures
            old(self).wf() ==> final(self).wf(),
            final(self).dom_document == old(self).dom_document,
            lookup(final(self).library@, name@) == Some(entry),
            forall|n: Seq<char>|
                n != name@ ==> #[trigger] lookup(final(self).library@, n) == lookup(
                    old(self).library@,
                    n,
                ),
    {
        let mut i: usize = 0;
        assert(self.library@.subrange(0, self.library@.len() as int) =~= self.library@);
        while i < self.library.len()
            invariant
                0 <= i <= self.library@.len(),
                self.library@ == old(self).library@,
                self.dom_document == old(self).dom_document,
                forall|j: int| 0 <= j < i ==> (#[trigger] self.library@[j]).0@ != name@,
                lookup(self.library@, name@) == lookup(self.library@.subrange(i as int, self.library@.len() as int), name@),
            decreases self.library@.len() - i,
        {
            assert(self.library@.subrange(i as int, self.library@.len() as int).drop_first()
                =~= self.library@.subrange(i as int + 1, self.library@.len() as int));
            if self.library[i].0 == name {
                let ghost lib = self.library@;
                proof {
                    assert forall|n: Seq<char>| n != name@ implies #[trigger] lookup(
                        lib.update(i as int, (name, entry)),
                        n,
                    ) == lookup(lib, n) by {
                        lemma_lookup_update(lib, i as int, name, entry, n);
                    }
                    lemma_lookup_update(lib, i as int, name, entry, name@);
                }
                self.library.set(i, (name, entry));
                return;
            }
            i = i + 1;
        }
        let ghost lib = self.library@;
        proof {
            assert(lib.subrange(i as int, lib.len() as int).len() == 0);
            assert forall|n: Seq<char>| n != name@ implies #[trigger] lookup(
                lib.push((name, entry)),
                n,
            ) == lookup(lib, n) by {
                lemma_lookup_push(lib, name, entry, n);
            }
            lemma_lookup_push(lib, name, entry, name@);
        }
        self.library.push((name, entry));
        assert(self.library@[lib.len() as int] == (name, entry));
    }

    /// The member named `filename`.
    pub fn get_library_asset(&self, filename: &str) -> (r: Option<&LibraryEntry>)
        ensures
            r matches Some(e) ==> lookup(self.library@, filename@) == Some(*e),
            r is None ==> lookup(self.library@, filename@) is None,
    {
        let key = filename.to_owned();
        let mut i: usize = 0;
        assert(self.library@.subrange(0, self.library@.len() as int) =~= self.library@);
        while i < self.library.len()
            invariant
                0 <= i <= self.library@.len(),
                key@ == filename@,
                lookup(self.library@, filename@) == lookup(self.library@.subrange(i as int, self.library@.len() as int), filename@),
            decreases self.library@.len() - i,
        {
            assert(self.library@.subrange(i as int, self.library@.len() as int).drop_first()
                =~= self.library@.subrange(i as int + 1, self.library@.len() as int));
            if self.library[i].0 == key {
                return Some(&self.library[i].1);
            }
            i = i + 1;
        }
        None
    }

    /// The names of the library's symbols, in order.
    pub fn symbol_names(&self) -> (r: Vec<String>)
        ensures
            r@.map_values(|s: String| s@) == symbol_names(self.library@),
    {
        let mut names: Vec<String> = Vec::new();
        let mut i: usize = 0;
        assert(self.library@.take(0) =~= Seq::<(String, LibraryEntry)>::empty());
        assert(names@.map_values(|s: String| s@) =~= Seq::<Seq<char>>::empty());
        while i < self.library.len()
            invariant
                0 <= i <= self.library@.len(),
                names@.map_values(|s: String| s@) == symbol_names(self.library@.take(i as int)),
            decreases self.library@.len() - i,
        {
            assert(self.library@.take(i as int + 1).drop_last() =~= self.library@.take(i as int));
            match &self.library[i].1 {
                LibraryEntry::Xml(_) => {
                    let ghost before = names@;
                    names.push(self.library[i].0.clone());
                    assert(names@.map_values(|s: String| s@) =~= before.map_values(|s: String| s@).push(
                        self.library@[i as int].0@,
                    ));
                },
                LibraryEntry::Unknown(_) => {},
            }
            i = i + 1;
        }
        assert(self.library@.take(i as int) =~= self.library@);
        names
    }
}

} // verus!
