//! The files of a database directory, with a record of the changes made to them.
//!
//! The engines work on a [`Directory`]. Whoever keeps the real files takes the
//! changes that an operation made and performs them, in order.

use vstd::prelude::*;
use vstd::string::StringExecFns;

use crate::bytes::push_all;
use crate::error::StoreError;
use crate::sorted_map::{keys_in_order, keys_of, StringMap};
use crate::text::string_views;

verus! {

/// The files of a directory: their names and what they hold.
pub type Files = Map<Seq<char>, Seq<u8>>;

/// One change of a directory.
#[derive(Debug)]
pub enum Change {
    /// Add bytes to the end of a file, which is created where it is missing.
    Append { name: String, data: Vec<u8> },
    /// Make a file hold these bytes and nothing else.
    Replace { name: String, data: Vec<u8> },
    /// Remove a file, if it is there.
    Remove { name: String },
    /// Make what a file holds durable.
    Sync { name: String },
}

/// What a file holds: nothing, where it is missing.
pub open spec fn content(files: Files, name: Seq<char>) -> Seq<u8> {
    if files.contains_key(name) {
        files[name]
    } else {
        Seq::empty()
    }
}

/// Whether every file is small enough to be held in memory.
pub open spec fn files_fit(files: Files) -> bool {
    forall|n: Seq<char>| #[trigger] files.contains_key(n) ==> files[n].len() <= usize::MAX
}

/// The directory after a change.
pub open spec fn changed(files: Files, c: Change) -> Files {
    match c {
        Change::Append { name, data } => files.insert(name@, content(files, name@) + data@),
        Change::Replace { name, data } => files.insert(name@, data@),
        Change::Remove { name } => files.remove(name@),
        Change::Sync { name } => files,
    }
}

/// The directory after a list of changes.
pub open spec fn changed_by(files: Files, cs: Seq<Change>) -> Files
    decreases cs.len(),
{
    if cs.len() == 0 {
        files
    } else {
        changed(changed_by(files, cs.drop_last()), cs.last())
    }
}

/// A directory.
pub struct Directory {
    files: StringMap<Vec<u8>>,
    changes: Vec<Change>,
    base: Ghost<Files>,
}

impl View for Directory {
    type V = Files;

    closed spec fn view(&self) -> Files {
        self.files@
    }
}

/// Whether the changes `b` are the changes `a` and then others.
pub open spec fn goes_on(a: Seq<Change>, b: Seq<Change>) -> bool {
    &&& a.len() <= b.len()
    &&& forall|i: int| 0 <= i < a.len() ==> #[trigger] b[i] == a[i]
}

/// Whether a change makes a file durable.
pub open spec fn syncs(c: Change, f: Seq<char>) -> bool {
    c matches Change::Sync { name } && name@ == f
}

/// Whether a change empties a file.
pub open spec fn empties(c: Change, f: Seq<char>) -> bool {
    c matches Change::Replace { name, data } && name@ == f && data@ == Seq::<u8>::empty()
}

/// Whether a change makes a file hold some bytes and nothing else.
pub open spec fn fills(c: Change, f: Seq<char>, bytes: Seq<u8>) -> bool {
    c matches Change::Replace { name, data } && name@ == f && data@ == bytes
}

impl Directory {
    /// The files as they were when the changes were last taken.
    pub closed spec fn base(&self) -> Files {
        self.base@
    }

    /// The changes that were made since then.
    pub closed spec fn pending(&self) -> Seq<Change> {
        self.changes@
    }

    /// The names of the files, in order.
    pub closed spec fn names(&self) -> Seq<Seq<char>> {
        self.files.keys_seq()
    }

    /// The names are those of the files, in order, and the changes lead from the
    /// files as they were to the files as they are.
    pub closed spec fn wf(&self) -> bool {
        &&& self.files.wf()
        &&& changed_by(self.base@, self.changes@) == self.files@
    }

    /// A directory without files.
    pub fn new() -> (d: Directory)
        ensures
            d.wf(),
            d@ == Map::<Seq<char>, Seq<u8>>::empty(),
            d.base() == Map::<Seq<char>, Seq<u8>>::empty(),
            d.pending() == Seq::<Change>::empty(),
    {
        Directory {
            files: StringMap::new(),
            changes: Vec::new(),
            base: Ghost(Map::<Seq<char>, Seq<u8>>::empty()),
        }
    }

    /// Takes note of a file that is already there.
    pub fn load(&mut self, name: String, data: Vec<u8>)
        requires
            old(self).wf(),
            old(self).pending() == Seq::<Change>::empty(),
        ensures
            final(self).wf(),
            final(self)@ == old(self)@.insert(name@, data@),
            final(self).base() == final(self)@,
            final(self).pending() == Seq::<Change>::empty(),
    {
        let ghost n = name@;
        let ghost d = data@;
        let _ = self.files.insert(name, data);
        self.base = Ghost(old(self)@.insert(n, d));
    }

    /// The names are exactly those of the files, in ascending order.
    pub proof fn lemma_names(&self)
        requires
            self.wf(),
        ensures
            keys_of(self@, self.names()),
            keys_in_order(self@) == self.names(),
    {
        self.files.lemma_keys();
    }

    /// No file is larger than memory.
    pub proof fn lemma_sizes(&self)
        requires
            self.wf(),
        ensures
            files_fit(self@),
    {
        assert forall|n: Seq<char>| #[trigger] self@.contains_key(n) implies self@[n].len()
            <= usize::MAX by {
            let i = self.files.lemma_position(n);
            self.files.lemma_fits(i);
        }
    }

    /// The changes lead from the base to the files.
    pub proof fn lemma_changes(&self)
        requires
            self.wf(),
        ensures
            changed_by(self.base(), self.pending()) == self@,
    {
    }

    /// What the file `name` holds.
    pub fn read(&self, name: &str) -> (r: Result<&Vec<u8>, StoreError>)
        requires
            self.wf(),
        ensures
            match r {
                Ok(data) => self@.contains_key(name@) && data@ == self@[name@],
                Err(e) => !self@.contains_key(name@) && e == StoreError::FileNotFound,
            },
    {
        match self.files.get(name) {
            Some(data) => Ok(data),
            None => Err(StoreError::FileNotFound),
        }
    }

    /// Whether there is a file `name`.
    pub fn contains(&self, name: &str) -> (r: bool)
        requires
            self.wf(),
        ensures
            r == self@.contains_key(name@),
    {
        self.files.contains(name)
    }

    /// The number of bytes of the file `name`: none, where it is missing.
    pub fn size(&self, name: &str) -> (n: u64)
        requires
            self.wf(),
        ensures
            n == content(self@, name@).len(),
    {
        match self.files.get(name) {
            Some(data) => data.len() as u64,
            None => 0,
        }
    }

    /// The names of the files, in order.
    pub fn list(&self) -> (out: Vec<String>)
        ensures
            string_views(out@) == self.names(),
    {
        self.files.keys()
    }

    fn note(&mut self, c: Change)
        requires
            old(self).files.wf(),
            changed(changed_by(old(self).base@, old(self).changes@), c) == old(self).files@,
        ensures
            final(self).wf(),
            final(self)@ == old(self)@,
            final(self).base() == old(self).base(),
            final(self).pending() == old(self).pending().push(c),
    {
        self.changes.push(c);
        assert(self.changes@.drop_last() =~= old(self).changes@);
    }

    /// Adds bytes to the end of a file, which is created where it is missing.
    pub fn append(&mut self, name: &str, data: &[u8])
        requires
            old(self).wf(),
        ensures
            final(self).wf(),
            final(self)@ == old(self)@.insert(name@, content(old(self)@, name@) + data@),
            final(self).base() == old(self).base(),
            final(self).pending() == old(self).pending().push(final(self).pending().last()),
            final(self).pending().last() matches Change::Append { name: n, data: d } && n@ == name@
                && d@ == data@,
    {
        let ghost m = self.files@;
        let mut file = match self.files.insert(String::from_str(name), Vec::new()) {
            Some(f) => f,
            None => Vec::new(),
        };
        assert(file@ =~= content(m, name@));
        push_all(&mut file, data);
        let ghost f = file@;
        let _ = self.files.insert(String::from_str(name), file);
        assert(self.files@ =~= m.insert(name@, f));
        let mut copy: Vec<u8> = Vec::new();
        push_all(&mut copy, data);
        assert(copy@ =~= data@);
        self.note(Change::Append { name: String::from_str(name), data: copy });
    }

    /// Makes a file hold these bytes and nothing else.
    pub fn replace(&mut self, name: &str, data: Vec<u8>)
        requires
            old(self).wf(),
        ensures
            final(self).wf(),
            final(self)@ == old(self)@.insert(name@, data@),
            final(self).base() == old(self).base(),
            final(self).pending() == old(self).pending().push(final(self).pending().last()),
            final(self).pending().last() matches Change::Replace { name: n, data: d } && n@ == name@
                && d@ == data@,
    {
        let mut copy: Vec<u8> = Vec::new();
        push_all(&mut copy, data.as_slice());
        assert(copy@ =~= data@);
        let _ = self.files.insert(String::from_str(name), data);
        self.note(Change::Replace { name: String::from_str(name), data: copy });
    }

    /// Creates an empty file where there is none of that name.
    pub fn touch(&mut self, name: &str)
        requires
            old(self).wf(),
        ensures
            final(self).wf(),
            final(self)@ == old(self)@.insert(name@, content(old(self)@, name@)),
            final(self).base() == old(self).base(),
            goes_on(old(self).pending(), final(self).pending()),
    {
        if !self.files.contains(name) {
            self.replace(name, Vec::new());
            assert(self@ =~= old(self)@.insert(name@, content(old(self)@, name@)));
        } else {
            assert(self@ =~= old(self)@.insert(name@, content(old(self)@, name@)));
        }
    }

    /// Removes a file, if it is there.
    pub fn remove(&mut self, name: &str)
        requires
            old(self).wf(),
        ensures
            final(self).wf(),
            final(self)@ == old(self)@.remove(name@),
            final(self).base() == old(self).base(),
            final(self).pending() == old(self).pending().push(final(self).pending().last()),
            final(self).pending().last() matches Change::Remove { name: n } && n@ == name@,
    {
        let _ = self.files.remove(name);
        self.note(Change::Remove { name: String::from_str(name) });
    }

    /// Makes what a file holds durable.
    pub fn sync(&mut self, name: &str)
        requires
            old(self).wf(),
        ensures
            final(self).wf(),
            final(self)@ == old(self)@,
            final(self).base() == old(self).base(),
            final(self).pending() == old(self).pending().push(final(self).pending().last()),
            final(self).pending().last() matches Change::Sync { name: n } && n@ == name@,
    {
        self.note(Change::Sync { name: String::from_str(name) });
    }

    /// Hands out the changes that were made since they were last taken. Performed
    /// in order, they turn the files as they were into the files as they are.
    pub fn take_changes(&mut self) -> (cs: Vec<Change>)
        requires
            old(self).wf(),
        ensures
            final(self).wf(),
            final(self)@ == old(self)@,
            cs@ == old(self).pending(),
            changed_by(old(self).base(), cs@) == old(self)@,
            final(self).base() == old(self)@,
            final(self).pending() == Seq::<Change>::empty(),
    {
        let mut cs: Vec<Change> = Vec::new();
        std::mem::swap(&mut cs, &mut self.changes);
        self.base = Ghost(self.files@);
        cs
    }
}

/// Adding to a file leaves what it held before the new bytes, which are its last; a
/// replaced file holds the new bytes alone, a removed one is gone. No other file changes,
/// and none where one is only made durable.
pub proof fn lemma_change(files: Files, c: Change, f: Seq<char>)
    ensures
        match c {
            Change::Append { name, data } => {
                &&& name@ == f ==> changed(files, c).contains_key(f) && changed(files, c)[f].len()
                    == (if files.contains_key(f) {
                    files[f].len() as int
                } else {
                    0
                }) + data@.len() && data@.is_suffix_of(changed(files, c)[f]) && (
                files.contains_key(f) ==> files[f].is_prefix_of(changed(files, c)[f]))
                &&& name@ != f ==> changed(files, c).contains_key(f) == files.contains_key(f) && (
                files.contains_key(f) ==> changed(files, c)[f] == files[f])
            },
            Change::Replace { name, data } => {
                &&& name@ == f ==> changed(files, c).contains_key(f) && changed(files, c)[f]
                    == data@
                &&& name@ != f ==> changed(files, c).contains_key(f) == files.contains_key(f) && (
                files.contains_key(f) ==> changed(files, c)[f] == files[f])
            },
            Change::Remove { name } => {
                &&& name@ == f ==> !changed(files, c).contains_key(f)
                &&& name@ != f ==> changed(files, c).contains_key(f) == files.contains_key(f) && (
                files.contains_key(f) ==> changed(files, c)[f] == files[f])
            },
            Change::Sync { .. } => changed(files, c) == files,
        },
{
    match c {
        Change::Append { name, data } => {
            if name@ == f {
                let after = changed(files, c)[f];
                assert(data@ =~= after.subrange(after.len() - data@.len(), after.len() as int));
                if files.contains_key(f) {
                    assert(files[f] =~= after.subrange(0, files[f].len() as int));
                }
            }
        },
        _ => {},
    }
}

} // verus!
