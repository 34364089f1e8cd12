//! The file record: a mapping from file identity (byte-string path) to raw
//! text content, with no duplicate keys, kept in insertion order.

use vstd::prelude::*;

verus! {

/// One collected file: its identity and its raw text.
pub struct FileEntry {
    pub path: Vec<u8>,
    pub content: Vec<u8>,
}

/// The collected files, keyed by path, no key twice.
pub struct FileRecord {
    pub entries: Vec<FileEntry>,
}

impl FileRecord {
    /// The file identities, in insertion order.
    pub open spec fn paths(self) -> Seq<Seq<u8>> {
        self.entries@.map_values(|e: FileEntry| e.path@)
    }

    /// The file contents, in the same order as `paths`.
    pub open spec fn contents(self) -> Seq<Seq<u8>> {
        self.entries@.map_values(|e: FileEntry| e.content@)
    }

    /// No two entries share a path.
    pub open spec fn wf(self) -> bool {
        forall|i: int, j: int|
            0 <= i < j < self.paths().len() ==> self.paths()[i] != self.paths()[j]
    }

    /// Whether some entry has path `p`.
    pub open spec fn contains_path(self, p: Seq<u8>) -> bool {
        exists|i: int| 0 <= i < self.paths().len() && self.paths()[i] == p
    }

    /// An empty record.
    pub fn new() -> (r: FileRecord)
        ensures
            r.wf(),
            r.paths().len() == 0,
            r.contents().len() == 0,
    {
        FileRecord { entries: Vec::new() }
    }

    /// The number of files held.
    pub fn len(&self) -> (r: usize)
        ensures
            r == self.paths().len(),
            r == self.contents().len(),
    {
        self.entries.len()
    }

    /// The path of the entry at `i`.
    pub fn path_at(&self, i: usize) -> (r: &Vec<u8>)
        requires
            i < self.paths().len(),
        ensures
            r@ == self.paths()[i as int],
    {
        &self.entries[i].path
    }

    /// The content of the entry at `i`.
    pub fn content_at(&self, i: usize) -> (r: &Vec<u8>)
        requires
            i < self.contents().len(),
        ensures
            r@ == self.contents()[i as int],
    {
        &self.entries[i].content
    }

    /// The index of the entry with path `p`, if one exists.
    pub fn find_path_index(&self, p: &Vec<u8>) -> (r: Option<usize>)
        ensures
            match r {
                Option::Some(j) => j < self.paths().len() && self.paths()[j as int] == p@,
                Option::None => !self.contains_path(p@),
            },
    {
        let mut i: usize = 0;
        while i < self.entries.len()
            invariant
                0 <= i <= self.paths().len(),
                forall|j: int| 0 <= j < i ==> self.paths()[j] != p@,
            decreases self.paths().len() - i,
        {
            if crate::paths::bytes_eq(&self.entries[i].path, p) {
                return Some(i);
            }
            i = i + 1;
        }
        None
    }

    /// Adds a file under a path not yet held; an already-held path leaves the
    /// record unchanged and reports failure.
    pub fn add(&mut self, path: Vec<u8>, content: Vec<u8>) -> (r: bool)
        requires
            old(self).wf(),
        ensures
            final(self).wf(),
            r == !old(self).contains_path(path@),
            r ==> final(self).paths() == old(self).paths().push(path@) && final(self).contents()
                == old(self).contents().push(content@),
            !r ==> final(self).paths() == old(self).paths() && final(self).contents() == old(
                self,
            ).contents(),
    {
        match self.find_path_index(&path) {
            Some(_) => false,
            None => {
                let ghost old_paths = self.paths();
                let ghost old_contents = self.contents();
                let ghost p = path@;
                let ghost c = content@;
                self.entries.push(FileEntry { path, content });
                proof {
                    assert(self.paths() =~~= old_paths.push(p));
                    assert(self.contents() =~~= old_contents.push(c));
                    assert forall|i: int, j: int|
                        0 <= i < j < self.paths().len() implies self.paths()[i]
                        != self.paths()[j] by {
                        if j == self.paths().len() - 1 {
                            assert(self.paths()[i] == old_paths[i]);
                        }
                    }
                }
                true
            },
        }
    }
}

} // verus!
