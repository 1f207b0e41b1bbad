//! The source being tailed and the size last observed of it.
//!
//! A source is a file, named by its path, or text buffered from standard input, or
//! both or neither; a path, where there is one, decides. The observed size is the
//! number of bytes of the file that have been dealt with. It is set when the source
//! is made and after each change has been handled, never before, and is zero for a
//! source that is no file.

use vstd::prelude::*;

verus! {

/// What a newly measured size says of a followed file.
#[derive(Clone, Copy, Debug, PartialEq, Eq, Structural)]
pub enum Change {
    /// The file is at least as long as it was: its bytes from offset `from` up to,
    /// not including, offset `to` are new.
    Grown { from: u64, to: u64 },
    /// The file is shorter than it was: the old offset points at nothing of worth.
    Truncated,
}

/// The source being tailed, with the size last observed of it.
pub struct FileSpec {
    size: u64,
    fpath: Option<String>,
    stdin: Option<Vec<String>>,
}

/// The text of each string of `texts`.
pub open spec fn texts_of(texts: Seq<String>) -> Seq<Seq<char>> {
    texts.map_values(|text: String| text@)
}

impl FileSpec {
    /// The size last observed, in bytes.
    pub closed spec fn observed(&self) -> u64 {
        self.size
    }

    /// The path of the file, where the source is one.
    pub closed spec fn path(&self) -> Option<Seq<char>> {
        match self.fpath {
            Some(path) => Some(path@),
            None => None,
        }
    }

    /// The lines buffered from standard input, where there are any, each without its
    /// break.
    pub closed spec fn buffered(&self) -> Option<Seq<Seq<char>>> {
        match self.stdin {
            Some(lines) => Some(texts_of(lines@)),
            None => None,
        }
    }

    /// True when the source is a file.
    pub open spec fn file_backed(&self) -> bool {
        self.path() is Some
    }

    /// The size to record for this source when its file has been measured at
    /// `current` bytes.
    pub open spec fn measured(&self, current: u64) -> u64 {
        if self.file_backed() {
            current
        } else {
            0
        }
    }

    /// A source that is no file has size zero.
    pub open spec fn wf(&self) -> bool {
        !self.file_backed() ==> self.observed() == 0
    }

    /// What a size of `current` bytes says of the file, held against the size last
    /// observed.
    pub open spec fn change_at(&self, current: u64) -> Change {
        if current >= self.observed() {
            Change::Grown { from: self.observed(), to: current }
        } else {
            Change::Truncated
        }
    }

    /// Makes the source from a path, buffered lines, or both, and records `current`
    /// as the size of the file.
    pub fn new(fpath: Option<String>, stdin: Option<Vec<String>>, current: u64) -> (file: FileSpec)
        ensures
            file.wf(),
            file.path() == match fpath {
                Some(path) => Some(path@),
                None => None,
            },
            file.buffered() == match stdin {
                Some(lines) => Some(texts_of(lines@)),
                None => None,
            },
            file.observed() == file.measured(current),
    {
        let mut file = FileSpec { size: 0, fpath, stdin };
        file.update_size(current);
        file
    }

    /// Records `current` as the size of the file; a source that is no file keeps
    /// size zero.
    pub fn update_size(&mut self, current: u64)
        ensures
            final(self).wf(),
            final(self).observed() == old(self).measured(current),
            final(self).path() == old(self).path(),
            final(self).buffered() == old(self).buffered(),
    {
        self.size = if self.fpath.is_some() {
            current
        } else {
            0
        };
    }

    /// The size last observed, in bytes.
    pub fn size(&self) -> (size: u64)
        ensures
            size == self.observed(),
    {
        self.size
    }

    /// The path of the file, where the source is one.
    pub fn fpath(&self) -> (path: Option<&String>)
        ensures
            self.path() == match path {
                Some(p) => Some(p@),
                None => None,
            },
    {
        self.fpath.as_ref()
    }

    /// The lines buffered from standard input, where there are any.
    pub fn stdin(&self) -> (lines: Option<&Vec<String>>)
        ensures
            self.buffered() == match lines {
                Some(l) => Some(texts_of(l@)),
                None => None,
            },
    {
        self.stdin.as_ref()
    }

    /// Holds `current`, a newly measured size of the file, against the size last
    /// observed: the file has grown, or kept its size, when it is no shorter.
    pub fn change(&self, current: u64) -> (change: Change)
        ensures
            change == self.change_at(current),
    {
        if current >= self.size {
            Change::Grown { from: self.size, to: current }
        } else {
            Change::Truncated
        }
    }
}

} // verus!
