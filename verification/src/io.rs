//! The open-file-handle quota.
//!
//! A counted gate bounding how many file handles are in use at once: a
//! permit is acquired before a segment file is read or written and
//! released when the operation's scope ends.  The file operations
//! themselves are the embedding layer's: it performs them only while
//! holding a `FileQuota` permit.  The count of outstanding permits never
//! exceeds the configured maximum; an embedding that wants to block
//! instead of being refused wraps `try_acquire_quota` behind its own
//! waiting primitive.

use vstd::prelude::*;

verus! {

/// The scoped right to use one file handle.
pub struct FileQuota {
    _priv: (),
}

/// The counted gate bounding concurrently open files.
pub struct IOManager {
    max_open_files: usize,
    open_files: usize,
}

impl IOManager {
    /// The configured maximum of simultaneously open files.
    pub closed spec fn spec_max(&self) -> int {
        self.max_open_files as int
    }

    /// The permits currently handed out.
    pub closed spec fn spec_outstanding(&self) -> int {
        self.open_files as int
    }

    /// The number of outstanding permits never exceeds the maximum.
    pub open spec fn wf(&self) -> bool {
        self.spec_outstanding() <= self.spec_max()
    }

    pub fn new(max_open_files: usize) -> (r: IOManager)
        ensures
            r.wf(),
            r.spec_max() == max_open_files,
            r.spec_outstanding() == 0,
    {
        IOManager { max_open_files, open_files: 0 }
    }

    /// Grants a permit; callable only while a permit is free.
    pub fn acquire_quota(&mut self) -> (r: FileQuota)
        requires
            old(self).wf(),
            old(self).spec_outstanding() < old(self).spec_max(),
        ensures
            final(self).wf(),
            final(self).spec_max() == old(self).spec_max(),
            final(self).spec_outstanding() == old(self).spec_outstanding() + 1,
    {
        self.open_files = self.open_files + 1;
        FileQuota { _priv: () }
    }

    /// Grants a permit when one is free, and refuses otherwise.
    pub fn try_acquire_quota(&mut self) -> (r: Option<FileQuota>)
        requires
            old(self).wf(),
        ensures
            final(self).wf(),
            final(self).spec_max() == old(self).spec_max(),
            match r {
                Some(_) => {
                    &&& old(self).spec_outstanding() < old(self).spec_max()
                    &&& final(self).spec_outstanding() == old(self).spec_outstanding() + 1
                },
                None => {
                    &&& old(self).spec_outstanding() == old(self).spec_max()
                    &&& final(self).spec_outstanding() == old(self).spec_outstanding()
                },
            },
    {
        if self.open_files < self.max_open_files {
            self.open_files = self.open_files + 1;
            Some(FileQuota { _priv: () })
        } else {
            None
        }
    }

    /// Takes a permit back when the scope holding it ends.
    pub fn on_quota_released(&mut self, quota: FileQuota)
        requires
            old(self).wf(),
            old(self).spec_outstanding() > 0,
        ensures
            final(self).wf(),
            final(self).spec_max() == old(self).spec_max(),
            final(self).spec_outstanding() == old(self).spec_outstanding() - 1,
    {
        let FileQuota { _priv } = quota;
        self.open_files = self.open_files - 1;
    }
}

} // verus!
