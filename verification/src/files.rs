//! Pointer-addressed registry of files and their revisions.
//!
//! Each file is an ordered list of versions (owners); a file may be
//! registered by path before it is loaded, in which case it has zero
//! versions. Versions accumulate monotonically and are never removed.

use vstd::prelude::*;

use crate::error::StateError;

verus! {

/// A loaded file: its recorded name and absolute path.
///
/// The parsed tree itself belongs to the surrounding file-loading layer;
/// this core only reads the name and the absolute path.
#[derive(Debug, Clone, PartialEq, Eq)]
pub struct FileOwner {
    pub name: String,
    pub absolute_path: String,
}

/// A stable value-type address of one specific version of one file.
#[derive(Debug, Clone, Copy, Eq, Hash, PartialEq, Structural)]
pub struct FilePtr {
    pub file: u16,
    pub version: u16,
}

impl FilePtr {
    pub fn new(file: u16, version: u16) -> (r: Self)
        ensures
            r == (FilePtr { file, version }),
    {
        Self { file, version }
    }
}

/// Per-file ordered list of versions, with a parallel version counter and
/// the originally registered path for files not yet loaded.
#[derive(Debug, Clone)]
pub struct FileRegistry {
    /// The number of versions pushed for each file.
    pub version_count: Vec<u16>,
    /// Original file paths, for lookups before a file is loaded.
    pub file_paths: Vec<String>,
    /// The versions of each file, in the order they were pushed.
    pub owners: Vec<Vec<FileOwner>>,
}

impl FileRegistry {
    /// The registry's structural invariant: the three parallel vectors have
    /// equal length and each version counter equals the number of versions.
    pub open spec fn wf(&self) -> bool {
        &&& self.version_count@.len() == self.owners@.len()
        &&& self.file_paths@.len() == self.owners@.len()
        &&& forall|i: int|
            0 <= i < self.owners@.len() ==> (#[trigger] self.version_count@[i]) as int
                == self.owners@[i]@.len()
    }

    /// The number of registered files.
    pub open spec fn num_files(&self) -> int {
        self.owners@.len() as int
    }

    /// Registers the given paths, each with zero versions; the owners are
    /// inserted later, as files are loaded.
    pub fn new_from_paths(file_paths: Vec<String>) -> (r: Self)
        ensures
            r.wf(),
            r.file_paths@ == file_paths@,
            r.num_files() == file_paths@.len(),
            forall|i: int| 0 <= i < r.num_files() ==> (#[trigger] r.owners@[i])@.len() == 0,
    {
        let n = file_paths.len();
        let mut version_count: Vec<u16> = Vec::new();
        let mut owners: Vec<Vec<FileOwner>> = Vec::new();
        let mut i: usize = 0;
        while i < n
            invariant
                i <= n,
                version_count@.len() == i,
                owners@.len() == i,
                forall|j: int| 0 <= j < i ==> (#[trigger] version_count@[j]) == 0,
                forall|j: int| 0 <= j < i ==> (#[trigger] owners@[j])@.len() == 0,
            decreases n - i,
        {
            version_count.push(0);
            owners.push(Vec::new());
            i += 1;
        }
        Self { version_count, file_paths, owners }
    }

    /// True iff the referenced file index has at least one version pushed.
    pub fn is_loaded(&self, pointer: &FilePtr) -> (r: bool)
        ensures
            r == (pointer.file < self.version_count@.len() && self.version_count@[pointer.file as int]
                > 0),
    {
        let idx = pointer.file as usize;
        if idx < self.version_count.len() {
            self.version_count[idx] > 0
        } else {
            false
        }
    }

    /// The pointer to the latest pushed version of the referenced file; if
    /// the file has no versions (or is unknown), the pointer itself.
    pub fn latest_revision(&self, pointer: &FilePtr) -> (r: FilePtr)
        ensures
            r == if pointer.file < self.version_count@.len() && self.version_count@[pointer.file as int]
                > 0 {
                FilePtr {
                    file: pointer.file,
                    version: (self.version_count@[pointer.file as int] - 1) as u16,
                }
            } else {
                *pointer
            },
    {
        let idx = pointer.file as usize;
        if idx < self.version_count.len() {
            let version_count = self.version_count[idx];
            if version_count == 0 {
                *pointer
            } else {
                FilePtr { file: pointer.file, version: version_count - 1 }
            }
        } else {
            *pointer
        }
    }

    /// Appends a new version to an existing file index.
    pub fn push_revision(&mut self, pointer: &FilePtr, file: FileOwner)
        requires
            old(self).wf(),
            pointer.file < old(self).num_files(),
            old(self).owners@[pointer.file as int]@.len() < 0xffff,
        ensures
            final(self).wf(),
            final(self).num_files() == old(self).num_files(),
            final(self).owners@[pointer.file as int]@ == old(self).owners@[pointer.file as int]@.push(
                file,
            ),
            forall|i: int|
                0 <= i < final(self).num_files() && i != pointer.file as int ==> final(self).owners@[i] == old(
                    self,
                ).owners@[i],
            final(self).file_paths@ == old(self).file_paths@,
    {
        let idx = pointer.file as usize;
        let c = self.version_count[idx];
        self.version_count[idx] = c + 1;
        self.owners[idx].push(file);
    }

    /// Loads a file in: appends a version to an already registered file.
    pub fn load_file(&mut self, pointer: &FilePtr, file: FileOwner)
        requires
            old(self).wf(),
            pointer.file < old(self).num_files(),
            old(self).owners@[pointer.file as int]@.len() < 0xffff,
        ensures
            final(self).wf(),
            final(self).num_files() == old(self).num_files(),
            final(self).owners@[pointer.file as int]@ == old(self).owners@[pointer.file as int]@.push(
                file,
            ),
            forall|i: int|
                0 <= i < final(self).num_files() && i != pointer.file as int ==> final(self).owners@[i] == old(
                    self,
                ).owners@[i],
            final(self).file_paths@ == old(self).file_paths@,
    {
        self.push_revision(pointer, file)
    }

    /// Registers a brand-new file with one version. File indices are
    /// assigned sequentially starting at 0.
    pub fn push_new_file(&mut self, file: FileOwner) -> (r: FilePtr)
        requires
            old(self).wf(),
            old(self).num_files() < 0x10000,
        ensures
            final(self).wf(),
            r == (FilePtr { file: old(self).num_files() as u16, version: 0u16 }),
            final(self).num_files() == old(self).num_files() + 1,
            final(self).owners@[old(self).num_files()]@ == seq![file],
            forall|i: int|
                0 <= i < old(self).num_files() ==> final(self).owners@[i] == old(self).owners@[i],
            final(self).file_paths@ == old(self).file_paths@.push(file.name),
    {
        self.version_count.push(1);
        self.file_paths.push(file.name.clone());
        let mut versions: Vec<FileOwner> = Vec::new();
        versions.push(file);
        self.owners.push(versions);
        let index = (self.owners.len() - 1) as u16;
        FilePtr { file: index, version: 0 }
    }

    /// The owner stored for the exact `(file, version)` addressed.
    ///
    /// An out-of-range address is a defect in the caller (access before
    /// `load_file`), so it is excluded by `requires` rather than reported.
    pub fn get_file_owner(&self, pointer: FilePtr) -> (r: &FileOwner)
        requires
            pointer.file < self.owners@.len(),
            pointer.version < self.owners@[pointer.file as int]@.len(),
        ensures
            *r == self.owners@[pointer.file as int]@[pointer.version as int],
    {
        &self.owners[pointer.file as usize][pointer.version as usize]
    }

    /// The name of the addressed version if it is loaded, else the
    /// originally registered path of the file.
    pub fn get_file_name(&self, pointer: FilePtr) -> (r: &String)
        requires
            self.wf(),
            pointer.file < self.num_files(),
        ensures
            r@ == if pointer.version < self.owners@[pointer.file as int]@.len() {
                self.owners@[pointer.file as int]@[pointer.version as int].name@
            } else {
                self.file_paths@[pointer.file as int]@
            },
    {
        let file_index = pointer.file as usize;
        let version_index = pointer.version as usize;
        if version_index < self.owners[file_index].len() {
            &self.owners[file_index][version_index].name
        } else {
            &self.file_paths[file_index]
        }
    }

    /// The absolute path of the addressed version; an error if that version
    /// has not been loaded, since the absolute path is only known once the
    /// file is materialized.
    pub fn get_absolute_path(&self, pointer: FilePtr) -> (r: Result<&String, StateError>)
        ensures
            r is Ok <==> pointer.file < self.owners@.len() && pointer.version < self.owners@[pointer.file as int]@.len(),
            r is Ok ==> r->Ok_0@ == self.owners@[pointer.file as int]@[pointer.version as int].absolute_path@,
            r is Err ==> r->Err_0 == StateError::AbsolutePathBeforeLoad,
    {
        let file_index = pointer.file as usize;
        let version_index = pointer.version as usize;
        if file_index < self.owners.len() {
            if version_index < self.owners[file_index].len() {
                return Ok(&self.owners[file_index][version_index].absolute_path);
            }
        }
        Err(StateError::AbsolutePathBeforeLoad)
    }

    /// All versions of all files, indexed by file then version.
    pub fn files(&self) -> (r: &Vec<Vec<FileOwner>>)
        ensures
            r@ == self.owners@,
    {
        &self.owners
    }
}

} // verus!
