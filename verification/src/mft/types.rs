//! What a volume scan and the change journal hand to the index.
use vstd::prelude::*;

verus! {

/// Whether a record is a file or a directory.
#[derive(Debug, Clone, Copy, PartialEq, Eq, Structural)]
pub enum FileKind {
    File,
    Directory,
}

/// One file or directory, as the journal reports it.
#[derive(Debug)]
pub struct FileRecord {
    pub file_ref: u64,
    pub parent_ref: u64,
    pub name: String,
    pub kind: FileKind,
}

impl Clone for FileRecord {
    fn clone(&self) -> (r: Self)
        ensures
            r == *self,
    {
        FileRecord {
            file_ref: self.file_ref,
            parent_ref: self.parent_ref,
            name: self.name.clone(),
            kind: self.kind,
        }
    }
}

/// A mounted NTFS volume.
#[derive(Debug)]
pub struct NtfsDrive {
    pub letter: char,
    pub root: String,
    pub device_path: String,
}

impl Clone for NtfsDrive {
    fn clone(&self) -> (r: Self)
        ensures
            r == *self,
    {
        NtfsDrive {
            letter: self.letter,
            root: self.root.clone(),
            device_path: self.device_path.clone(),
        }
    }
}

/// How far the journal of one volume has been read.
#[derive(Debug, Clone, Copy, PartialEq, Eq, Structural)]
pub struct JournalCheckpoint {
    pub next_usn: i64,
    pub journal_id: u64,
    pub drive_letter: char,
}

/// A change on a volume. Every data event names its volume, because record
/// numbers of different volumes collide.
#[derive(Debug)]
pub enum IndexEvent {
    Created { drive_letter: char, record: FileRecord },
    Deleted { drive_letter: char, file_ref: u64 },
    Renamed { drive_letter: char, old_ref: u64, new_record: FileRecord },
    Moved { drive_letter: char, file_ref: u64, new_parent_ref: u64, name: String, kind: FileKind },
    /// A journal position, sent after every event that came before it on the
    /// same channel: once it is reached, those events are in the index.
    Checkpoint(JournalCheckpoint),
}

} // verus!
