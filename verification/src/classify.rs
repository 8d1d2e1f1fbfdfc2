//! Entry classification: one raw metadata result (from a single
//! link-unaware query made by the caller) is resolved to exactly one of
//! regular file, directory, or other. Symbolic links fall under
//! "other": the query never follows them, so their target's type and
//! size are never consulted.

use vstd::prelude::*;

verus! {

/// What one directory child turned out to be.
#[derive(Debug, Clone, Copy, PartialEq, Eq, Structural)]
pub enum EntryMetadata {
    RegularFile { size: u64 },
    Directory,
    Other,
}

/// Classification of a raw `st_mode` word: the `S_IFMT` bits (mask
/// `0o170000`) name the file type; `S_IFREG` (`0o100000`) is a regular
/// file and `S_IFDIR` (`0o040000`) a directory. Everything else —
/// symbolic links, devices, sockets, pipes — is `Other`.
pub open spec fn spec_classify(mode: u32, size: u64) -> EntryMetadata {
    if mode & 0o170000 == 0o100000 {
        EntryMetadata::RegularFile { size }
    } else if mode & 0o170000 == 0o040000 {
        EntryMetadata::Directory
    } else {
        EntryMetadata::Other
    }
}

/// A symbolic link's mode (`S_IFLNK`, `0o120000`) is always classified
/// `Other`, never as a regular file, so a link can never contribute an
/// entry to the ranked output.
pub proof fn lemma_symlink_is_other(mode: u32, size: u64)
    requires
        mode & 0o170000 == 0o120000,
    ensures
        spec_classify(mode, size) == EntryMetadata::Other,
{
}

/// The file-type class alone, without the size.
enum FileKind {
    Regular,
    Directory,
    Other,
}

spec fn spec_file_kind(mode: u32) -> FileKind {
    if mode & 0o170000 == 0o100000 {
        FileKind::Regular
    } else if mode & 0o170000 == 0o040000 {
        FileKind::Directory
    } else {
        FileKind::Other
    }
}

/// Relies on rustix::fs::FileType::from_raw_mode, which matches the
/// `S_IFMT` bits of the given `st_mode` word against the `S_IF*`
/// constants to name the file type.
#[verifier::external_body]
fn file_kind_of_mode(mode: u32) -> (r: FileKind)
    ensures
        r == spec_file_kind(mode),
{
    match rustix::fs::FileType::from_raw_mode(mode) {
        rustix::fs::FileType::RegularFile => FileKind::Regular,
        rustix::fs::FileType::Directory => FileKind::Directory,
        _ => FileKind::Other,
    }
}

/// Resolves the result of one link-unaware metadata query to a
/// classification. The caller issues exactly one such query per child
/// and hands in the raw mode word and byte size it reported.
pub fn classify_stat(mode: u32, size: u64) -> (r: EntryMetadata)
    ensures
        r == spec_classify(mode, size),
{
    match file_kind_of_mode(mode) {
        FileKind::Regular => EntryMetadata::RegularFile { size },
        FileKind::Directory => EntryMetadata::Directory,
        FileKind::Other => EntryMetadata::Other,
    }
}

} // verus!
