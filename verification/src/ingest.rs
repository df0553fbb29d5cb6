//! Turning the entries of a file system walk into ingestion entries:
//! directories and symlinks as they are (a symlink target scanned for, or
//! rewritten with, references), regular files with their size, executable
//! bit and the digest under which their contents (scanned for, or rewritten
//! with, references) were uploaded.

use crate::refscan::{
    entry_needles, lemma_rewrite_complete, lengths_match, matches_complete, matches_valid, occurrences_apart,
    occurs_at, rewrite_in_place, rewritten, scan_flags, Match, ReferenceScanner, RewriteEntry, RewritePattern,
};
use vstd::prelude::*;

verus! {

/// What the walk found at a path, with what was read for it.
pub enum EntryData {
    Directory,
    Symlink { target: Vec<u8> },
    /// A regular file: size and mode from its metadata, and its contents.
    Regular { size: u64, mode: u32, contents: Vec<u8> },
    /// Anything else, of the given kind.
    Other { kind: FileKind },
}

/// The kinds of file a walk can find besides directories, symlinks and
/// regular files.
#[derive(Clone, Copy, Debug, PartialEq, Eq)]
pub enum FileKind {
    BlockDevice,
    CharDevice,
    Fifo,
    Socket,
    /// None of the kinds above.
    Unknown,
}

/// An entry to ingest, with its path relative to the walk's prefix.
#[derive(Debug)]
pub enum IngestionEntry {
    Dir { path: Vec<u8> },
    Symlink { path: Vec<u8>, target: Vec<u8> },
    Regular { path: Vec<u8>, size: u64, executable: bool, digest: Vec<u8> },
}

/// Errors of ingestion from a file system.
#[derive(Debug)]
pub enum Error {
    /// Unsupported file type at the path, of the given kind.
    FileType(Vec<u8>, FileKind),
    /// Unable to stat the path.
    Stat(Vec<u8>, std::io::Error),
    /// Unable to open the path.
    Open(Vec<u8>, std::io::Error),
    /// Unable to read the path.
    BlobRead(Vec<u8>, std::io::Error),
    /// Unable to finalize the blob of the path.
    BlobFinalize(Vec<u8>, std::io::Error),
}

/// Executable for the store when the owner may execute it.
pub open spec fn owner_executable(mode: u32) -> bool {
    mode & 64u32 != 0
}

/// The bytes of a walked entry that are scanned or rewritten: a symlink's
/// target or a regular file's contents.
pub open spec fn entry_bytes(data: EntryData) -> Seq<u8> {
    match data {
        EntryData::Symlink { target } => target@,
        EntryData::Regular { contents, .. } => contents@,
        _ => Seq::empty(),
    }
}

/// Whether the entry has bytes to scan or rewrite.
pub open spec fn has_bytes(data: EntryData) -> bool {
    data is Symlink || data is Regular
}

/// `u` is what a call of `upload` on the bytes `blob` may give.
pub open spec fn uploaded<F: Fn(&[u8]) -> Result<Vec<u8>, Error>>(
    upload: F,
    blob: Seq<u8>,
    u: Result<Vec<u8>, Error>,
) -> bool {
    exists|b: &[u8]| b@ == blob && call_ensures(upload, (b,), u)
}

/// The entry for a walked path, given the bytes stored for it (a symlink's
/// target, or the blob of a regular file) and what uploading that blob gave.
pub open spec fn entry_for(
    path: Seq<u8>,
    data: EntryData,
    stored: Seq<u8>,
    u: Result<Vec<u8>, Error>,
    r: Result<IngestionEntry, Error>,
) -> bool {
    match data {
        EntryData::Directory => r matches Ok(IngestionEntry::Dir { path: p }) && p@ == path,
        EntryData::Symlink { .. } => r matches Ok(IngestionEntry::Symlink { path: p, target: t }) && p@
            == path && t@ == stored,
        EntryData::Regular { size, mode, .. } => match u {
            Ok(digest) => r matches Ok(IngestionEntry::Regular { path: p, size: s, executable: x, digest: d })
                && p@ == path && s == size && x == owner_executable(mode) && d == digest,
            Err(e) => r == Err::<IngestionEntry, Error>(e),
        },
        EntryData::Other { kind } => r matches Err(Error::FileType(p, k)) && p@ == path && k == kind,
    }
}

/// Converts a walked entry into an ingestion entry. A symlink target or a
/// regular file's contents are scanned for references with the searcher's
/// output `found` on them; the contents are then handed to `upload`, which
/// stores them as a blob and gives its digest (or the error of the upload).
pub fn dir_entry_to_ingestion_entry<F: Fn(&[u8]) -> Result<Vec<u8>, Error>>(
    upload: F,
    path: Vec<u8>,
    data: EntryData,
    reference_scanner: &mut Option<ReferenceScanner>,
    found: &[Match],
) -> (r: Result<IngestionEntry, Error>)
    requires
        *old(reference_scanner) matches Some(s) ==> s.wf(),
        has_bytes(data) ==> (*old(reference_scanner) matches Some(s) ==> matches_valid(
            s.candidates_view(),
            entry_bytes(data),
            found@,
        ) && matches_complete(s.candidates_view(), entry_bytes(data), found@)),
        forall|b: &[u8]| call_requires(upload, (b,)),
    ensures
        exists|u: Result<Vec<u8>, Error>|
            #![trigger entry_for(path@, data, entry_bytes(data), u, r)]
            (data is Regular ==> uploaded(upload, entry_bytes(data), u)) && entry_for(
                path@,
                data,
                entry_bytes(data),
                u,
                r,
            ),
        *final(reference_scanner) is Some <==> *old(reference_scanner) is Some,
        *final(reference_scanner) matches Some(s) ==> s.wf() && (*old(reference_scanner) matches Some(o)
            && s.candidates_view() == o.candidates_view() && s.flags() == if has_bytes(data) {
            scan_flags(o.flags(), found@)
        } else {
            o.flags()
        }),
{
    match data {
        EntryData::Directory => {
            let r = Ok(IngestionEntry::Dir { path });
            assert(entry_for(path@, data, entry_bytes(data), arbitrary(), r));
            r
        },
        EntryData::Symlink { target } => {
            match reference_scanner {
                Some(s) => {
                    s.scan(target.as_slice(), found);
                },
                None => {},
            }
            let r = Ok(IngestionEntry::Symlink { path, target });
            assert(entry_for(path@, data, entry_bytes(data), arbitrary(), r));
            r
        },
        EntryData::Regular { size, mode, contents } => {
            match reference_scanner {
                Some(s) => {
                    s.scan(contents.as_slice(), found);
                },
                None => {},
            }
            let b = contents.as_slice();
            let u = upload(b);
            assert(uploaded(upload, entry_bytes(data), u));
            let r = match u {
                Ok(digest) => Ok(IngestionEntry::Regular { path, size, executable: mode & 64u32 != 0, digest }),
                Err(e) => Err(e),
            };
            assert(entry_for(path@, data, entry_bytes(data), u, r));
            r
        },
        EntryData::Other { kind } => {
            let r = Err(Error::FileType(path, kind));
            assert(entry_for(path@, data, entry_bytes(data), arbitrary(), r));
            r
        },
    }
}

/// The bytes stored for an entry when ingesting with rewrites: its bytes
/// rewritten by the pattern.
pub open spec fn rewritten_bytes(pattern: Seq<RewriteEntry>, data: EntryData, found: Seq<Match>) -> Seq<u8> {
    rewritten(pattern, entry_bytes(data), found)
}

/// Converts a walked entry into an ingestion entry, rewriting a symlink
/// target or a regular file's contents with the searcher's output `found`
/// on them; the rewritten contents are handed to `upload`, which stores them
/// as a blob and gives its digest (or the error of the upload).
pub fn dir_entry_to_ingestion_entry_with_rewrites<F: Fn(&[u8]) -> Result<Vec<u8>, Error>>(
    upload: F,
    path: Vec<u8>,
    data: EntryData,
    rewrite_pattern: &RewritePattern,
    found: &[Match],
) -> (r: Result<IngestionEntry, Error>)
    requires
        has_bytes(data) ==> matches_valid(entry_needles(rewrite_pattern@), entry_bytes(data), found@)
            && matches_complete(entry_needles(rewrite_pattern@), entry_bytes(data), found@)
            && entry_bytes(data).len() <= u64::MAX,
        forall|b: &[u8]| call_requires(upload, (b,)),
    ensures
        exists|u: Result<Vec<u8>, Error>|
            #![trigger entry_for(path@, data, rewritten_bytes(rewrite_pattern@, data, found@), u, r)]
            (data is Regular ==> uploaded(upload, rewritten_bytes(rewrite_pattern@, data, found@), u))
                && entry_for(path@, data, rewritten_bytes(rewrite_pattern@, data, found@), u, r),
{
    match data {
        EntryData::Directory => {
            let r = Ok(IngestionEntry::Dir { path });
            assert(entry_for(path@, data, rewritten_bytes(rewrite_pattern@, data, found@), arbitrary(), r));
            r
        },
        EntryData::Symlink { target } => {
            let mut target = target;
            let _ = rewrite_in_place(rewrite_pattern, &mut target, 0, found);
            let r = Ok(IngestionEntry::Symlink { path, target });
            assert(entry_for(path@, data, rewritten_bytes(rewrite_pattern@, data, found@), arbitrary(), r));
            r
        },
        EntryData::Regular { size, mode, contents } => {
            let mut blob = contents;
            let _ = rewrite_in_place(rewrite_pattern, &mut blob, 0, found);
            let b = blob.as_slice();
            let u = upload(b);
            assert(uploaded(upload, rewritten_bytes(rewrite_pattern@, data, found@), u));
            let r = match u {
                Ok(digest) => Ok(IngestionEntry::Regular { path, size, executable: mode & 64u32 != 0, digest }),
                Err(e) => Err(e),
            };
            assert(entry_for(path@, data, rewritten_bytes(rewrite_pattern@, data, found@), u, r));
            r
        },
        EntryData::Other { kind } => {
            let r = Err(Error::FileType(path, kind));
            assert(entry_for(path@, data, rewritten_bytes(rewrite_pattern@, data, found@), arbitrary(), r));
            r
        },
    }
}

/// Ingesting with rewrites overwrites every occurrence of a needle with its
/// replacement, in a symlink's target as in a regular file's uploaded
/// contents (the bytes kept or uploaded hold the replacement where the
/// needle occurred), when no needle is empty and occurrences keep apart.
pub proof fn lemma_ingest_rewrites_every_occurrence<F: Fn(&[u8]) -> Result<Vec<u8>, Error>>(
    upload: F,
    path: Seq<u8>,
    data: EntryData,
    pattern: Seq<RewriteEntry>,
    found: Seq<Match>,
    r: Result<IngestionEntry, Error>,
    i: int,
    p: int,
)
    requires
        has_bytes(data),
        exists|u: Result<Vec<u8>, Error>|
            #![trigger entry_for(path, data, rewritten_bytes(pattern, data, found), u, r)]
            (data is Regular ==> uploaded(upload, rewritten_bytes(pattern, data, found), u)) && entry_for(
                path,
                data,
                rewritten_bytes(pattern, data, found),
                u,
                r,
            ),
        lengths_match(pattern),
        matches_valid(entry_needles(pattern), entry_bytes(data), found),
        matches_complete(entry_needles(pattern), entry_bytes(data), found),
        forall|k: int| 0 <= k < pattern.len() ==> #[trigger] entry_needles(pattern)[k].len() > 0,
        occurrences_apart(entry_needles(pattern), entry_bytes(data)),
        0 <= i < pattern.len(),
        occurs_at(entry_bytes(data), entry_needles(pattern)[i], p),
    ensures
        data is Symlink ==> (r matches Ok(IngestionEntry::Symlink { target: t, .. }) && t@.subrange(
            p,
            p + pattern[i].needle@.len(),
        ) == pattern[i].replacement@),
        data is Regular ==> exists|b: Seq<u8>, u: Result<Vec<u8>, Error>|
            #![trigger uploaded(upload, b, u)]
            uploaded(upload, b, u) && entry_for(path, data, b, u, r) && b.subrange(p, p + pattern[i].needle@.len())
                == pattern[i].replacement@,
{
    lemma_rewrite_complete(pattern, entry_bytes(data), 0, found, i, p);
    let b = rewritten_bytes(pattern, data, found);
    let u = choose|u: Result<Vec<u8>, Error>|
        #![trigger entry_for(path, data, rewritten_bytes(pattern, data, found), u, r)]
        (data is Regular ==> uploaded(upload, rewritten_bytes(pattern, data, found), u)) && entry_for(
            path,
            data,
            rewritten_bytes(pattern, data, found),
            u,
            r,
        );
    if data is Regular {
        assert(uploaded(upload, b, u) && entry_for(path, data, b, u, r));
    }
}

} // verus!
