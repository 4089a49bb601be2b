//! Hashing one file, with the checks that it did not change meanwhile.

use crate::model::{
    DuplicateWarning, DuplicateWarningKind, DuplicateWarningView, FileIdentity, ItemView,
    ScannedItem,
};
use crate::path;
use crate::path::{FilePath, GivenView};
use crate::progress::{AnalysisPhase, EventView, ProgressEvent};
use crate::scanner;
use crate::text;
use vstd::prelude::*;

verus! {

/// The incremental BLAKE3 hasher.
#[verifier::external_type_specification]
#[verifier::external_body]
pub struct ExHasher(blake3::Hasher);

/// The bytes that a hasher has taken in.
pub uninterp spec fn taken_in(hasher: blake3::Hasher) -> Seq<u8>;

/// Whether a hasher is unkeyed and counts its input from the beginning.
pub uninterp spec fn from_beginning(hasher: blake3::Hasher) -> bool;

/// The BLAKE3 hash of some bytes in hexadecimal digits.
pub uninterp spec fn blake3_hex(bytes: Seq<u8>) -> Seq<char>;

/// `blake3::Hasher::new` has taken in nothing, is unkeyed and counts from the
/// beginning.
#[verifier::external_body]
fn new_hasher() -> (result: blake3::Hasher)
    ensures
        taken_in(result) == Seq::<u8>::empty(),
        from_beginning(result),
{
    blake3::Hasher::new()
}

/// `blake3::Hasher::update` takes in further bytes behind the others.
#[verifier::external_body]
fn update_hasher(hasher: &mut blake3::Hasher, bytes: &[u8])
    requires
        from_beginning(*old(hasher)),
    ensures
        taken_in(*final(hasher)) == taken_in(*old(hasher)) + bytes@,
        from_beginning(*final(hasher)),
{
    hasher.update(bytes);
}

/// `blake3::Hasher::finalize`, written by `Hash::to_hex`: the hash of all the
/// bytes taken in, in hexadecimal digits, two for each of its 32 bytes.
#[verifier::external_body]
fn finish_hasher(hasher: &blake3::Hasher) -> (result: String)
    requires
        from_beginning(*hasher),
    ensures
        result@ == blake3_hex(taken_in(*hasher)),
        result@.len() == 64,
{
    hasher.finalize().to_hex().to_string()
}

/// A point in time, before or after the epoch.
#[derive(Debug, Clone, Copy, PartialEq, Eq, Structural)]
pub struct FileTime {
    /// Whole seconds since the epoch, rounded down.
    pub seconds: i64,
    pub nanoseconds: u32,
}

/// What the filesystem says of a file at one moment.
#[derive(Debug, Clone, Copy, PartialEq, Eq, Structural)]
pub struct FileSnapshot {
    pub is_file: bool,
    pub length: u64,
    pub modified: Option<FileTime>,
    pub identity: Option<FileIdentity>,
}

/// The nanoseconds from the epoch to a time, where they fit.
pub open spec fn nanoseconds_of(time: Option<FileTime>) -> Option<u64> {
    match time {
        Some(at) => {
            let whole = at.seconds * 1_000_000_000 + at.nanoseconds;
            if at.seconds >= 0 && whole <= u64::MAX {
                Some(whole as u64)
            } else {
                None
            }
        },
        None => None,
    }
}

fn epoch_nanoseconds(time: Option<FileTime>) -> (result: Option<u64>)
    ensures
        result == nanoseconds_of(time),
{
    match time {
        Some(at) => if at.seconds < 0 {
            None
        } else {
            match (at.seconds as u64).checked_mul(1_000_000_000) {
                Some(whole) => whole.checked_add(at.nanoseconds as u64),
                None => None,
            }
        },
        None => None,
    }
}

/// Whether a file still is what the scan saw: of the same length and, where
/// the scan knew them, of the same identity and time of modification.
pub open spec fn matches_scan(item: ItemView, snapshot: FileSnapshot) -> bool {
    &&& snapshot.length == item.size_bytes
    &&& item.file_identity is Some ==> snapshot.identity == item.file_identity
    &&& item.modified_at_epoch_nanoseconds is Some ==> nanoseconds_of(snapshot.modified)
        == item.modified_at_epoch_nanoseconds
}

/// Whether two snapshots are of one unchanged file.
pub open spec fn same_snapshot(left: FileSnapshot, right: FileSnapshot) -> bool {
    &&& left.length == right.length
    &&& left.modified == right.modified
    &&& left.identity is Some && right.identity is Some ==> left.identity == right.identity
}

fn still_matches(item: &ScannedItem, snapshot: FileSnapshot) -> (result: bool)
    ensures
        result == matches_scan(item@, snapshot),
{
    let identity_changed = match item.file_identity {
        Some(expected) => match snapshot.identity {
            Some(current) => current != expected,
            None => true,
        },
        None => false,
    };
    let modified_changed = match item.modified_at_epoch_nanoseconds {
        Some(expected) => match epoch_nanoseconds(snapshot.modified) {
            Some(current) => current != expected,
            None => true,
        },
        None => false,
    };
    snapshot.length == item.size_bytes && !identity_changed && !modified_changed
}

fn unchanged(left: FileSnapshot, right: FileSnapshot) -> (result: bool)
    ensures
        result == same_snapshot(left, right),
{
    let same_time = match (left.modified, right.modified) {
        (Some(a), Some(b)) => a == b,
        (None, None) => true,
        _ => false,
    };
    let same_identity = match (left.identity, right.identity) {
        (Some(a), Some(b)) => a == b,
        _ => true,
    };
    left.length == right.length && same_time && same_identity
}

/// The warning of a file that changed.
pub open spec fn changed_warning(given: GivenView, message: Seq<char>) -> DuplicateWarningView {
    DuplicateWarningView {
        path: given.path,
        spelling: given.spelling,
        kind: DuplicateWarningKind::ChangedDuringDetection,
        message,
    }
}

fn changed(given: &FilePath, message: &str) -> (result: DuplicateWarning)
    ensures
        result@ == changed_warning(given.as_given(), message@),
{
    DuplicateWarning {
        path: given.clone(),
        kind: DuplicateWarningKind::ChangedDuringDetection,
        message: message.to_owned(),
    }
}

/// Where reading a file can fail.
#[derive(Debug, Clone, Copy, PartialEq, Eq, Structural)]
pub enum HashStage {
    MetadataBefore,
    Opening,
    OpenedMetadata,
    Reading,
    OpenedMetadataAfter,
    PathAfter,
}

pub open spec fn stage_kind(stage: HashStage) -> DuplicateWarningKind {
    match stage {
        HashStage::MetadataBefore => DuplicateWarningKind::MetadataUnavailable,
        HashStage::Opening => DuplicateWarningKind::Unreadable,
        HashStage::OpenedMetadata => DuplicateWarningKind::MetadataUnavailable,
        HashStage::Reading => DuplicateWarningKind::Unreadable,
        HashStage::OpenedMetadataAfter => DuplicateWarningKind::MetadataUnavailable,
        HashStage::PathAfter => DuplicateWarningKind::ChangedDuringDetection,
    }
}

pub open spec fn stage_message(stage: HashStage) -> Seq<char> {
    match stage {
        HashStage::MetadataBefore => "cannot read metadata before hashing: "@,
        HashStage::Opening => "cannot open file for hashing: "@,
        HashStage::OpenedMetadata => "cannot read opened-file metadata: "@,
        HashStage::Reading => "failed while hashing file: "@,
        HashStage::OpenedMetadataAfter => "cannot verify opened file after hashing: "@,
        HashStage::PathAfter => "file path disappeared after hashing: "@,
    }
}

/// The warning of a file that could not be read at some stage.
pub fn failure(given: &FilePath, stage: HashStage, reason: &str) -> (result: DuplicateWarning)
    ensures
        result@ == (DuplicateWarningView {
            path: given@,
            spelling: given.spelling(),
            kind: stage_kind(stage),
            message: stage_message(stage) + reason@,
        }),
{
    let (kind, prefix) = match stage {
        HashStage::MetadataBefore => (
            DuplicateWarningKind::MetadataUnavailable,
            "cannot read metadata before hashing: ",
        ),
        HashStage::Opening => (DuplicateWarningKind::Unreadable, "cannot open file for hashing: "),
        HashStage::OpenedMetadata => (
            DuplicateWarningKind::MetadataUnavailable,
            "cannot read opened-file metadata: ",
        ),
        HashStage::Reading => (DuplicateWarningKind::Unreadable, "failed while hashing file: "),
        HashStage::OpenedMetadataAfter => (
            DuplicateWarningKind::MetadataUnavailable,
            "cannot verify opened file after hashing: ",
        ),
        HashStage::PathAfter => (
            DuplicateWarningKind::ChangedDuringDetection,
            "file path disappeared after hashing: ",
        ),
    };
    DuplicateWarning { path: given.clone(), kind, message: text::cat2(prefix, reason) }
}

/// A file that is being hashed.
pub struct HashSession {
    path: FilePath,
    before: FileSnapshot,
    hasher: blake3::Hasher,
    bytes_read: u64,
}

impl HashSession {
    #[verifier::type_invariant]
    spec fn well_formed(self) -> bool {
        from_beginning(self.hasher) && self.bytes_read == scanner::saturated(
            taken_in(self.hasher).len(),
        )
    }

    pub closed spec fn file(&self) -> GivenView {
        self.path.as_given()
    }

    pub closed spec fn first_snapshot(&self) -> FileSnapshot {
        self.before
    }

    /// The bytes read so far.
    pub closed spec fn contents(&self) -> Seq<u8> {
        taken_in(self.hasher)
    }

    /// Begins with what the filesystem says of the file before it is opened.
    pub fn begin(item: &ScannedItem, before: FileSnapshot) -> (result: Result<
        Self,
        DuplicateWarning,
    >)
        ensures
            match result {
                Ok(session) => {
                    &&& before.is_file
                    &&& matches_scan(item@, before)
                    &&& session.file() == item.path.as_given()
                    &&& session.first_snapshot() == before
                    &&& session.contents() == Seq::<u8>::empty()
                },
                Err(warning) => if !before.is_file {
                    warning@ == (DuplicateWarningView {
                        path: item@.path,
                        spelling: item@.spelling,
                        kind: DuplicateWarningKind::NotRegularFile,
                        message: "item is no longer a regular file"@,
                    })
                } else {
                    !matches_scan(item@, before) && warning@ == changed_warning(
                        item.path.as_given(),
                        "file changed after scanning and before duplicate detection"@,
                    )
                },
            },
    {
        if !before.is_file {
            return Err(
                DuplicateWarning {
                    path: item.path.clone(),
                    kind: DuplicateWarningKind::NotRegularFile,
                    message: "item is no longer a regular file".to_owned(),
                },
            );
        }
        if !still_matches(item, before) {
            return Err(
                changed(
                    &item.path,
                    "file changed after scanning and before duplicate detection",
                ),
            );
        }
        let hasher = new_hasher();
        Ok(HashSession { path: item.path.clone(), before, hasher, bytes_read: 0 })
    }

    /// Checks what the filesystem says of the file once it is opened.
    pub fn check_opened(&self, opened: FileSnapshot) -> (result: Result<(), DuplicateWarning>)
        ensures
            match result {
                Ok(_) => same_snapshot(self.first_snapshot(), opened),
                Err(warning) => !same_snapshot(self.first_snapshot(), opened) && warning@
                    == changed_warning(
                    self.file(),
                    "file changed between metadata inspection and opening"@,
                ),
            },
    {
        if unchanged(self.before, opened) {
            Ok(())
        } else {
            Err(changed(&self.path, "file changed between metadata inspection and opening"))
        }
    }

    /// Takes in the next bytes of the file.
    pub fn feed(self, bytes: &[u8]) -> (result: Self)
        ensures
            result.contents() == self.contents() + bytes@,
            result.file() == self.file(),
            result.first_snapshot() == self.first_snapshot(),
    {
        proof {
            use_type_invariant(&self);
        }
        let bytes_read: u64 = self.bytes_read.saturating_add(bytes.len() as u64);
        let mut hasher = self.hasher;
        update_hasher(&mut hasher, bytes);
        HashSession { path: self.path, before: self.before, hasher, bytes_read }
    }

    /// Checks what the filesystem says of the file at the end, and gives its
    /// hash where it did not change.
    pub fn finish(self, opened_after: FileSnapshot, path_after: FileSnapshot) -> (result: Result<
        String,
        DuplicateWarning,
    >)
        ensures
            ({
                let intact = scanner::saturated(self.contents().len())
                    == self.first_snapshot().length && same_snapshot(
                    self.first_snapshot(),
                    opened_after,
                ) && same_snapshot(opened_after, path_after);
                match result {
                    Ok(hash) => intact && hash@ == blake3_hex(self.contents()) && hash@.len() == 64,
                    Err(warning) => !intact && warning@ == changed_warning(
                        self.file(),
                        "file changed while it was being hashed"@,
                    ),
                }
            }),
    {
        proof {
            use_type_invariant(&self);
        }
        if self.bytes_read != self.before.length || !unchanged(self.before, opened_after)
            || !unchanged(opened_after, path_after) {
            return Err(changed(&self.path, "file changed while it was being hashed"));
        }
        Ok(finish_hasher(&self.hasher))
    }
}

/// The progress event of hashing.
pub open spec fn hashing_event(
    files: u64,
    bytes: u64,
    total_files: u64,
    total_bytes: u64,
    current: Option<GivenView>,
) -> EventView {
    EventView {
        phase: AnalysisPhase::HashingDuplicates,
        items_processed: files,
        bytes_processed: bytes,
        total_items: Some(total_files),
        total_bytes: Some(total_bytes),
        current_path: current,
    }
}

pub fn make_hashing_event(
    files: u64,
    bytes: u64,
    total_files: u64,
    total_bytes: u64,
    current: Option<FilePath>,
) -> (result: ProgressEvent)
    ensures
        result@ == hashing_event(
            files,
            bytes,
            total_files,
            total_bytes,
            path::optional_given(current),
        ),
{
    ProgressEvent {
        phase: AnalysisPhase::HashingDuplicates,
        items_processed: files,
        bytes_processed: bytes,
        total_items: Some(total_files),
        total_bytes: Some(total_bytes),
        current_path: current,
    }
}

} // verus!
