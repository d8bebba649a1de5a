//! reMarkable cloud sync v3: the index layer of a native-bundle upload.
//!
//! Files are stored as content-addressed blobs keyed by SHA-256. To add a new
//! document:
//!
//! 1. `PUT /sync/v3/files/<sha256>` for every file in the bundle.
//! 2. Build a *doc-index* blob: a text listing of
//!    `<file-hash>:0:<name>:0:<size>` lines, sorted by name, and `PUT` it under
//!    its own hash.
//! 3. `GET /sync/v3/root`, then fetch and parse the *root index* blob it names:
//!    the same line format, one line per document.
//! 4. Replace or append our document's entry, serialize, hash, `PUT` the new
//!    root blob.
//! 5. `PUT /sync/v3/root` with the generation that was read. On a race the
//!    server answers 412 and the push starts over from step 3.
//!
//! Indexes carry their schema on the first line (`3` or `4`).
//! - v4 hashes are the SHA-256 of the blob bytes.
//! - v3 hashes are the SHA-256 of the concatenated binary child hashes, sorted
//!   by id.
//! - v4 indexes hold a `0:<label>:<count>:<totalSize>` totals row right after
//!   the schema line; v3 indexes do not.
//!
//! The schema the server is currently using is always honoured.

pub mod files;
pub mod folder;
pub mod index;
pub mod inspect;
pub mod laws;
pub mod listing;
pub mod plan_laws;
pub mod upload;
pub mod upload_laws;

pub use files::bundle_files;
pub use folder::{check_new_folder, FolderBundle};
pub use index::{
    diff_root, hash_index, is_totals_row, lines_missing_from, parse_entry_line, parse_index,
    plan_root, push_sizes_fit, replace_or_append, serialize_index, split_index, IndexEntry,
    NewRoot, RootDiff, RootState, Schema,
};
pub use inspect::{InspectedBlob, Inspection};
pub use listing::{partition_listing, DocumentInfo, FetchOutcome, Listing, SkippedEntry};
pub use upload::{
    entry_for, files_url, root_url, validate_signed_upload_url, CloudFile, PushPlan, RestorePlan,
    UpdateRootOutcome, UploadResult, SYNC_HOST,
};
