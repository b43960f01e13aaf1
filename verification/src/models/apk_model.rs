use vstd::prelude::*;

verus! {

/// One category of the APK breakdown: its name, the compressed bytes of its files and
/// their number. The share of the APK it stands for is `size / total_size`.
#[derive(Debug)]
pub struct ApkCategory {
    pub name: String,
    pub size: u64,
    pub file_count: usize,
}

/// The native libraries of one architecture. Their share of all native libraries is
/// `size` over the sum of the sizes.
#[derive(Debug)]
pub struct NativeLibDetail {
    pub architecture: String,
    pub size: u64,
}

/// One file of the APK and its compressed size.
#[derive(Debug)]
pub struct ApkFileEntry {
    pub path: String,
    pub size: u64,
}

/// One entry of a ZIP archive's central directory: its name, its compressed size, and
/// whether it stands for a directory.
#[derive(Debug)]
pub struct ZipEntryInfo {
    pub name: String,
    pub compressed_size: u64,
    pub is_dir: bool,
}

/// Where reading a ZIP archive failed: at the archive itself (`entry` is `None`) or at
/// the entry of index `entry`; `message` is the error's own text.
#[derive(Debug)]
pub struct ZipFailure {
    pub entry: Option<usize>,
    pub message: String,
}

/// The size breakdown of an APK.
#[derive(Debug)]
pub struct ApkBreakdownResult {
    pub apk_file_name: String,
    pub total_size: u64,
    pub categories: Vec<ApkCategory>,
    pub native_libs: Vec<NativeLibDetail>,
    pub largest_files: Vec<ApkFileEntry>,
}

} // verus!
