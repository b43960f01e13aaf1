use vstd::prelude::*;
use std::io::Cursor;
use zip::ZipArchive;
use crate::analysers::apk_analyser::entry_views;
use crate::models::apk_model::{ZipEntryInfo, ZipFailure};
use crate::text::{decimal, ends_with, push_decimal, push_str_chars, string_from_chars};

verus! {

/// What the `zip` crate reads out of the central directory of the archive `bytes`: its
/// entries in archive order, or where the first error came and its text.
pub uninterp spec fn zip_listing_of(bytes: Seq<u8>) -> Result<Vec<ZipEntryInfo>, ZipFailure>;

/// Lists the entries of a ZIP archive held in memory: `ZipArchive::new` over the bytes,
/// then `by_index` for each of its `len()` entries, keeping `name()`,
/// `compressed_size()` and `is_dir()`; an error is kept with the stage it came from
/// (the archive, or entry `i`) and its `Display` text. The result is named
/// `zip_listing_of`; of each
/// entry the contract also states what `is_dir` is in the crate's source: whether the
/// name ends with `/` or `\`.
#[verifier::external_body]
fn zip_listing(bytes: &Vec<u8>) -> (res: Result<Vec<ZipEntryInfo>, ZipFailure>)
    ensures
        res == zip_listing_of(bytes@),
        res matches Ok(entries) ==> forall|k: int|
            0 <= k < entries.len() ==> (#[trigger] entries[k]).is_dir == (ends_with(entries[k].name@, "/"@)
                || ends_with(entries[k].name@, "\\"@)),
{
    let mut archive = ZipArchive::new(Cursor::new(bytes.as_slice()))
        .map_err(|e| ZipFailure { entry: None, message: e.to_string() })?;
    (0..archive.len()).map(|i| {
        archive.by_index(i)
            .map(|f| ZipEntryInfo { name: f.name().to_string(), compressed_size: f.compressed_size(), is_dir: f.is_dir() })
            .map_err(|e| ZipFailure { entry: Some(i), message: e.to_string() })
    }).collect()
}

/// The files of an archive listing, directories left out, with their compressed sizes.
pub open spec fn listed_files(listing: Seq<ZipEntryInfo>) -> Seq<(Seq<char>, u64)>
    decreases listing.len(),
{
    if listing.len() == 0 {
        seq![]
    } else {
        listed_files(listing.drop_last()) + if listing.last().is_dir {
            seq![]
        } else {
            seq![(listing.last().name@, listing.last().compressed_size)]
        }
    }
}

/// The files of an archive listing, directories left out, with their compressed sizes.
pub fn apk_file_entries(listing: &Vec<ZipEntryInfo>) -> (res: Vec<(String, u64)>)
    ensures
        entry_views(res@) == listed_files(listing@),
{
    let mut res: Vec<(String, u64)> = Vec::new();
    let mut i: usize = 0;
    while i < listing.len()
        invariant
            i <= listing.len(),
            entry_views(res@) == listed_files(listing@.take(i as int)),
        decreases listing.len() - i,
    {
        assert(listing@.take(i + 1).drop_last() =~= listing@.take(i as int));
        assert(listing@.take(i + 1).last() == listing@[i as int]);
        let ghost before = entry_views(res@);
        if !listing[i].is_dir {
            res.push((listing[i].name.clone(), listing[i].compressed_size));
            assert(entry_views(res@) =~= before.push((listing@[i as int].name@, listing@[i as int].compressed_size)));
        } else {
            assert(entry_views(res@) =~= before);
        }
        i = i + 1;
    }
    assert(listing@.take(listing.len() as int) =~= listing@);
    res
}

/// The message of a failure to read an APK: which stage failed, then the error's text.
pub open spec fn failure_text(f: ZipFailure) -> Seq<char> {
    match f.entry {
        None => "Failed to read APK as ZIP: "@ + f.message@,
        Some(i) => "Failed to read ZIP entry "@ + decimal(i as nat) + ": "@ + f.message@,
    }
}

/// The message of a failure to read an APK: which stage failed, then the error's text.
pub fn failure_message(f: &ZipFailure) -> (res: String)
    ensures
        res@ == failure_text(*f),
{
    let mut out: Vec<char> = Vec::new();
    match f.entry {
        None => {
            push_str_chars(&mut out, "Failed to read APK as ZIP: ");
        },
        Some(i) => {
            push_str_chars(&mut out, "Failed to read ZIP entry ");
            push_decimal(&mut out, i as u128);
            push_str_chars(&mut out, ": ");
        },
    }
    push_str_chars(&mut out, f.message.as_str());
    string_from_chars(&out)
}

/// The files of an APK held in memory with their compressed sizes, directories left
/// out; where the bytes are no readable ZIP archive, a message that names the stage
/// that failed (the archive, or entry `i`) before the error's text.
pub fn read_apk_entries(bytes: &Vec<u8>) -> (res: Result<Vec<(String, u64)>, String>)
    ensures
        match zip_listing_of(bytes@) {
            Ok(listing) => res matches Ok(files) && entry_views(files@) == listed_files(listing@),
            Err(f) => res matches Err(msg) && msg@ == failure_text(f),
        },
{
    match zip_listing(bytes) {
        Ok(listing) => Ok(apk_file_entries(&listing)),
        Err(f) => Err(failure_message(&f)),
    }
}

} // verus!
