//! A directory listing from what reading the directory gave: hidden
//! entries are left out, each entry is classified and its modification
//! time formatted, and the entries are sorted in listing order.

use vstd::prelude::*;
use vstd::utf8::encode_utf8;

use crate::entry::{
    classify, entry_views, kind_of, sort_entries, sorted_listing, FileEntry, FileEntryView,
};
use crate::format::{format_modified, modified_text};
use crate::path::copy_bytes;
use crate::text::has_prefix;

verus! {

/// What the file system says about an entry.
#[derive(Clone, Copy, Debug)]
pub struct RawMetadata {
    pub is_dir: bool,
    pub size: u64,
    /// The modification time in whole seconds since the Unix epoch, when
    /// it is known and not before the epoch.
    pub modified: Option<u64>,
}

/// One item of reading a directory.
#[derive(Debug)]
pub enum RawEntry {
    /// Reading the next entry failed with this error.
    Unreadable(String),
    /// An entry, with its metadata or the error that reading it gave.
    Found { path: Vec<u8>, name: String, metadata: Result<RawMetadata, String> },
}

/// Entries whose name starts with a dot are hidden.
pub open spec fn is_hidden(name: Seq<char>) -> bool {
    has_prefix(encode_utf8(name), seq![46u8])
}

/// The text shown for an unknown modification time.
pub open spec fn unknown_time_text() -> Seq<char> {
    "--"@
}

/// The entry shown for a raw entry with its metadata.
pub open spec fn entry_of(path: Seq<u8>, name: Seq<char>, m: RawMetadata) -> FileEntryView {
    FileEntryView {
        path: path,
        name: name,
        kind: kind_of(encode_utf8(name), m.is_dir),
        size: m.size,
        modified: match m.modified {
            Some(s) => modified_text(s as nat),
            None => unknown_time_text(),
        },
    }
}

/// What one raw item adds to the entries collected before it, or the
/// error it gives.
pub open spec fn collect_step(es: Seq<FileEntryView>, raw: RawEntry) -> Result<
    Seq<FileEntryView>,
    Seq<char>,
> {
    match raw {
        RawEntry::Unreadable(e) => Err(e@),
        RawEntry::Found { path, name, metadata } => if is_hidden(name@) {
            Ok(es)
        } else {
            match metadata {
                Err(e) => Err(e@),
                Ok(m) => Ok(es.push(entry_of(path@, name@, m))),
            }
        },
    }
}

/// The visible entries of a raw listing in the order read, or the first
/// error met: an unreadable item, or the metadata of a visible entry.
pub open spec fn collected(raws: Seq<RawEntry>) -> Result<Seq<FileEntryView>, Seq<char>>
    decreases raws.len(),
{
    if raws.len() == 0 {
        Ok(Seq::empty())
    } else {
        match collected(raws.drop_last()) {
            Err(e) => Err(e),
            Ok(es) => collect_step(es, raws.last()),
        }
    }
}

/// The listing of a raw listing: its visible entries sorted in listing
/// order, or the first error met.
pub open spec fn listing_of(raws: Seq<RawEntry>) -> Result<Seq<FileEntryView>, Seq<char>> {
    match collected(raws) {
        Ok(es) => Ok(sorted_listing(es)),
        Err(e) => Err(e),
    }
}

/// The entry for a raw entry with its metadata.
fn make_entry(path: &Vec<u8>, name: &String, m: RawMetadata) -> (r: FileEntry)
    ensures
        r@ == entry_of(path@, name@, m),
{
    let kind = classify(name.as_str(), m.is_dir);
    let modified = match m.modified {
        Some(seconds) => format_modified(seconds),
        None => "--".to_owned(),
    };
    FileEntry { path: copy_bytes(path.as_slice()), name: name.clone(), kind, size: m.size, modified }
}

/// Makes a directory listing from what reading the directory gave.
pub fn build_listing(raws: &Vec<RawEntry>) -> (r: Result<Vec<FileEntry>, String>)
    ensures
        match r {
            Ok(es) => listing_of(raws@) == Ok::<Seq<FileEntryView>, Seq<char>>(entry_views(es@)),
            Err(e) => listing_of(raws@) == Err::<Seq<FileEntryView>, Seq<char>>(e@),
        },
{
    let mut found: Vec<FileEntry> = Vec::new();
    let mut i: usize = 0;
    assert(raws@.take(0) =~= Seq::<RawEntry>::empty());
    assert(entry_views(found@) =~= Seq::<FileEntryView>::empty());
    while i < raws.len()
        invariant
            i <= raws@.len(),
            collected(raws@.take(i as int)) == Ok::<Seq<FileEntryView>, Seq<char>>(
                entry_views(found@),
            ),
        decreases raws@.len() - i,
    {
        assert(raws@.take(i + 1).drop_last() =~= raws@.take(i as int));
        assert(raws@.take(i + 1).last() == raws@[i as int]);
        if let Some(e) = collect_one(&raws[i], &mut found) {
            proof {
                lemma_error_stays(raws@, i + 1);
            }
            return Err(e);
        }
        i = i + 1;
    }
    assert(raws@.take(i as int) =~= raws@);
    Ok(sort_entries(found))
}

/// Adds what one raw item gives to `found`, or returns its error.
fn collect_one(raw: &RawEntry, found: &mut Vec<FileEntry>) -> (r: Option<String>)
    ensures
        match collect_step(entry_views(old(found)@), *raw) {
            Ok(es) => r is None && entry_views(final(found)@) == es,
            Err(e) => r matches Some(s) && s@ == e,
        },
{
    match raw {
        RawEntry::Unreadable(e) => Some(e.clone()),
        RawEntry::Found { path, name, metadata } => {
            let bytes = name.as_str().as_bytes();
            if bytes.len() > 0 && bytes[0] == 46 {
                assert(bytes@.subrange(0, 1) =~= seq![46u8]);
                return None;
            }
            assert(!has_prefix(bytes@, seq![46u8])) by {
                if bytes@.len() > 0 {
                    assert(bytes@.subrange(0, 1)[0] == bytes@[0]);
                }
            }
            match metadata {
                Err(e) => Some(e.clone()),
                Ok(m) => {
                    let ghost before = entry_views(found@);
                    let entry = make_entry(path, name, *m);
                    found.push(entry);
                    assert(entry_views(found@) =~= before.push(entry@));
                    None
                },
            }
        },
    }
}

proof fn lemma_error_stays(raws: Seq<RawEntry>, k: int)
    requires
        0 <= k <= raws.len(),
        collected(raws.take(k)) is Err,
    ensures
        collected(raws) == collected(raws.take(k)),
    decreases raws.len() - k,
{
    if k < raws.len() {
        assert(raws.take(k + 1).drop_last() =~= raws.take(k));
        lemma_error_stays(raws, k + 1);
    } else {
        assert(raws.take(k) =~= raws);
    }
}

} // verus!
