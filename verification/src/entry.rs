//! Directory entries: their kinds, how a name is classified, the order in
//! which a listing is shown, and how a raw listing becomes the sorted list
//! of visible entries.

use std::cmp::Ordering;

use vstd::prelude::*;
use vstd::string::StringSliceAdditionalSpecFns;
use vstd::utf8::encode_utf8;

use crate::path::{extension, extension_exec, lower_extension_is};
use crate::text::{bytes_eq, ends_with, has_suffix, lower, to_ascii_lower};

verus! {

/// How the content area lays out the entries.
#[derive(Clone, Copy, Debug, PartialEq, Eq, Structural)]
pub enum ViewMode {
    List,
    Grid,
}

/// What an entry is, as far as the browser is concerned.
#[derive(Clone, Copy, Debug, PartialEq, Eq, Structural)]
pub enum EntryKind {
    Directory,
    Application,
    Image,
    Archive,
    Document,
    File,
}

impl EntryKind {
    /// The label shown for a kind.
    pub open spec fn label_text(self) -> Seq<char> {
        match self {
            EntryKind::Directory => "Folder"@,
            EntryKind::Application => "Application"@,
            EntryKind::Image => "Image"@,
            EntryKind::Archive => "Archive"@,
            EntryKind::Document => "Document"@,
            EntryKind::File => "File"@,
        }
    }

    /// Folders and application bundles are listed before everything else.
    pub open spec fn is_folder_like(self) -> bool {
        self is Directory || self is Application
    }

    pub fn label(self) -> (r: &'static str)
        ensures
            r@ == self.label_text(),
    {
        match self {
            EntryKind::Directory => "Folder",
            EntryKind::Application => "Application",
            EntryKind::Image => "Image",
            EntryKind::Archive => "Archive",
            EntryKind::Document => "Document",
            EntryKind::File => "File",
        }
    }

    pub fn sorts_as_directory(self) -> (r: bool)
        ensures
            r == self.is_folder_like(),
    {
        match self {
            EntryKind::Directory | EntryKind::Application => true,
            _ => false,
        }
    }
}

/// One entry of a directory listing.
#[derive(Clone, Debug)]
pub struct FileEntry {
    pub path: Vec<u8>,
    pub name: String,
    pub kind: EntryKind,
    pub size: u64,
    pub modified: String,
}

/// The value of a directory entry.
pub struct FileEntryView {
    pub path: Seq<u8>,
    pub name: Seq<char>,
    pub kind: EntryKind,
    pub size: u64,
    pub modified: Seq<char>,
}

impl FileEntryView {
    /// The UTF-8 bytes of the entry's name.
    pub open spec fn name_bytes(self) -> Seq<u8> {
        encode_utf8(self.name)
    }

    pub open spec fn is_directory(self) -> bool {
        self.kind.is_folder_like()
    }
}

impl View for FileEntry {
    type V = FileEntryView;

    open spec fn view(&self) -> FileEntryView {
        FileEntryView {
            path: self.path@,
            name: self.name@,
            kind: self.kind,
            size: self.size,
            modified: self.modified@,
        }
    }
}

/// The values of a sequence of entries.
pub open spec fn entry_views(s: Seq<FileEntry>) -> Seq<FileEntryView> {
    s.map_values(|e: FileEntry| e@)
}

impl FileEntry {
    pub fn is_directory(&self) -> (r: bool)
        ensures
            r == self@.is_directory(),
    {
        self.kind.sorts_as_directory()
    }

    /// A copy of the entry.
    pub fn duplicate(&self) -> (r: FileEntry)
        ensures
            r@ == self@,
    {
        FileEntry {
            path: crate::path::copy_bytes(self.path.as_slice()),
            name: self.name.clone(),
            kind: self.kind,
            size: self.size,
            modified: self.modified.clone(),
        }
    }
}

/// The kind of a file (not a directory) with the given lower-case extension.
pub open spec fn kind_for_extension(e: Seq<u8>) -> EntryKind {
    if e == "png".spec_bytes() || e == "jpg".spec_bytes() || e == "jpeg".spec_bytes() || e
        == "gif".spec_bytes() || e == "bmp".spec_bytes() || e == "webp".spec_bytes() || e
        == "svg".spec_bytes() {
        EntryKind::Image
    } else if e == "zip".spec_bytes() || e == "tar".spec_bytes() || e == "gz".spec_bytes() || e
        == "xz".spec_bytes() || e == "mpkg".spec_bytes() {
        EntryKind::Archive
    } else if e == "txt".spec_bytes() || e == "md".spec_bytes() || e == "toml".spec_bytes() || e
        == "json".spec_bytes() || e == "xml".spec_bytes() || e == "log".spec_bytes() {
        EntryKind::Document
    } else {
        EntryKind::File
    }
}

/// The kind of an entry with the given name: a directory whose name ends in
/// `.app` (in any case) is an application, other directories are folders,
/// and a file is known by its extension.
pub open spec fn kind_of(name: Seq<u8>, is_directory: bool) -> EntryKind {
    if is_directory {
        if has_suffix(lower(name), ".app".spec_bytes()) {
            EntryKind::Application
        } else {
            EntryKind::Directory
        }
    } else {
        match extension(name) {
            Some(e) => kind_for_extension(lower(e)),
            None => kind_for_extension(Seq::empty()),
        }
    }
}

fn kind_for_extension_exec(e: &[u8]) -> (r: EntryKind)
    ensures
        r == kind_for_extension(e@),
{
    if bytes_eq(e, "png".as_bytes()) || bytes_eq(e, "jpg".as_bytes()) || bytes_eq(
        e,
        "jpeg".as_bytes(),
    ) || bytes_eq(e, "gif".as_bytes()) || bytes_eq(e, "bmp".as_bytes()) || bytes_eq(
        e,
        "webp".as_bytes(),
    ) || bytes_eq(e, "svg".as_bytes()) {
        EntryKind::Image
    } else if bytes_eq(e, "zip".as_bytes()) || bytes_eq(e, "tar".as_bytes()) || bytes_eq(
        e,
        "gz".as_bytes(),
    ) || bytes_eq(e, "xz".as_bytes()) || bytes_eq(e, "mpkg".as_bytes()) {
        EntryKind::Archive
    } else if bytes_eq(e, "txt".as_bytes()) || bytes_eq(e, "md".as_bytes()) || bytes_eq(
        e,
        "toml".as_bytes(),
    ) || bytes_eq(e, "json".as_bytes()) || bytes_eq(e, "xml".as_bytes()) || bytes_eq(
        e,
        "log".as_bytes(),
    ) {
        EntryKind::Document
    } else {
        EntryKind::File
    }
}

/// The kind of an entry from its name and whether it is a directory.
pub fn classify(name: &str, is_directory: bool) -> (r: EntryKind)
    ensures
        r == kind_of(name.spec_bytes(), is_directory),
{
    let bytes = name.as_bytes();
    if is_directory {
        let lowered = to_ascii_lower(bytes);
        if ends_with(lowered.as_slice(), ".app".as_bytes()) {
            EntryKind::Application
        } else {
            EntryKind::Directory
        }
    } else {
        match extension_exec(bytes) {
            Some(e) => {
                let lowered = to_ascii_lower(e.as_slice());
                kind_for_extension_exec(lowered.as_slice())
            },
            None => {
                let empty: Vec<u8> = Vec::new();
                kind_for_extension_exec(empty.as_slice())
            },
        }
    }
}

/// Lexicographic comparison of byte strings, as `str` and `[u8]` compare:
/// -1 when `a` comes first, 1 when `b` does, 0 when they are equal.
pub open spec fn lex_rank(a: Seq<u8>, b: Seq<u8>) -> int
    decreases a.len(),
{
    if a.len() == 0 && b.len() == 0 {
        0
    } else if a.len() == 0 {
        -1
    } else if b.len() == 0 {
        1
    } else if a[0] < b[0] {
        -1
    } else if a[0] > b[0] {
        1
    } else {
        lex_rank(a.drop_first(), b.drop_first())
    }
}

/// [`lex_rank`] as an ordering.
pub open spec fn lex_order(a: Seq<u8>, b: Seq<u8>) -> Ordering {
    let r = lex_rank(a, b);
    if r < 0 {
        Ordering::Less
    } else if r > 0 {
        Ordering::Greater
    } else {
        Ordering::Equal
    }
}

/// The listing order: folders and applications first, then by name with
/// ASCII case ignored.
pub open spec fn entry_order(l: FileEntryView, r: FileEntryView) -> Ordering {
    if l.is_directory() && !r.is_directory() {
        Ordering::Less
    } else if !l.is_directory() && r.is_directory() {
        Ordering::Greater
    } else {
        lex_order(lower(l.name_bytes()), lower(r.name_bytes()))
    }
}

/// Compares two byte strings lexicographically: -1, 0 or 1 as in
/// [`lex_rank`].
pub fn lex_rank_exec(a: &[u8], b: &[u8]) -> (r: i8)
    ensures
        r == lex_rank(a@, b@),
{
    let mut i: usize = 0;
    assert(a@.skip(0) =~= a@);
    assert(b@.skip(0) =~= b@);
    loop
        invariant
            i <= a@.len(),
            i <= b@.len(),
            lex_rank(a@, b@) == lex_rank(a@.skip(i as int), b@.skip(i as int)),
        decreases a@.len() - i,
    {
        if i == a.len() && i == b.len() {
            return 0;
        }
        if i == a.len() {
            return -1;
        }
        if i == b.len() {
            return 1;
        }
        assert(a@.skip(i as int)[0] == a@[i as int]);
        assert(b@.skip(i as int)[0] == b@[i as int]);
        if a[i] < b[i] {
            return -1;
        }
        if a[i] > b[i] {
            return 1;
        }
        assert(a@.skip(i as int).drop_first() =~= a@.skip(i + 1));
        assert(b@.skip(i as int).drop_first() =~= b@.skip(i + 1));
        i = i + 1;
    }
}

/// Compares two entries in listing order.
pub fn compare_entries(left: &FileEntry, right: &FileEntry) -> (r: Ordering)
    ensures
        r == entry_order(left@, right@),
{
    let l = left.kind.sorts_as_directory();
    let r = right.kind.sorts_as_directory();
    if l && !r {
        Ordering::Less
    } else if !l && r {
        Ordering::Greater
    } else {
        let a = to_ascii_lower(left.name.as_str().as_bytes());
        let b = to_ascii_lower(right.name.as_str().as_bytes());
        let rank = lex_rank_exec(a.as_slice(), b.as_slice());
        if rank < 0 {
            Ordering::Less
        } else if rank > 0 {
            Ordering::Greater
        } else {
            Ordering::Equal
        }
    }
}

/// `a` is listed after `b`.
pub open spec fn after(a: FileEntryView, b: FileEntryView) -> bool {
    entry_order(a, b) is Greater
}

/// Where a stable insertion puts `x` into the listing `s`: behind every
/// entry that is not listed after it, counting from the end.
pub open spec fn insert_position(s: Seq<FileEntryView>, x: FileEntryView) -> int
    decreases s.len(),
{
    if s.len() == 0 || !after(s.last(), x) {
        s.len() as int
    } else {
        insert_position(s.drop_last(), x)
    }
}

/// `s` with `x` inserted at its stable position.
pub open spec fn insert_sorted(s: Seq<FileEntryView>, x: FileEntryView) -> Seq<FileEntryView> {
    let p = insert_position(s, x);
    s.take(p).push(x) + s.skip(p)
}

/// The stable sort of a listing in listing order: each entry in turn is
/// inserted behind the entries before it that it does not precede.
pub open spec fn sorted_listing(s: Seq<FileEntryView>) -> Seq<FileEntryView>
    decreases s.len(),
{
    if s.len() == 0 {
        Seq::empty()
    } else {
        insert_sorted(sorted_listing(s.drop_last()), s.last())
    }
}

/// Whether `a` is listed after `b`.
pub fn goes_after(a: &FileEntry, b: &FileEntry) -> (r: bool)
    ensures
        r == after(a@, b@),
{
    match compare_entries(a, b) {
        Ordering::Greater => true,
        _ => false,
    }
}

proof fn lemma_insert_position_bounds(s: Seq<FileEntryView>, x: FileEntryView)
    ensures
        0 <= insert_position(s, x) <= s.len(),
    decreases s.len(),
{
    if s.len() > 0 && after(s.last(), x) {
        lemma_insert_position_bounds(s.drop_last(), x);
    }
}

/// Sorts a listing stably in listing order.
pub fn sort_entries(entries: Vec<FileEntry>) -> (r: Vec<FileEntry>)
    ensures
        entry_views(r@) == sorted_listing(entry_views(entries@)),
{
    let ghost orig = entry_views(entries@);
    let _n = entries.len();
    let mut rest = entries;
    let mut out: Vec<FileEntry> = Vec::new();
    let mut k: usize = 0;
    assert(orig.take(0) =~= Seq::<FileEntryView>::empty());
    assert(entry_views(out@) =~= Seq::<FileEntryView>::empty());
    assert(orig.skip(0) =~= orig);
    while rest.len() > 0
        invariant
            k <= orig.len(),
            orig.len() <= usize::MAX,
            rest@.len() + k == orig.len(),
            entry_views(rest@) == orig.skip(k as int),
            entry_views(out@) == sorted_listing(orig.take(k as int)),
        decreases rest@.len(),
    {
        let ghost rb = rest@;
        let x = rest.remove(0);
        assert(entry_views(rb)[0] == x@);
        assert(rest@ =~= rb.subrange(1, rb.len() as int));
        assert forall|i: int| 0 <= i < rest@.len() implies rest@[i]@ == orig[k + 1 + i] by {
            assert(entry_views(rb)[i + 1] == orig.skip(k as int)[i + 1]);
        }
        assert(entry_views(rest@) =~= orig.skip(k + 1));
        let ghost before = entry_views(out@);
        let mut j: usize = out.len();
        assert(before.take(j as int) =~= before);
        while j > 0 && goes_after(&out[j - 1], &x)
            invariant
                j <= out@.len(),
                entry_views(out@) == before,
                insert_position(before, x@) == insert_position(before.take(j as int), x@),
            decreases j,
        {
            assert(before.take(j as int).drop_last() =~= before.take(j - 1));
            assert(before.take(j as int).last() == out@[j - 1]@);
            j = j - 1;
        }
        proof {
            if j > 0 {
                assert(before.take(j as int).last() == out@[j - 1]@);
            }
        }
        assert(insert_position(before, x@) == j);
        let ghost xv = x@;
        out.insert(j, x);
        assert(orig.take(k + 1).drop_last() =~= orig.take(k as int));
        assert(orig.take(k + 1).last() == xv);
        assert(entry_views(out@) =~= insert_sorted(before, xv));
        k = k + 1;
    }
    assert(orig.take(k as int) =~= orig);
    out
}

proof fn lemma_lex_rank_antisymmetric(a: Seq<u8>, b: Seq<u8>)
    ensures
        lex_rank(a, b) == -lex_rank(b, a),
        -1 <= lex_rank(a, b) <= 1,
    decreases a.len(),
{
    if a.len() > 0 && b.len() > 0 && a[0] == b[0] {
        lemma_lex_rank_antisymmetric(a.drop_first(), b.drop_first());
    }
}

proof fn lemma_after_antisymmetric(a: FileEntryView, b: FileEntryView)
    ensures
        after(a, b) ==> !after(b, a),
{
    lemma_lex_rank_antisymmetric(lower(a.name_bytes()), lower(b.name_bytes()));
}

proof fn lemma_insert_position(s: Seq<FileEntryView>, x: FileEntryView)
    ensures
        0 <= insert_position(s, x) <= s.len(),
        forall|k: int| insert_position(s, x) <= k < s.len() ==> after(#[trigger] s[k], x),
        insert_position(s, x) > 0 ==> !after(s[insert_position(s, x) - 1], x),
    decreases s.len(),
{
    if s.len() > 0 && after(s.last(), x) {
        let t = s.drop_last();
        lemma_insert_position(t, x);
        assert forall|k: int| insert_position(s, x) <= k < s.len() implies after(#[trigger] s[k], x) by {
            if k < s.len() - 1 {
                assert(s[k] == t[k]);
            }
        }
        if insert_position(s, x) > 0 {
            assert(s[insert_position(s, x) - 1] == t[insert_position(t, x) - 1]);
        }
    }
}

/// A listing in listing order: no entry is listed after the one that
/// follows it.
pub open spec fn in_listing_order(s: Seq<FileEntryView>) -> bool {
    forall|i: int| 0 <= i < s.len() - 1 ==> !after(#[trigger] s[i], s[i + 1])
}

proof fn lemma_insert_sorted(s: Seq<FileEntryView>, x: FileEntryView)
    requires
        in_listing_order(s),
    ensures
        in_listing_order(insert_sorted(s, x)),
        insert_sorted(s, x).to_multiset() == s.to_multiset().insert(x),
{
    lemma_insert_position(s, x);
    let p = insert_position(s, x);
    let t = insert_sorted(s, x);
    assert(t =~= s.insert(p, x));
    vstd::seq_lib::to_multiset_insert(s, p, x);
    assert forall|i: int| 0 <= i < t.len() - 1 implies !after(#[trigger] t[i], t[i + 1]) by {
        if i < p - 1 {
            assert(t[i] == s[i] && t[i + 1] == s[i + 1]);
        } else if i == p - 1 {
            assert(t[i] == s[p - 1] && t[i + 1] == x);
        } else if i == p {
            assert(t[i] == x && t[i + 1] == s[p]);
            lemma_after_antisymmetric(s[p], x);
        } else {
            assert(t[i] == s[i - 1] && t[i + 1] == s[i]);
        }
    }
}

/// A sorted listing is in listing order and holds the same entries as the
/// listing it was made from.
pub proof fn lemma_sorted_listing(s: Seq<FileEntryView>)
    ensures
        in_listing_order(sorted_listing(s)),
        sorted_listing(s).to_multiset() == s.to_multiset(),
    decreases s.len(),
{
    if s.len() == 0 {
        assert(sorted_listing(s) =~= s);
    } else {
        lemma_sorted_listing(s.drop_last());
        lemma_insert_sorted(sorted_listing(s.drop_last()), s.last());
        vstd::seq_lib::to_multiset_build(s.drop_last(), s.last());
        assert(s.drop_last().push(s.last()) =~= s);
    }
}

/// In a listing in listing order, folders and applications come before
/// every other entry.
pub proof fn lemma_folders_first(s: Seq<FileEntryView>, i: int, j: int)
    requires
        in_listing_order(s),
        0 <= i < j < s.len(),
        s[j].is_directory(),
    ensures
        s[i].is_directory(),
    decreases j - i,
{
    if j - 1 > i {
        assert(!after(s[j - 1], s[j]));
        lemma_folders_first(s, i, j - 1);
    } else {
        assert(!after(s[i], s[i + 1]));
    }
}

proof fn lemma_kind_words()
    ensures
        "png".spec_bytes() == seq![112u8, 110u8, 103u8],
        "jpg".spec_bytes() == seq![106u8, 112u8, 103u8],
        "jpeg".spec_bytes() == seq![106u8, 112u8, 101u8, 103u8],
        "gif".spec_bytes() == seq![103u8, 105u8, 102u8],
        "bmp".spec_bytes() == seq![98u8, 109u8, 112u8],
        "webp".spec_bytes() == seq![119u8, 101u8, 98u8, 112u8],
        "svg".spec_bytes() == seq![115u8, 118u8, 103u8],
        "zip".spec_bytes() == seq![122u8, 105u8, 112u8],
        "tar".spec_bytes() == seq![116u8, 97u8, 114u8],
        "gz".spec_bytes() == seq![103u8, 122u8],
        "xz".spec_bytes() == seq![120u8, 122u8],
        "mpkg".spec_bytes() == seq![109u8, 112u8, 107u8, 103u8],
        "txt".spec_bytes() == seq![116u8, 120u8, 116u8],
        "md".spec_bytes() == seq![109u8, 100u8],
        "toml".spec_bytes() == seq![116u8, 111u8, 109u8, 108u8],
        "json".spec_bytes() == seq![106u8, 115u8, 111u8, 110u8],
        "xml".spec_bytes() == seq![120u8, 109u8, 108u8],
        "log".spec_bytes() == seq![108u8, 111u8, 103u8],
        ".app".spec_bytes() == seq![46u8, 97u8, 112u8, 112u8],
{
    broadcast use vstd::string::is_ascii_spec_bytes;
    reveal_strlit("png");
    assert(vstd::string::is_ascii("png"));
    assert("png".spec_bytes() =~= seq![112u8, 110u8, 103u8]);
    reveal_strlit("jpg");
    assert(vstd::string::is_ascii("jpg"));
    assert("jpg".spec_bytes() =~= seq![106u8, 112u8, 103u8]);
    reveal_strlit("jpeg");
    assert(vstd::string::is_ascii("jpeg"));
    assert("jpeg".spec_bytes() =~= seq![106u8, 112u8, 101u8, 103u8]);
    reveal_strlit("gif");
    assert(vstd::string::is_ascii("gif"));
    assert("gif".spec_bytes() =~= seq![103u8, 105u8, 102u8]);
    reveal_strlit("bmp");
    assert(vstd::string::is_ascii("bmp"));
    assert("bmp".spec_bytes() =~= seq![98u8, 109u8, 112u8]);
    reveal_strlit("webp");
    assert(vstd::string::is_ascii("webp"));
    assert("webp".spec_bytes() =~= seq![119u8, 101u8, 98u8, 112u8]);
    reveal_strlit("svg");
    assert(vstd::string::is_ascii("svg"));
    assert("svg".spec_bytes() =~= seq![115u8, 118u8, 103u8]);
    reveal_strlit("zip");
    assert(vstd::string::is_ascii("zip"));
    assert("zip".spec_bytes() =~= seq![122u8, 105u8, 112u8]);
    reveal_strlit("tar");
    assert(vstd::string::is_ascii("tar"));
    assert("tar".spec_bytes() =~= seq![116u8, 97u8, 114u8]);
    reveal_strlit("gz");
    assert(vstd::string::is_ascii("gz"));
    assert("gz".spec_bytes() =~= seq![103u8, 122u8]);
    reveal_strlit("xz");
    assert(vstd::string::is_ascii("xz"));
    assert("xz".spec_bytes() =~= seq![120u8, 122u8]);
    reveal_strlit("mpkg");
    assert(vstd::string::is_ascii("mpkg"));
    assert("mpkg".spec_bytes() =~= seq![109u8, 112u8, 107u8, 103u8]);
    reveal_strlit("txt");
    assert(vstd::string::is_ascii("txt"));
    assert("txt".spec_bytes() =~= seq![116u8, 120u8, 116u8]);
    reveal_strlit("md");
    assert(vstd::string::is_ascii("md"));
    assert("md".spec_bytes() =~= seq![109u8, 100u8]);
    reveal_strlit("toml");
    assert(vstd::string::is_ascii("toml"));
    assert("toml".spec_bytes() =~= seq![116u8, 111u8, 109u8, 108u8]);
    reveal_strlit("json");
    assert(vstd::string::is_ascii("json"));
    assert("json".spec_bytes() =~= seq![106u8, 115u8, 111u8, 110u8]);
    reveal_strlit("xml");
    assert(vstd::string::is_ascii("xml"));
    assert("xml".spec_bytes() =~= seq![120u8, 109u8, 108u8]);
    reveal_strlit("log");
    assert(vstd::string::is_ascii("log"));
    assert("log".spec_bytes() =~= seq![108u8, 111u8, 103u8]);
    reveal_strlit(".app");
    assert(vstd::string::is_ascii(".app"));
    assert(".app".spec_bytes() =~= seq![46u8, 97u8, 112u8, 112u8]);
}

/// The kind of every entry, read off its name: a folder whose name ends in
/// `.app`, in any case, is an application and any other folder a folder;
/// a file is an image, an archive or a document by its extension, in any
/// case, and a plain file otherwise.
pub proof fn lemma_kinds_by_name(name: Seq<u8>)
    ensures
        has_suffix(lower(name), seq![46u8, 97u8, 112u8, 112u8]) ==> kind_of(name, true) == EntryKind::Application,
        !has_suffix(lower(name), seq![46u8, 97u8, 112u8, 112u8]) ==> kind_of(name, true) == EntryKind::Directory,
        lower_extension_is(name, seq![112u8, 110u8, 103u8]) || lower_extension_is(name, seq![106u8, 112u8, 103u8]) || lower_extension_is(name, seq![106u8, 112u8, 101u8, 103u8]) || lower_extension_is(name, seq![103u8, 105u8, 102u8]) || lower_extension_is(name, seq![98u8, 109u8, 112u8]) || lower_extension_is(name, seq![119u8, 101u8, 98u8, 112u8]) || lower_extension_is(name, seq![115u8, 118u8, 103u8]) ==> kind_of(name, false) == EntryKind::Image,
        lower_extension_is(name, seq![122u8, 105u8, 112u8]) || lower_extension_is(name, seq![116u8, 97u8, 114u8]) || lower_extension_is(name, seq![103u8, 122u8]) || lower_extension_is(name, seq![120u8, 122u8]) || lower_extension_is(name, seq![109u8, 112u8, 107u8, 103u8]) ==> kind_of(name, false) == EntryKind::Archive,
        lower_extension_is(name, seq![116u8, 120u8, 116u8]) || lower_extension_is(name, seq![109u8, 100u8]) || lower_extension_is(name, seq![116u8, 111u8, 109u8, 108u8]) || lower_extension_is(name, seq![106u8, 115u8, 111u8, 110u8]) || lower_extension_is(name, seq![120u8, 109u8, 108u8]) || lower_extension_is(name, seq![108u8, 111u8, 103u8]) ==> kind_of(name, false) == EntryKind::Document,
        !(lower_extension_is(name, seq![112u8, 110u8, 103u8]) || lower_extension_is(name, seq![106u8, 112u8, 103u8]) || lower_extension_is(name, seq![106u8, 112u8, 101u8, 103u8]) || lower_extension_is(name, seq![103u8, 105u8, 102u8]) || lower_extension_is(name, seq![98u8, 109u8, 112u8]) || lower_extension_is(name, seq![119u8, 101u8, 98u8, 112u8]) || lower_extension_is(name, seq![115u8, 118u8, 103u8]) || lower_extension_is(name, seq![122u8, 105u8, 112u8]) || lower_extension_is(name, seq![116u8, 97u8, 114u8]) || lower_extension_is(name, seq![103u8, 122u8]) || lower_extension_is(name, seq![120u8, 122u8]) || lower_extension_is(name, seq![109u8, 112u8, 107u8, 103u8]) || lower_extension_is(name, seq![116u8, 120u8, 116u8]) || lower_extension_is(name, seq![109u8, 100u8]) || lower_extension_is(name, seq![116u8, 111u8, 109u8, 108u8]) || lower_extension_is(name, seq![106u8, 115u8, 111u8, 110u8]) || lower_extension_is(name, seq![120u8, 109u8, 108u8]) || lower_extension_is(name, seq![108u8, 111u8, 103u8])) ==> kind_of(name, false) == EntryKind::File,
{
    lemma_kind_words();
    assert(lower(Seq::<u8>::empty()) =~= Seq::<u8>::empty());
}

} // verus!
