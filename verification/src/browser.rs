//! The browsing state: the current directory and its entries, the
//! back/forward history, the search text, the selection, the view mode and
//! the last error.
//!
//! Reading the file system is the caller's part: each operation that needs
//! a directory listing takes it as an argument, already read, as the
//! entries or the text of the error that reading stopped with.

use vstd::prelude::*;
use vstd::string::StringSliceAdditionalSpecFns;
use vstd::utf8::{encode_scalar, encode_utf8};

use crate::entry::{entry_views, EntryKind, FileEntry, FileEntryView, ViewMode};
use crate::format::{decimal, lemma_decimal_injective, push_decimal};
use crate::path::{
    byte_vals, copy_bytes, is_child_of, is_child_of_exec, join, join_exec,
    normalize_path, normalized, path_components, parent_components, render, render_exec,
    same_path, same_path_exec, views, walk, Component, ComponentView,
};
use crate::strings::{lossy_string, lossy_text, pop_char, push_char};
use crate::text::{contains_byte, contains_bytes, has_infix, lower, occurs_at, to_ascii_lower};

verus! {

/// A directory listing as read by the caller: the entries, or the text of
/// the error that reading stopped with.
pub type Listing = Result<Vec<FileEntry>, String>;

/// The value of a listing.
pub open spec fn listing_view(l: Listing) -> Result<Seq<FileEntryView>, Seq<char>> {
    match l {
        Ok(es) => Ok(entry_views(es@)),
        Err(e) => Err(e@),
    }
}

/// The error shown when a directory cannot be opened.
pub open spec fn cannot_open_text(path: Seq<u8>) -> Seq<char> {
    "Cannot open "@ + lossy_text(path)
}

/// The error shown when the current directory cannot be read.
pub open spec fn cannot_read_text(path: Seq<u8>, error: Seq<char>) -> Seq<char> {
    "Cannot read "@ + lossy_text(path) + ": "@ + error
}

/// The error shown when a file operation fails.
pub open spec fn operation_error_text(operation: Seq<char>, path: Seq<u8>, error: Seq<char>) -> Seq<
    char,
> {
    "Cannot "@ + operation + " "@ + lossy_text(path) + ": "@ + error
}

/// The error shown when a name cannot be given to an entry.
pub open spec fn invalid_name_text() -> Seq<char> {
    "The name is not valid"@
}

/// The error shown when an entry cannot be renamed over another.
pub open spec fn already_exists_text(path: Seq<u8>) -> Seq<char> {
    lossy_text(path) + " already exists"@
}

/// The error shown when the selection is not in the current directory.
pub open spec fn cannot_delete_text() -> Seq<char> {
    "The selected item cannot be deleted"@
}

/// A name that an entry may be given: not empty, not `.` or `..`, without
/// `/` or NUL.
pub open spec fn valid_name(name: Seq<u8>) -> bool {
    &&& name.len() > 0
    &&& name != seq![46u8]
    &&& name != seq![46u8, 46u8]
    &&& !name.contains(47u8)
    &&& !name.contains(0u8)
}

/// Whether `name` may be given to an entry.
pub fn valid_entry_name(name: &str) -> (r: bool)
    ensures
        r == valid_name(name.spec_bytes()),
{
    let b = name.as_bytes();
    if b.len() == 0 {
        return false;
    }
    if b.len() == 1 && b[0] == 46 {
        assert(b@ =~= seq![46u8]);
        return false;
    }
    if b.len() == 2 && b[0] == 46 && b[1] == 46 {
        assert(b@ =~= seq![46u8, 46u8]);
        return false;
    }
    assert(b@ != seq![46u8]);
    assert(b@ != seq![46u8, 46u8]);
    !contains_byte(b, 47) && !contains_byte(b, 0)
}

/// The entries whose lower-cased name contains `query`, in order.
pub open spec fn matching(es: Seq<FileEntryView>, query: Seq<u8>) -> Seq<FileEntryView>
    decreases es.len(),
{
    if es.len() == 0 {
        Seq::empty()
    } else {
        let r = matching(es.drop_last(), query);
        if has_infix(lower(es.last().name_bytes()), query) {
            r.push(es.last())
        } else {
            r
        }
    }
}

/// The entries shown for a search text: all of them for an empty search,
/// otherwise those whose name contains the search text, with ASCII case
/// ignored.
pub open spec fn visible(es: Seq<FileEntryView>, search: Seq<char>) -> Seq<FileEntryView> {
    if search.len() == 0 {
        es
    } else {
        matching(es, lower(encode_utf8(search)))
    }
}

/// The index of the first entry whose path is the same path as `p`.
pub open spec fn position_of(es: Seq<FileEntryView>, p: Seq<u8>) -> Option<int>
    decreases es.len(),
{
    if es.len() == 0 {
        None
    } else if same_path(es[0].path, p) {
        Some(0)
    } else {
        match position_of(es.drop_first(), p) {
            Some(i) => Some(i + 1),
            None => None,
        }
    }
}

/// The index that moving the selection by `offset` lands on among `len`
/// entries, from the current index if there is one; without one, a move
/// backwards lands on the last entry and any other on the first.
pub open spec fn relative_index(len: int, current: Option<int>, offset: int) -> int {
    match current {
        Some(i) => if i + offset < 0 {
            0
        } else if i + offset > len - 1 {
            len - 1
        } else {
            i + offset
        },
        None => if offset < 0 {
            len - 1
        } else {
            0
        },
    }
}

/// The directory that going up from `dir` opens: the normalized path of
/// its parent, when it has one.
pub open spec fn up_path(dir: Seq<u8>) -> Option<Seq<u8>> {
    match parent_components(dir) {
        Some(cs) => Some(render(walk(cs))),
        None => None,
    }
}

/// The name of the `suffix`-th candidate for a new folder.
pub open spec fn folder_name(suffix: nat) -> Seq<char> {
    if suffix == 1 {
        "New Folder"@
    } else {
        "New Folder"@ + seq![' '] + decimal(suffix)
    }
}

/// Every candidate suffix names a different folder, so trying the
/// suffixes in turn tries a new name each time.
pub proof fn lemma_folder_names_distinct(a: nat, b: nat)
    requires
        a != b,
    ensures
        folder_name(a) != folder_name(b),
{
    let base = "New Folder"@;
    if a != 1 && b != 1 {
        if folder_name(a) == folder_name(b) {
            assert(folder_name(a).skip(base.len() + 1int) =~= decimal(a));
            assert(folder_name(b).skip(base.len() + 1int) =~= decimal(b));
            lemma_decimal_injective(a, b);
        }
    } else if a == 1 {
        assert(folder_name(b).len() > base.len());
    } else {
        assert(folder_name(a).len() > base.len());
    }
}

/// The value of the browsing state.
pub struct BrowserView {
    pub current_dir: Seq<u8>,
    pub entries: Seq<FileEntryView>,
    pub history: Seq<Seq<u8>>,
    pub history_index: int,
    pub search: Seq<char>,
    pub selected: Option<Seq<u8>>,
    pub view_mode: ViewMode,
    pub error: Option<Seq<char>>,
}

impl BrowserView {
    /// The history is never empty, its index is in range, and the current
    /// directory is the one the index points at.
    pub open spec fn wf(self) -> bool {
        &&& self.history.len() > 0
        &&& 0 <= self.history_index < self.history.len()
        &&& self.history[self.history_index] == self.current_dir
    }

    /// The entries shown for the current search.
    pub open spec fn visible_entries(self) -> Seq<FileEntryView> {
        visible(self.entries, self.search)
    }

    /// The index of the selected entry among the visible ones, if it is
    /// shown.
    pub open spec fn selection_index(self) -> Option<int> {
        match self.selected {
            Some(p) => position_of(self.visible_entries(), p),
            None => None,
        }
    }

    /// The state after opening `path` with `entries`: the search, the
    /// selection and the error are cleared.
    pub open spec fn with_directory(self, path: Seq<u8>, entries: Seq<FileEntryView>) -> BrowserView {
        BrowserView {
            current_dir: path,
            entries: entries,
            search: Seq::empty(),
            selected: None,
            error: None,
            ..self
        }
    }

    /// The state after a successful navigation to the normalized `path`:
    /// the history forward of the current position is dropped and `path`
    /// becomes the newest position.
    pub open spec fn navigated(self, path: Seq<u8>, entries: Seq<FileEntryView>) -> BrowserView {
        let history = self.history.take(self.history_index + 1).push(path);
        BrowserView {
            history: history,
            history_index: history.len() - 1,
            ..self.with_directory(path, entries)
        }
    }

    /// The state after an attempt to open the normalized `path`.
    pub open spec fn after_navigate(self, path: Seq<u8>, listing: Result<Seq<FileEntryView>, Seq<char>>) -> BrowserView {
        match listing {
            Ok(es) => self.navigated(path, es),
            Err(_) => BrowserView { error: Some(cannot_open_text(path)), ..self },
        }
    }

    /// The state after an attempt to open history position `index`.
    pub open spec fn after_load(self, index: int, listing: Result<Seq<FileEntryView>, Seq<char>>) -> BrowserView {
        if index < 0 || index >= self.history.len() {
            self
        } else {
            match listing {
                Ok(es) => BrowserView {
                    history_index: index,
                    ..self.with_directory(self.history[index], es)
                },
                Err(_) => BrowserView { error: Some(cannot_open_text(self.history[index])), ..self },
            }
        }
    }

    /// The state after reloading the current directory, selecting
    /// `selected` when it reads.
    pub open spec fn after_reload_select(
        self,
        listing: Result<Seq<FileEntryView>, Seq<char>>,
        selected: Option<Seq<u8>>,
    ) -> BrowserView {
        match listing {
            Ok(es) => BrowserView { selected: selected, ..self.with_directory(self.current_dir, es) },
            Err(e) => BrowserView {
                entries: Seq::empty(),
                selected: None,
                error: Some(cannot_read_text(self.current_dir, e)),
                ..self
            },
        }
    }

    /// The state after reloading the current directory.
    pub open spec fn after_reload(self, listing: Result<Seq<FileEntryView>, Seq<char>>) -> BrowserView {
        self.after_reload_select(listing, None)
    }

    /// The selection after moving it by `offset` among the visible entries.
    pub open spec fn moved_selection(self, offset: int) -> Option<Seq<u8>> {
        let vis = self.visible_entries();
        if vis.len() == 0 {
            None
        } else {
            let current = match self.selected {
                Some(p) => position_of(vis, p),
                None => None,
            };
            Some(vis[relative_index(vis.len() as int, current, offset)].path)
        }
    }

    /// The directory that opening the selection navigates to: the selected
    /// path, normalized, when the first entry with that path is a folder or
    /// an application.
    pub open spec fn open_target(self) -> Option<Seq<u8>> {
        match self.selected {
            Some(p) => match position_of(self.entries, p) {
                Some(i) => if self.entries[i].is_directory() {
                    Some(normalized(p))
                } else {
                    None
                },
                None => None,
            },
            None => None,
        }
    }
}

/// What renaming the selection comes to before the file system is touched.
#[derive(Debug)]
pub enum RenameStep {
    /// Nothing is renamed; the rename fails.
    Refused,
    /// The new name is the old one; the rename succeeds.
    Unchanged,
    /// `source` is to be moved to `destination`.
    Move { source: Vec<u8>, destination: Vec<u8> },
}

/// The browsing state of the Files application.
#[derive(Debug)]
pub struct Browser {
    current_dir: Vec<u8>,
    entries: Vec<FileEntry>,
    history: Vec<Vec<u8>>,
    history_index: usize,
    search: String,
    selected: Option<Vec<u8>>,
    view_mode: ViewMode,
    error: Option<String>,
}

/// The value of an optional path.
pub open spec fn opt_path(p: Option<Vec<u8>>) -> Option<Seq<u8>> {
    match p {
        Some(v) => Some(v@),
        None => None,
    }
}

/// The value of an optional text.
pub open spec fn opt_text(t: Option<String>) -> Option<Seq<char>> {
    match t {
        Some(s) => Some(s@),
        None => None,
    }
}

impl View for Browser {
    type V = BrowserView;

    open spec fn view(&self) -> BrowserView {
        self.model()
    }
}

fn cannot_open(path: &[u8]) -> (r: String)
    ensures
        r@ == cannot_open_text(path@),
{
    let mut s = "Cannot open ".to_owned();
    let p = lossy_string(path);
    s.append(p.as_str());
    s
}

fn cannot_read(path: &[u8], error: &str) -> (r: String)
    ensures
        r@ == cannot_read_text(path@, error@),
{
    let mut s = "Cannot read ".to_owned();
    let p = lossy_string(path);
    s.append(p.as_str());
    s.append(": ");
    s.append(error);
    assert(s@ =~= cannot_read_text(path@, error@));
    s
}

impl Browser {
    /// The value of the state.
    pub closed spec fn model(&self) -> BrowserView {
        BrowserView {
            current_dir: self.current_dir@,
            entries: entry_views(self.entries@),
            history: byte_vals(self.history@),
            history_index: self.history_index as int,
            search: self.search@,
            selected: opt_path(self.selected),
            view_mode: self.view_mode,
            error: opt_text(self.error),
        }
    }

    /// The state is well formed.
    pub open spec fn wf(&self) -> bool {
        self@.wf()
    }

    /// A browser at `path` in grid mode, with `path` as the only history
    /// position, showing `listing` as reloading would.
    pub fn new(path: Vec<u8>, listing: Listing) -> (r: Browser)
        ensures
            r.wf(),
            r@ == (BrowserView {
                current_dir: path@,
                entries: Seq::empty(),
                history: seq![path@],
                history_index: 0,
                search: Seq::empty(),
                selected: None,
                view_mode: ViewMode::Grid,
                error: None,
            }).after_reload(listing_view(listing)),
    {
        let first = copy_bytes(path.as_slice());
        let mut history: Vec<Vec<u8>> = Vec::new();
        history.push(first);
        let mut browser = Browser {
            current_dir: path,
            entries: Vec::new(),
            history: history,
            history_index: 0,
            search: String::new(),
            selected: None,
            view_mode: ViewMode::Grid,
            error: None,
        };
        assert(browser@.history =~= seq![browser@.current_dir]);
        assert(browser@.entries =~= Seq::<FileEntryView>::empty());
        browser.reload(listing);
        browser
    }

    /// The current directory.
    pub fn current_dir(&self) -> (r: &[u8])
        ensures
            r@ == self@.current_dir,
    {
        self.current_dir.as_slice()
    }

    /// The entries shown for the current search, in listing order.
    pub fn entries(&self) -> (r: Vec<&FileEntry>)
        ensures
            r@.map_values(|e: &FileEntry| (*e)@) == self@.visible_entries(),
    {
        let mut r: Vec<&FileEntry> = Vec::new();
        let ghost es = entry_views(self.entries@);
        if self.search.as_str().is_empty() {
            let mut i: usize = 0;
            while i < self.entries.len()
                invariant
                    i <= self.entries@.len(),
                    es == entry_views(self.entries@),
                    r@.map_values(|e: &FileEntry| (*e)@) == es.take(i as int),
                decreases self.entries@.len() - i,
            {
                let ghost before = r@;
                r.push(&self.entries[i]);
                assert(es[i as int] == self.entries@[i as int]@);
                assert(r@ == before.push(&self.entries@[i as int]));
                assert(r@.map_values(|e: &FileEntry| (*e)@) =~= before.map_values(
                    |e: &FileEntry| (*e)@,
                ).push(es[i as int]));
                assert(es.take(i + 1) =~= es.take(i as int).push(es[i as int]));
                i = i + 1;
            }
            assert(es.take(i as int) =~= es);
            return r;
        }
        let query = to_ascii_lower(self.search.as_str().as_bytes());
        let mut i: usize = 0;
        assert(es.take(0) =~= Seq::<FileEntryView>::empty());
        while i < self.entries.len()
            invariant
                i <= self.entries@.len(),
                es == entry_views(self.entries@),
                query@ == lower(encode_utf8(self.search@)),
                r@.map_values(|e: &FileEntry| (*e)@) == matching(es.take(i as int), query@),
            decreases self.entries@.len() - i,
        {
            let entry = &self.entries[i];
            let name = to_ascii_lower(entry.name.as_str().as_bytes());
            assert(es.take(i + 1).drop_last() =~= es.take(i as int));
            assert(es.take(i + 1).last() == entry@);
            if contains_bytes(name.as_slice(), query.as_slice()) {
                r.push(entry);
            }
            i = i + 1;
            assert(r@.map_values(|e: &FileEntry| (*e)@) =~= matching(es.take(i as int), query@));
        }
        assert(es.take(i as int) =~= es);
        r
    }

    /// The selected path.
    pub fn selected(&self) -> (r: Option<&[u8]>)
        ensures
            match r {
                Some(p) => self@.selected == Some(p@),
                None => self@.selected is None,
            },
    {
        match &self.selected {
            Some(p) => Some(p.as_slice()),
            None => None,
        }
    }

    /// Selects `path`.
    pub fn select(&mut self, path: Vec<u8>)
        requires
            old(self).wf(),
        ensures
            final(self).wf(),
            final(self)@ == (BrowserView { selected: Some(path@), ..old(self)@ }),
    {
        self.selected = Some(path);
    }

    /// Clears the selection.
    pub fn clear_selection(&mut self)
        requires
            old(self).wf(),
        ensures
            final(self).wf(),
            final(self)@ == (BrowserView { selected: None, ..old(self)@ }),
    {
        self.selected = None;
    }

    /// The search text.
    pub fn search(&self) -> (r: &str)
        ensures
            r@ == self@.search,
    {
        self.search.as_str()
    }

    /// Appends `text` to the search and clears the selection.
    pub fn push_search(&mut self, text: &str)
        requires
            old(self).wf(),
        ensures
            final(self).wf(),
            final(self)@ == (BrowserView {
                search: old(self)@.search + text@,
                selected: None,
                ..old(self)@
            }),
            is_subsequence(final(self)@.visible_entries(), old(self)@.visible_entries()),
    {
        self.search.append(text);
        self.selected = None;
        proof {
            lemma_longer_search_shows_fewer(old(self)@.entries, old(self)@.search, text@);
        }
    }

    /// Removes the last character of the search and clears the selection.
    pub fn pop_search(&mut self)
        requires
            old(self).wf(),
        ensures
            final(self).wf(),
            final(self)@ == (BrowserView {
                search: if old(self)@.search.len() == 0 {
                    old(self)@.search
                } else {
                    old(self)@.search.drop_last()
                },
                selected: None,
                ..old(self)@
            }),
    {
        pop_char(&mut self.search);
        self.selected = None;
    }

    /// Clears the search and the selection.
    pub fn clear_search(&mut self)
        requires
            old(self).wf(),
        ensures
            final(self).wf(),
            final(self)@ == (BrowserView { search: Seq::empty(), selected: None, ..old(self)@ }),
    {
        self.search = String::new();
        self.selected = None;
    }

    pub fn view_mode(&self) -> (r: ViewMode)
        ensures
            r == self@.view_mode,
    {
        self.view_mode
    }

    pub fn set_view_mode(&mut self, view_mode: ViewMode)
        requires
            old(self).wf(),
        ensures
            final(self).wf(),
            final(self)@ == (BrowserView { view_mode: view_mode, ..old(self)@ }),
    {
        self.view_mode = view_mode;
    }

    /// The last error, if any.
    pub fn error(&self) -> (r: Option<&str>)
        ensures
            match r {
                Some(e) => self@.error == Some(e@),
                None => self@.error is None,
            },
    {
        match &self.error {
            Some(e) => Some(e.as_str()),
            None => None,
        }
    }

    /// Shows `message` as the error.
    pub fn report_error(&mut self, message: String)
        requires
            old(self).wf(),
        ensures
            final(self).wf(),
            final(self)@ == (BrowserView { error: Some(message@), ..old(self)@ }),
    {
        self.error = Some(message);
    }

    /// Clears the error.
    pub fn clear_error(&mut self)
        requires
            old(self).wf(),
        ensures
            final(self).wf(),
            final(self)@ == (BrowserView { error: None, ..old(self)@ }),
    {
        self.error = None;
    }

    pub fn can_go_back(&self) -> (r: bool)
        ensures
            r == (self@.history_index > 0),
    {
        self.history_index > 0
    }

    pub fn can_go_forward(&self) -> (r: bool)
        requires
            self.wf(),
        ensures
            r == (self@.history_index + 1 < self@.history.len()),
    {
        let len = self.history.len();
        self.history_index + 1 < len
    }

    /// Opens `path` with `entries`: the search, the selection and the error
    /// are cleared.
    pub fn set_directory(&mut self, path: Vec<u8>, entries: Vec<FileEntry>)
        ensures
            final(self)@ == old(self)@.with_directory(path@, entry_views(entries@)),
    {
        self.current_dir = path;
        self.entries = entries;
        self.search = String::new();
        self.selected = None;
        self.error = None;
    }

    /// Reloads the current directory from `listing`.
    pub fn reload(&mut self, listing: Listing)
        requires
            old(self).wf(),
        ensures
            final(self).wf(),
            final(self)@ == old(self)@.after_reload(listing_view(listing)),
    {
        self.reload_select(listing, None);
    }

    /// Reloads the current directory from `listing` and selects `selected`
    /// when it reads; the search is cleared then.
    pub fn reload_select(&mut self, listing: Listing, selected: Option<Vec<u8>>)
        requires
            old(self).wf(),
        ensures
            final(self).wf(),
            final(self)@ == old(self)@.after_reload_select(listing_view(listing), opt_path(selected)),
    {
        match listing {
            Ok(entries) => {
                let dir = copy_bytes(self.current_dir.as_slice());
                self.set_directory(dir, entries);
                self.selected = selected;
            },
            Err(error) => {
                self.entries = Vec::new();
                self.selected = None;
                self.error = Some(cannot_read(self.current_dir.as_slice(), error.as_str()));
                assert(self@.entries =~= Seq::<FileEntryView>::empty());
            },
        }
    }

    /// Shows that `operation` on `path` failed with `error`.
    pub fn set_operation_error(&mut self, operation: &str, path: &[u8], error: &str)
        requires
            old(self).wf(),
        ensures
            final(self).wf(),
            final(self)@ == (BrowserView {
                error: Some(operation_error_text(operation@, path@, error@)),
                ..old(self)@
            }),
    {
        let mut s = "Cannot ".to_owned();
        s.append(operation);
        s.append(" ");
        let p = lossy_string(path);
        s.append(p.as_str());
        s.append(": ");
        s.append(error);
        assert(s@ =~= operation_error_text(operation@, path@, error@));
        self.error = Some(s);
    }

    /// Goes to the normalized `path`, read as `listing`.
    fn open_normalized(&mut self, path: Vec<u8>, listing: Listing) -> (r: bool)
        requires
            old(self).wf(),
        ensures
            final(self).wf(),
            final(self)@ == old(self)@.after_navigate(path@, listing_view(listing)),
            r == listing is Ok,
    {
        match listing {
            Err(_) => {
                self.error = Some(cannot_open(path.as_slice()));
                false
            },
            Ok(entries) => {
                let ghost before = self@;
                let len = self.history.len();
                assert(self.history_index < len);
                self.history.truncate(self.history_index + 1);
                let entry = copy_bytes(path.as_slice());
                self.history.push(entry);
                self.history_index = self.history.len() - 1;
                self.set_directory(path, entries);
                assert(self@.history =~= before.history.take(before.history_index + 1).push(
                    self@.current_dir,
                ));
                true
            },
        }
    }

    /// Goes to `path`, normalized, whose listing the caller read as
    /// `listing`: on success the forward history is replaced by it; on
    /// failure only the error changes.
    pub fn navigate(&mut self, path: &[u8], listing: Listing) -> (r: bool)
        requires
            old(self).wf(),
        ensures
            final(self).wf(),
            final(self)@ == old(self)@.after_navigate(normalized(path@), listing_view(listing)),
            r == listing is Ok,
    {
        let target = normalize_path(path);
        self.open_normalized(target, listing)
    }

    /// The directory that going back opens.
    pub fn back_target(&self) -> (r: Option<&[u8]>)
        requires
            self.wf(),
        ensures
            match r {
                Some(p) => self@.history_index > 0 && p@ == self@.history[self@.history_index - 1],
                None => self@.history_index == 0,
            },
    {
        if self.history_index > 0 {
            Some(self.history[self.history_index - 1].as_slice())
        } else {
            None
        }
    }

    /// The directory that going forward opens.
    pub fn forward_target(&self) -> (r: Option<&[u8]>)
        requires
            self.wf(),
        ensures
            match r {
                Some(p) => self@.history_index + 1 < self@.history.len() && p@
                    == self@.history[self@.history_index + 1],
                None => self@.history_index + 1 >= self@.history.len(),
            },
    {
        let len = self.history.len();
        if self.history_index + 1 < len {
            Some(self.history[self.history_index + 1].as_slice())
        } else {
            None
        }
    }

    /// Opens history position `index`, read as `listing`.
    pub fn load_history(&mut self, index: usize, listing: Listing) -> (r: bool)
        requires
            old(self).wf(),
        ensures
            final(self).wf(),
            final(self)@ == old(self)@.after_load(index as int, listing_view(listing)),
            r == (index < old(self)@.history.len() && listing is Ok),
    {
        if index >= self.history.len() {
            return false;
        }
        let path = copy_bytes(self.history[index].as_slice());
        match listing {
            Err(_) => {
                self.error = Some(cannot_open(path.as_slice()));
                false
            },
            Ok(entries) => {
                self.history_index = index;
                self.set_directory(path, entries);
                true
            },
        }
    }

    /// Goes back one history position, read as `listing`.
    pub fn go_back(&mut self, listing: Listing) -> (r: bool)
        requires
            old(self).wf(),
        ensures
            final(self).wf(),
            old(self)@.history_index == 0 ==> final(self)@ == old(self)@ && !r,
            old(self)@.history_index > 0 ==> final(self)@ == old(self)@.after_load(
                old(self)@.history_index - 1,
                listing_view(listing),
            ) && r == listing is Ok,
    {
        if !self.can_go_back() {
            return false;
        }
        self.load_history(self.history_index - 1, listing)
    }

    /// Goes forward one history position, read as `listing`.
    pub fn go_forward(&mut self, listing: Listing) -> (r: bool)
        requires
            old(self).wf(),
        ensures
            final(self).wf(),
            old(self)@.history_index + 1 >= old(self)@.history.len() ==> final(self)@ == old(self)@
                && !r,
            old(self)@.history_index + 1 < old(self)@.history.len() ==> final(self)@ == old(
                self,
            )@.after_load(old(self)@.history_index + 1, listing_view(listing)) && r
                == listing is Ok,
    {
        if !self.can_go_forward() {
            return false;
        }
        let len = self.history.len();
        let next = self.history_index + 1;
        self.load_history(next, listing)
    }

    /// The directory that going up opens: the normalized parent of the
    /// current directory.
    pub fn up_target(&self) -> (r: Option<Vec<u8>>)
        ensures
            opt_path(r) == up_path(self@.current_dir),
    {
        let cs = path_components(self.current_dir.as_slice());
        let n = cs.len();
        if n == 0 {
            return None;
        }
        if let Component::RootDir = &cs[n - 1] {
            return None;
        }
        let mut stack: Vec<Vec<u8>> = Vec::new();
        let mut i: usize = 0;
        let ghost parent = views(cs@).drop_last();
        assert(parent.subrange(0, 0) =~= Seq::<ComponentView>::empty());
        assert(byte_vals(stack@) =~= Seq::<Seq<u8>>::empty());
        while i < n - 1
            invariant
                n == cs@.len(),
                n > 0,
                parent == views(cs@).drop_last(),
                i <= n - 1,
                byte_vals(stack@) == walk(parent.subrange(0, i as int)),
            decreases n - 1 - i,
        {
            assert(parent.subrange(0, i + 1).drop_last() =~= parent.subrange(0, i as int));
            assert(parent.subrange(0, i + 1).last() == cs@[i as int]@);
            crate::path::walk_one(&mut stack, &cs[i]);
            i = i + 1;
        }
        assert(parent.subrange(0, n - 1) =~= parent);
        Some(render_exec(&stack))
    }

    /// Goes up to the parent of the current directory, read as `listing`.
    pub fn go_up(&mut self, listing: Listing) -> (r: bool)
        requires
            old(self).wf(),
        ensures
            final(self).wf(),
            up_path(old(self)@.current_dir) is None ==> final(self)@ == old(self)@ && !r,
            up_path(old(self)@.current_dir) matches Some(p) ==> final(self)@ == old(
                self,
            )@.after_navigate(p, listing_view(listing)) && r == listing is Ok,
    {
        match self.up_target() {
            None => false,
            Some(parent) => self.open_normalized(parent, listing),
        }
    }
}

proof fn lemma_position_of(es: Seq<FileEntryView>, p: Seq<u8>)
    ensures
        match position_of(es, p) {
            Some(i) => 0 <= i < es.len() && same_path(es[i].path, p) && forall|j: int|
                0 <= j < i ==> !same_path(#[trigger] es[j].path, p),
            None => forall|j: int| 0 <= j < es.len() ==> !same_path(#[trigger] es[j].path, p),
        },
    decreases es.len(),
{
    if es.len() > 0 && !same_path(es[0].path, p) {
        let rest = es.drop_first();
        lemma_position_of(rest, p);
        match position_of(rest, p) {
            Some(i) => {
                assert(rest[i] == es[i + 1]);
                assert forall|j: int| 0 <= j < i + 1 implies !same_path(#[trigger] es[j].path, p) by {
                    if j > 0 {
                        assert(es[j] == rest[j - 1]);
                    }
                }
            },
            None => {
                assert forall|j: int| 0 <= j < es.len() implies !same_path(
                    #[trigger] es[j].path,
                    p,
                ) by {
                    if j > 0 {
                        assert(es[j] == rest[j - 1]);
                    }
                }
            },
        }
    }
}

/// The index of the first entry whose path is the same path as `p`.
fn position_in(es: &Vec<&FileEntry>, p: &[u8]) -> (r: Option<usize>)
    ensures
        r matches Some(i) ==> position_of(es@.map_values(|e: &FileEntry| (*e)@), p@) == Some(
            i as int,
        ) && i < es@.len(),
        r is None ==> position_of(es@.map_values(|e: &FileEntry| (*e)@), p@) is None,
{
    let ghost vs = es@.map_values(|e: &FileEntry| (*e)@);
    proof {
        lemma_position_of(vs, p@);
    }
    let mut i: usize = 0;
    while i < es.len()
        invariant
            i <= es@.len(),
            vs == es@.map_values(|e: &FileEntry| (*e)@),
            forall|j: int| 0 <= j < i ==> !same_path(#[trigger] vs[j].path, p@),
            match position_of(vs, p@) {
                Some(k) => 0 <= k < vs.len() && same_path(vs[k].path, p@) && forall|j: int|
                    0 <= j < k ==> !same_path(#[trigger] vs[j].path, p@),
                None => forall|j: int| 0 <= j < vs.len() ==> !same_path(#[trigger] vs[j].path, p@),
            },
        decreases es@.len() - i,
    {
        assert(vs[i as int] == es@[i as int]@);
        if same_path_exec(es[i].path.as_slice(), p) {
            assert(same_path(vs[i as int].path, p@));
            return Some(i);
        }
        i = i + 1;
    }
    None
}

/// The index of the first entry whose path is the same path as `p`.
fn position_in_owned(es: &Vec<FileEntry>, p: &[u8]) -> (r: Option<usize>)
    ensures
        r matches Some(i) ==> position_of(entry_views(es@), p@) == Some(i as int) && i < es@.len(),
        r is None ==> position_of(entry_views(es@), p@) is None,
{
    let ghost vs = entry_views(es@);
    proof {
        lemma_position_of(vs, p@);
    }
    let mut i: usize = 0;
    while i < es.len()
        invariant
            i <= es@.len(),
            vs == entry_views(es@),
            forall|j: int| 0 <= j < i ==> !same_path(#[trigger] vs[j].path, p@),
            match position_of(vs, p@) {
                Some(k) => 0 <= k < vs.len() && same_path(vs[k].path, p@) && forall|j: int|
                    0 <= j < k ==> !same_path(#[trigger] vs[j].path, p@),
                None => forall|j: int| 0 <= j < vs.len() ==> !same_path(#[trigger] vs[j].path, p@),
            },
        decreases es@.len() - i,
    {
        assert(vs[i as int] == es@[i as int]@);
        if same_path_exec(es[i].path.as_slice(), p) {
            assert(same_path(vs[i as int].path, p@));
            return Some(i);
        }
        i = i + 1;
    }
    None
}

/// The name of the `suffix`-th candidate for a new folder.
pub fn new_folder_name(suffix: u32) -> (r: String)
    ensures
        r@ == folder_name(suffix as nat),
{
    let mut name = "New Folder".to_owned();
    if suffix != 1 {
        push_char(&mut name, ' ');
        push_decimal(&mut name, suffix as u64);
    }
    name
}

impl Browser {
    /// The index of the selected entry among the visible ones, if it is
    /// shown.
    pub fn selected_index(&self) -> (r: Option<usize>)
        requires
            self.wf(),
        ensures
            match r {
                Some(i) => self@.selection_index() == Some(i as int),
                None => self@.selection_index() is None,
            },
    {
        let entries = self.entries();
        match &self.selected {
            Some(selected) => position_in(&entries, selected.as_slice()),
            None => None,
        }
    }

    /// Moves the selection by `offset` among the visible entries: from the
    /// selected entry, clamped to the first and the last; without a
    /// selected entry, to the last for a move backwards and to the first
    /// otherwise.  With nothing visible, nothing is selected.
    pub fn select_relative(&mut self, offset: isize)
        requires
            old(self).wf(),
            old(self)@.visible_entries().len() <= isize::MAX,
            old(self)@.selection_index() matches Some(i) ==> i + offset <= isize::MAX,
        ensures
            final(self).wf(),
            final(self)@ == (BrowserView {
                selected: old(self)@.moved_selection(offset as int),
                ..old(self)@
            }),
    {
        let ghost vis = self@.visible_entries();
        let next_path = {
            let entries = self.entries();
            let len = entries.len();
            proof {
                lemma_matching_len(self@.entries, self@.search);
                assert(vis.len() == entries@.len());
            }
            if len == 0 {
                None
            } else {
                let current = match &self.selected {
                    Some(selected) => position_in(&entries, selected.as_slice()),
                    None => None,
                };
                let next: usize = match current {
                    Some(index) => {
                        let target = index as isize + offset;
                        let last = len as isize - 1;
                        if target < 0 {
                            0
                        } else if target > last {
                            len - 1
                        } else {
                            target as usize
                        }
                    },
                    None => if offset < 0 {
                        len - 1
                    } else {
                        0
                    },
                };
                assert(vis[next as int] == entries@[next as int]@);
                Some(copy_bytes(entries[next].path.as_slice()))
            }
        };
        self.selected = next_path;
    }

    /// The directory that opening the selection goes to.
    pub fn open_target(&self) -> (r: Option<Vec<u8>>)
        ensures
            opt_path(r) == self@.open_target(),
    {
        match &self.selected {
            None => None,
            Some(selected) => match position_in_owned(&self.entries, selected.as_slice()) {
                None => None,
                Some(i) => {
                    assert(entry_views(self.entries@)[i as int] == self.entries@[i as int]@);
                    if self.entries[i].is_directory() {
                        Some(normalize_path(selected.as_slice()))
                    } else {
                        None
                    }
                },
            },
        }
    }

    /// Opens the selection, read as `listing`, when it is a folder or an
    /// application.
    pub fn open_selected(&mut self, listing: Listing) -> (r: bool)
        requires
            old(self).wf(),
        ensures
            final(self).wf(),
            old(self)@.open_target() is None ==> final(self)@ == old(self)@ && !r,
            old(self)@.open_target() matches Some(p) ==> final(self)@ == old(
                self,
            )@.after_navigate(p, listing_view(listing)) && r == listing is Ok,
    {
        match self.open_target() {
            None => false,
            Some(target) => self.open_normalized(target, listing),
        }
    }

    /// Checks that the selection may be deleted: it must be an entry of the
    /// current directory.  Returns the path to delete, or sets the error
    /// when the selection is elsewhere.
    pub fn delete_selected(&mut self) -> (r: Option<Vec<u8>>)
        requires
            old(self).wf(),
        ensures
            final(self).wf(),
            old(self)@.selected is None ==> r is None && final(self)@ == old(self)@,
            old(self)@.selected matches Some(p) ==> if is_child_of(p, old(self)@.current_dir) {
                opt_path(r) == Some(p) && final(self)@ == old(self)@
            } else {
                r is None && final(self)@ == (BrowserView {
                    error: Some(cannot_delete_text()),
                    ..old(self)@
                })
            },
    {
        let path = match &self.selected {
            None => {
                return None;
            },
            Some(p) => copy_bytes(p.as_slice()),
        };
        if !is_child_of_exec(path.as_slice(), self.current_dir.as_slice()) {
            self.error = Some("The selected item cannot be deleted".to_owned());
            return None;
        }
        Some(path)
    }

    /// Where renaming the selection to `name` moves it.
    pub fn rename_destination(&self, name: &str) -> (r: Vec<u8>)
        ensures
            r@ == join(self@.current_dir, name.spec_bytes()),
    {
        join_exec(self.current_dir.as_slice(), name.as_bytes())
    }

    /// Checks a rename of the selection to `name`, given whether its
    /// destination exists: the name must be valid and the selection an
    /// entry of the current directory; a rename to the same path succeeds
    /// at once; an existing destination is not replaced.
    pub fn rename_selected(&mut self, name: &str, destination_exists: bool) -> (r: RenameStep)
        requires
            old(self).wf(),
        ensures
            final(self).wf(),
            ({
                let b = old(self)@;
                let destination = join(b.current_dir, name.spec_bytes());
                match b.selected {
                    None => r is Refused && final(self)@ == b,
                    Some(source) => if !valid_name(name.spec_bytes()) || !is_child_of(
                        source,
                        b.current_dir,
                    ) {
                        r is Refused && final(self)@ == (BrowserView {
                            error: Some(invalid_name_text()),
                            ..b
                        })
                    } else if same_path(destination, source) {
                        r is Unchanged && final(self)@ == (BrowserView { error: None, ..b })
                    } else if destination_exists {
                        r is Refused && final(self)@ == (BrowserView {
                            error: Some(already_exists_text(destination)),
                            ..b
                        })
                    } else {
                        final(self)@ == b && match r {
                            RenameStep::Move { source: s, destination: d } => s@ == source && d@
                                == destination,
                            _ => false,
                        }
                    },
                }
            }),
    {
        let source = match &self.selected {
            None => {
                return RenameStep::Refused;
            },
            Some(p) => copy_bytes(p.as_slice()),
        };
        if !valid_entry_name(name) || !is_child_of_exec(
            source.as_slice(),
            self.current_dir.as_slice(),
        ) {
            self.error = Some("The name is not valid".to_owned());
            return RenameStep::Refused;
        }
        let destination = join_exec(self.current_dir.as_slice(), name.as_bytes());
        if same_path_exec(destination.as_slice(), source.as_slice()) {
            self.error = None;
            return RenameStep::Unchanged;
        }
        if destination_exists {
            let mut message = lossy_string(destination.as_slice());
            message.append(" already exists");
            self.error = Some(message);
            return RenameStep::Refused;
        }
        RenameStep::Move { source, destination }
    }

    /// The `suffix`-th candidate path for a new folder in the current
    /// directory; the first one that does not exist is created.
    pub fn folder_candidate(&self, suffix: u32) -> (r: Vec<u8>)
        ensures
            r@ == join(self@.current_dir, encode_utf8(folder_name(suffix as nat))),
    {
        let name = new_folder_name(suffix);
        join_exec(self.current_dir.as_slice(), name.as_str().as_bytes())
    }
}

proof fn lemma_matching_len(es: Seq<FileEntryView>, search: Seq<char>)
    ensures
        visible(es, search).len() <= es.len(),
{
    if search.len() > 0 {
        lemma_matching_len_rec(es, lower(encode_utf8(search)));
    }
}

proof fn lemma_matching_len_rec(es: Seq<FileEntryView>, q: Seq<u8>)
    ensures
        matching(es, q).len() <= es.len(),
    decreases es.len(),
{
    if es.len() > 0 {
        lemma_matching_len_rec(es.drop_last(), q);
    }
}

/// A successful navigation keeps the state well formed, leaves nothing to
/// go forward to, and going back from it reopens the directory it left.
pub proof fn lemma_back_undoes_navigate(
    b: BrowserView,
    path: Seq<u8>,
    entries: Seq<FileEntryView>,
    previous: Seq<FileEntryView>,
)
    requires
        b.wf(),
    ensures
        b.navigated(path, entries).wf(),
        b.navigated(path, entries).history_index > 0,
        b.navigated(path, entries).history_index + 1 == b.navigated(path, entries).history.len(),
        ({
            let n = b.navigated(path, entries);
            let back = n.after_load(
                n.history_index - 1,
                Ok::<Seq<FileEntryView>, Seq<char>>(previous),
            );
            &&& back.wf()
            &&& back.current_dir == b.current_dir
            &&& back.entries == previous
            &&& back.history_index == b.history_index
        }),
{
    let n = b.navigated(path, entries);
    assert(n.history[n.history_index - 1] == b.history[b.history_index]);
}

/// Going forward after going back reopens the directory that going back
/// left.
pub proof fn lemma_forward_undoes_back(
    b: BrowserView,
    earlier: Seq<FileEntryView>,
    later: Seq<FileEntryView>,
)
    requires
        b.wf(),
        b.history_index > 0,
    ensures
        ({
            let back = b.after_load(
                b.history_index - 1,
                Ok::<Seq<FileEntryView>, Seq<char>>(earlier),
            );
            let forward = back.after_load(
                back.history_index + 1,
                Ok::<Seq<FileEntryView>, Seq<char>>(later),
            );
            &&& back.wf()
            &&& back.history_index + 1 < back.history.len()
            &&& forward.wf()
            &&& forward.current_dir == b.current_dir
            &&& forward.history == b.history
            &&& forward.history_index == b.history_index
        }),
{
}

/// A directory that cannot be read leaves everything but the error as it
/// was.
pub proof fn lemma_failed_navigation_keeps_state(b: BrowserView, path: Seq<u8>, e: Seq<char>)
    ensures
        ({
            let after = b.after_navigate(path, Err::<Seq<FileEntryView>, Seq<char>>(e));
            after == BrowserView { error: Some(cannot_open_text(path)), ..b }
        }),
{
}

proof fn lemma_matching_subseq(es: Seq<FileEntryView>, q: Seq<u8>)
    ensures
        forall|i: int|
            0 <= i < matching(es, q).len() ==> es.contains(#[trigger] matching(es, q)[i]) && has_infix(
                lower(matching(es, q)[i].name_bytes()),
                q,
            ),
    decreases es.len(),
{
    if es.len() > 0 {
        let t = es.drop_last();
        lemma_matching_subseq(t, q);
        assert forall|i: int| 0 <= i < matching(es, q).len() implies es.contains(
            #[trigger] matching(es, q)[i],
        ) && has_infix(lower(matching(es, q)[i].name_bytes()), q) by {
            if i < matching(t, q).len() {
                assert(matching(es, q)[i] == matching(t, q)[i]);
                let k = choose|k: int| 0 <= k < t.len() && t[k] == matching(t, q)[i];
                assert(es[k] == t[k]);
            } else {
                assert(matching(es, q)[i] == es.last());
                assert(es[es.len() - 1] == es.last());
            }
        }
    }
}

/// Every entry shown for a search is an entry of the directory whose name
/// contains the search text, with ASCII case ignored.
pub proof fn lemma_visible_entries_match(b: BrowserView)
    requires
        b.search.len() > 0,
    ensures
        forall|i: int|
            0 <= i < b.visible_entries().len() ==> b.entries.contains(
                #[trigger] b.visible_entries()[i],
            ) && has_infix(
                lower(b.visible_entries()[i].name_bytes()),
                lower(encode_utf8(b.search)),
            ),
{
    lemma_matching_subseq(b.entries, lower(encode_utf8(b.search)));
}

/// The next move of the search for a free new-folder name.
#[derive(Clone, Copy, Debug, PartialEq, Eq, Structural)]
pub enum FolderSearch {
    /// The candidate with this suffix is free: create it.
    Create(u32),
    /// Try the candidate with this suffix next.
    Next(u32),
    /// The suffixes ran out: no folder is created.
    NoName,
}

/// What follows trying the candidate with `suffix`, which exists or not:
/// a free candidate is created, otherwise the next suffix is tried while
/// one is left.
pub fn folder_search_step(suffix: u32, exists: bool) -> (r: FolderSearch)
    ensures
        r == (if !exists {
            FolderSearch::Create(suffix)
        } else if suffix < u32::MAX {
            FolderSearch::Next((suffix + 1) as u32)
        } else {
            FolderSearch::NoName
        }),
{
    if !exists {
        FolderSearch::Create(suffix)
    } else if suffix < u32::MAX {
        FolderSearch::Next(suffix + 1)
    } else {
        FolderSearch::NoName
    }
}

/// `a` is `b` with some of its entries left out, the others in order.
pub open spec fn is_subsequence(a: Seq<FileEntryView>, b: Seq<FileEntryView>) -> bool
    decreases b.len(),
{
    if a.len() == 0 {
        true
    } else if b.len() == 0 {
        false
    } else if a.last() == b.last() {
        is_subsequence(a.drop_last(), b.drop_last()) || is_subsequence(a, b.drop_last())
    } else {
        is_subsequence(a, b.drop_last())
    }
}

proof fn lemma_subsequence_push(a: Seq<FileEntryView>, b: Seq<FileEntryView>, x: FileEntryView)
    requires
        is_subsequence(a, b),
    ensures
        is_subsequence(a, b.push(x)),
        is_subsequence(a.push(x), b.push(x)),
{
    assert(b.push(x).drop_last() =~= b);
    assert(a.push(x).drop_last() =~= a);
}

proof fn lemma_subsequence_refl(a: Seq<FileEntryView>)
    ensures
        is_subsequence(a, a),
    decreases a.len(),
{
    if a.len() > 0 {
        lemma_subsequence_refl(a.drop_last());
    }
}

proof fn lemma_encode_concat(a: Seq<char>, b: Seq<char>)
    ensures
        encode_utf8(a + b) == encode_utf8(a) + encode_utf8(b),
    decreases a.len(),
{
    if a.len() == 0 {
        assert(a + b =~= b);
        assert(encode_utf8(a) =~= Seq::<u8>::empty());
        assert(Seq::<u8>::empty() + encode_utf8(b) =~= encode_utf8(b));
    } else {
        lemma_encode_concat(a.drop_first(), b);
        assert((a + b).drop_first() =~= a.drop_first() + b);
        assert((a + b)[0] == a[0]);
        let e = encode_scalar(a[0] as u32);
        assert(e + (encode_utf8(a.drop_first()) + encode_utf8(b)) =~= (e + encode_utf8(
            a.drop_first(),
        )) + encode_utf8(b));
    }
}

proof fn lemma_matching_narrows(es: Seq<FileEntryView>, q1: Seq<u8>, q2: Seq<u8>)
    requires
        forall|x: Seq<u8>| has_infix(x, q2) ==> has_infix(x, q1),
    ensures
        is_subsequence(matching(es, q2), matching(es, q1)),
    decreases es.len(),
{
    if es.len() == 0 {
    } else {
        lemma_matching_narrows(es.drop_last(), q1, q2);
        let m1 = matching(es.drop_last(), q1);
        let m2 = matching(es.drop_last(), q2);
        let x = lower(es.last().name_bytes());
        if has_infix(x, q1) {
            lemma_subsequence_push(m2, m1, es.last());
        }
    }
}

proof fn lemma_matching_is_subsequence(es: Seq<FileEntryView>, q: Seq<u8>)
    ensures
        is_subsequence(matching(es, q), es),
    decreases es.len(),
{
    if es.len() > 0 {
        lemma_matching_is_subsequence(es.drop_last(), q);
        let m = matching(es.drop_last(), q);
        lemma_subsequence_push(m, es.drop_last(), es.last());
        assert(es.drop_last().push(es.last()) =~= es);
    }
}

/// Typing more of the search never shows more: the entries shown for the
/// longer search are some of those shown before, in the same order.
pub proof fn lemma_longer_search_shows_fewer(es: Seq<FileEntryView>, search: Seq<char>, more: Seq<char>)
    ensures
        is_subsequence(visible(es, search + more), visible(es, search)),
{
    if (search + more).len() == 0 {
        assert(search.len() == 0);
        lemma_subsequence_refl(es);
    } else if search.len() == 0 {
        lemma_matching_is_subsequence(es, lower(encode_utf8(search + more)));
    } else {
        let q1 = lower(encode_utf8(search));
        let r = lower(encode_utf8(more));
        lemma_encode_concat(search, more);
        let q2 = lower(encode_utf8(search + more));
        assert(q2 =~= q1 + r);
        assert forall|x: Seq<u8>| has_infix(x, q2) implies has_infix(x, q1) by {
            let i = choose|i: int| occurs_at(x, q2, i);
            assert(x.subrange(i, i + q1.len()) =~= q2.subrange(0, q1.len() as int));
            assert(q2.subrange(0, q1.len() as int) =~= q1);
            assert(occurs_at(x, q1, i));
        }
        lemma_matching_narrows(es, q1, q2);
    }
}

/// Moving the selection from the visible entry at index `i` (the first
/// shown with the selected path) by `offset` lands on the entry at
/// `i + offset`, or on the first or the last entry where that falls
/// outside the list.
pub proof fn lemma_move_from_selected(b: BrowserView, offset: int, i: int)
    requires
        0 <= i < b.visible_entries().len(),
        b.selected matches Some(p) && same_path(b.visible_entries()[i].path, p) && forall|j: int|
            0 <= j < i ==> !same_path(#[trigger] b.visible_entries()[j].path, p),
    ensures
        ({
            let vis = b.visible_entries();
            let n = vis.len();
            &&& 0 <= i + offset < n ==> b.moved_selection(offset) == Some(vis[i + offset].path)
            &&& i + offset < 0 ==> b.moved_selection(offset) == Some(vis[0].path)
            &&& i + offset >= n ==> b.moved_selection(offset) == Some(vis[n - 1].path)
        }),
{
    let vis = b.visible_entries();
    let p = b.selected->Some_0;
    lemma_position_of(vis, p);
    match position_of(vis, p) {
        Some(k) => {
            if k < i {
                assert(!same_path(vis[k].path, p));
            }
            if k > i {
                assert(!same_path(vis[i].path, p));
            }
        },
        None => {
            assert(!same_path(vis[i].path, p));
        },
    }
}

/// Without a shown selection, a move backwards selects the last visible
/// entry and any other move the first; with nothing shown, nothing is
/// selected.
pub proof fn lemma_move_without_selection(b: BrowserView, offset: int)
    requires
        b.selected matches Some(p) ==> forall|j: int|
            0 <= j < b.visible_entries().len() ==> !same_path(#[trigger] b.visible_entries()[j].path, p),
    ensures
        ({
            let vis = b.visible_entries();
            let n = vis.len();
            &&& n == 0 ==> b.moved_selection(offset) is None
            &&& n > 0 && offset < 0 ==> b.moved_selection(offset) == Some(vis[n - 1].path)
            &&& n > 0 && offset >= 0 ==> b.moved_selection(offset) == Some(vis[0].path)
        }),
{
    let vis = b.visible_entries();
    match b.selected {
        Some(p) => {
            lemma_position_of(vis, p);
            if let Some(k) = position_of(vis, p) {
                assert(same_path(vis[k].path, p));
            }
        },
        None => {},
    }
}

/// Opening the selection opens a folder or an application and nothing
/// else: where the first entry with the selected path is a folder or an
/// application, the target is the selected path normalized; where it is
/// any other kind, or no entry has that path, there is none.
pub proof fn lemma_open_target_kinds(b: BrowserView, i: int)
    requires
        0 <= i < b.entries.len(),
        b.selected matches Some(p) && same_path(b.entries[i].path, p) && forall|j: int|
            0 <= j < i ==> !same_path(#[trigger] b.entries[j].path, p),
    ensures
        b.entries[i].kind == EntryKind::Directory ==> b.open_target() == Some(
            normalized(b.selected->Some_0),
        ),
        b.entries[i].kind == EntryKind::Application ==> b.open_target() == Some(
            normalized(b.selected->Some_0),
        ),
        b.entries[i].kind != EntryKind::Directory && b.entries[i].kind != EntryKind::Application
            ==> b.open_target() is None,
{
    let p = b.selected->Some_0;
    lemma_position_of(b.entries, p);
    match position_of(b.entries, p) {
        Some(k) => {
            if k < i {
                assert(!same_path(b.entries[k].path, p));
            }
            if k > i {
                assert(!same_path(b.entries[i].path, p));
            }
        },
        None => {
            assert(!same_path(b.entries[i].path, p));
        },
    }
}

/// With no entry at the selected path, or no selection, there is nothing
/// to open.
pub proof fn lemma_open_target_needs_entry(b: BrowserView)
    requires
        b.selected matches Some(p) ==> forall|j: int|
            0 <= j < b.entries.len() ==> !same_path(#[trigger] b.entries[j].path, p),
    ensures
        b.open_target() is None,
{
    if let Some(p) = b.selected {
        lemma_position_of(b.entries, p);
        if let Some(k) = position_of(b.entries, p) {
            assert(same_path(b.entries[k].path, p));
        }
    }
}

} // verus!
