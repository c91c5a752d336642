//! The places of the sidebar: the standard folders of the home directory
//! that are not hidden, then the user's bookmarks.

use vstd::prelude::*;
use vstd::string::StringSliceAdditionalSpecFns;
use vstd::utf8::encode_utf8;

use crate::entry::{EntryKind, FileEntry};
use crate::path::{
    components, file_name, is_plain_name, lemma_join_plain_name, ComponentView, file_name_exec, is_child_of, is_child_of_exec, join, join_exec,
    parent_components, path_components, same_path, same_path_exec, Component,
};
use crate::sidebar::{
    distinct_paths, first_match, has_path, lemma_removed_is_gone, path_vals, SidebarBookmarks,
    SidebarBookmarksView,
};
use crate::strings::{lossy_string, lossy_text};
use crate::text::{ends_with, has_suffix, lower, to_ascii_lower};

verus! {

/// The standard folders of a home directory, in sidebar order.
pub open spec fn default_names() -> Seq<Seq<char>> {
    seq!["Desktop"@, "Documents"@, "Downloads"@, "Movies"@, "Music"@, "Pictures"@]
}

/// The number of standard folders.
pub const DEFAULT_SIDEBAR_COUNT: usize = 6;

/// The `i`-th standard folder.
pub fn default_sidebar_directory(i: usize) -> (r: &'static str)
    requires
        i < DEFAULT_SIDEBAR_COUNT,
    ensures
        r@ == default_names()[i as int],
{
    match i {
        0 => "Desktop",
        1 => "Documents",
        2 => "Downloads",
        3 => "Movies",
        4 => "Music",
        _ => "Pictures",
    }
}

/// The icon of a sidebar place.
#[derive(Clone, Copy, Debug, PartialEq, Eq, Structural)]
pub enum SidebarIcon {
    Application,
    Folder,
    File,
}

/// A place of the sidebar.
#[derive(Clone, Debug)]
pub struct SidebarItem {
    pub label: String,
    pub path: Vec<u8>,
    pub icon: SidebarIcon,
}

/// The value of a sidebar place.
pub struct SidebarItemView {
    pub label: Seq<char>,
    pub path: Seq<u8>,
    pub icon: SidebarIcon,
}

impl View for SidebarItem {
    type V = SidebarItemView;

    open spec fn view(&self) -> SidebarItemView {
        SidebarItemView { label: self.label@, path: self.path@, icon: self.icon }
    }
}

/// The values of a list of places.
pub open spec fn item_views(s: Seq<SidebarItem>) -> Seq<SidebarItemView> {
    s.map_values(|i: SidebarItem| i@)
}

impl SidebarItem {
    pub fn new(label: String, path: Vec<u8>, icon: SidebarIcon) -> (r: SidebarItem)
        ensures
            r@ == (SidebarItemView { label: label@, path: path@, icon: icon }),
    {
        SidebarItem { label, path, icon }
    }
}

/// The path of the `i`-th standard folder of `home`.
pub open spec fn default_path(home: Seq<u8>, i: int) -> Seq<u8> {
    join(home, encode_utf8(default_names()[i]))
}

/// The standard folders among the first `k` that are not hidden.
pub open spec fn default_items(home: Seq<u8>, hidden: Seq<Seq<u8>>, k: int) -> Seq<SidebarItemView>
    decreases k,
{
    if k <= 0 {
        Seq::empty()
    } else {
        let before = default_items(home, hidden, k - 1);
        let path = default_path(home, k - 1);
        if has_path(hidden, path) {
            before
        } else {
            before.push(
                SidebarItemView { label: default_names()[k - 1], path: path, icon: SidebarIcon::Folder },
            )
        }
    }
}

/// The label of a bookmark: its file name, or the whole path when it has
/// no file name or the name reads as empty text.
pub open spec fn bookmark_label(p: Seq<u8>) -> Seq<char> {
    match file_name(p) {
        Some(n) => if lossy_text(n).len() > 0 {
            lossy_text(n)
        } else {
            lossy_text(p)
        },
        None => lossy_text(p),
    }
}

/// The icon of a bookmark: a directory whose name ends in `.app` (in any
/// case) is an application, other directories are folders, anything else
/// is a file.
pub open spec fn bookmark_icon(p: Seq<u8>, is_dir: bool) -> SidebarIcon {
    if is_dir {
        match file_name(p) {
            Some(n) => if has_suffix(lower(encode_utf8(lossy_text(n))), ".app".spec_bytes()) {
                SidebarIcon::Application
            } else {
                SidebarIcon::Folder
            },
            None => SidebarIcon::Folder,
        }
    } else {
        SidebarIcon::File
    }
}

/// `items` followed by the bookmarks `ps`, each one left out when a place
/// before it has the same path; `dirs` says which bookmarks are
/// directories.
pub open spec fn with_bookmarks(
    items: Seq<SidebarItemView>,
    ps: Seq<Seq<u8>>,
    dirs: Seq<bool>,
) -> Seq<SidebarItemView>
    decreases ps.len(),
{
    if ps.len() == 0 {
        items
    } else {
        let before = with_bookmarks(items, ps.drop_last(), dirs.drop_last());
        let p = ps.last();
        if exists|i: int| 0 <= i < before.len() && same_path(before[i].path, p) {
            before
        } else {
            before.push(
                SidebarItemView {
                    label: bookmark_label(p),
                    path: p,
                    icon: bookmark_icon(p, dirs.last()),
                },
            )
        }
    }
}

/// The places of the sidebar for `home` and the bookmark store `b`.
pub open spec fn places(home: Seq<u8>, b: SidebarBookmarksView, dirs: Seq<bool>) -> Seq<
    SidebarItemView,
> {
    with_bookmarks(default_items(home, b.hidden_defaults, 6), b.paths, dirs)
}

/// Whether `entry` is shown with the application icon: an application, or
/// the applications folder itself.
pub fn uses_application_icon(entry: &FileEntry) -> (r: bool)
    ensures
        r == (entry@.kind == EntryKind::Application || same_path(
            entry@.path,
            "/applications".spec_bytes(),
        )),
{
    let is_app = match entry.kind {
        EntryKind::Application => true,
        _ => false,
    };
    is_app || same_path_exec(entry.path.as_slice(), "/applications".as_bytes())
}

/// Whether `path` is one of the standard folders of `home`.
pub fn is_default_sidebar_path(home: &[u8], path: &[u8]) -> (r: bool)
    ensures
        r == exists|i: int| 0 <= i < 6 && same_path(default_path(home@, i), path@),
{
    let mut i: usize = 0;
    while i < DEFAULT_SIDEBAR_COUNT
        invariant
            i <= 6,
            forall|j: int| 0 <= j < i ==> !same_path(#[trigger] default_path(home@, j), path@),
        decreases 6 - i,
    {
        let name = default_sidebar_directory(i);
        let candidate = join_exec(home, name.as_bytes());
        assert(candidate@ == default_path(home@, i as int));
        if same_path_exec(candidate.as_slice(), path) {
            assert(same_path(default_path(home@, i as int), path@));
            return true;
        }
        i = i + 1;
    }
    false
}

/// The places of the sidebar: the standard folders of `home` that the
/// store does not hide, then each bookmark whose path no earlier place
/// has; `bookmark_is_dir[i]` says whether the `i`-th bookmark is a
/// directory.
pub fn sidebar_items(home: &[u8], bookmarks: &SidebarBookmarks, bookmark_is_dir: &[bool]) -> (r:
    Vec<SidebarItem>)
    requires
        bookmark_is_dir@.len() == bookmarks@.paths.len(),
    ensures
        item_views(r@) == places(home@, bookmarks@, bookmark_is_dir@),
{
    let mut items: Vec<SidebarItem> = Vec::new();
    let mut i: usize = 0;
    let ghost hidden = bookmarks@.hidden_defaults;
    assert(item_views(items@) =~= Seq::<SidebarItemView>::empty());
    while i < DEFAULT_SIDEBAR_COUNT
        invariant
            i <= 6,
            hidden == bookmarks@.hidden_defaults,
            item_views(items@) == default_items(home@, hidden, i as int),
        decreases 6 - i,
    {
        let name = default_sidebar_directory(i);
        let path = join_exec(home, name.as_bytes());
        let ghost before = item_views(items@);
        if !bookmarks.hides_default(path.as_slice()) {
            let item = SidebarItem::new(name.to_owned(), path, SidebarIcon::Folder);
            items.push(item);
            assert(item_views(items@) =~= before.push(item@));
        }
        i = i + 1;
    }
    let ghost base = item_views(items@);
    let paths = bookmarks.paths();
    let ghost ps = path_vals(paths@);
    let mut k: usize = 0;
    assert(ps.take(0) =~= Seq::<Seq<u8>>::empty());
    assert(bookmark_is_dir@.take(0) =~= Seq::<bool>::empty());
    while k < paths.len()
        invariant
            k <= paths@.len(),
            ps == path_vals(paths@),
            ps == bookmarks@.paths,
            bookmark_is_dir@.len() == ps.len(),
            item_views(items@) == with_bookmarks(
                base,
                ps.take(k as int),
                bookmark_is_dir@.take(k as int),
            ),
        decreases paths@.len() - k,
    {
        let p = paths[k].as_slice();
        assert(ps.take(k + 1).drop_last() =~= ps.take(k as int));
        assert(ps.take(k + 1).last() == p@);
        assert(bookmark_is_dir@.take(k + 1).drop_last() =~= bookmark_is_dir@.take(k as int));
        assert(bookmark_is_dir@.take(k + 1).last() == bookmark_is_dir@[k as int]);
        let ghost before = item_views(items@);
        if !place_listed(&items, p) {
            let item = SidebarItem::new(
                bookmark_label_exec(p),
                crate::path::copy_bytes(p),
                bookmark_icon_exec(p, bookmark_is_dir[k]),
            );
            items.push(item);
            assert(item_views(items@) =~= before.push(item@));
        }
        k = k + 1;
    }
    assert(ps.take(k as int) =~= ps);
    assert(bookmark_is_dir@.take(k as int) =~= bookmark_is_dir@);
    items
}

/// Whether some place of `items` has the path `p`.
pub fn place_listed(items: &Vec<SidebarItem>, p: &[u8]) -> (r: bool)
    ensures
        r == exists|i: int| 0 <= i < items@.len() && same_path(item_views(items@)[i].path, p@),
{
    let mut i: usize = 0;
    while i < items.len()
        invariant
            i <= items@.len(),
            forall|j: int| 0 <= j < i ==> !same_path(#[trigger] item_views(items@)[j].path, p@),
        decreases items@.len() - i,
    {
        assert(item_views(items@)[i as int] == items@[i as int]@);
        if same_path_exec(items[i].path.as_slice(), p) {
            return true;
        }
        i = i + 1;
    }
    false
}

fn bookmark_label_exec(p: &[u8]) -> (r: String)
    ensures
        r@ == bookmark_label(p@),
{
    match file_name_exec(p) {
        Some(n) => {
            let label = lossy_string(n.as_slice());
            if label.as_str().is_empty() {
                lossy_string(p)
            } else {
                label
            }
        },
        None => lossy_string(p),
    }
}

fn bookmark_icon_exec(p: &[u8], is_dir: bool) -> (r: SidebarIcon)
    ensures
        r == bookmark_icon(p@, is_dir),
{
    if !is_dir {
        return SidebarIcon::File;
    }
    match file_name_exec(p) {
        Some(n) => {
            let text = lossy_string(n.as_slice());
            let lowered = to_ascii_lower(text.as_str().as_bytes());
            if ends_with(lowered.as_slice(), ".app".as_bytes()) {
                SidebarIcon::Application
            } else {
                SidebarIcon::Folder
            }
        },
        None => SidebarIcon::Folder,
    }
}

/// The bookmark store after asking for `path` to be added to the sidebar,
/// or `None` when nothing changes: a path that some place already has is
/// refused; a standard folder of `home` that is hidden is shown again;
/// any other path is bookmarked when the store takes it.
pub open spec fn store_after_add(
    home: Seq<u8>,
    shown: Seq<SidebarItemView>,
    b: SidebarBookmarksView,
    path: Seq<u8>,
) -> Option<SidebarBookmarksView> {
    let is_default = exists|i: int| 0 <= i < 6 && same_path(default_path(home, i), path);
    if exists|i: int| 0 <= i < shown.len() && same_path(shown[i].path, path) {
        None
    } else if is_default && has_path(b.hidden_defaults, path) {
        Some(
            SidebarBookmarksView {
                hidden_defaults: b.hidden_defaults.remove(
                    crate::sidebar::first_match(b.hidden_defaults, path),
                ),
                ..b
            },
        )
    } else if b.paths.len() < crate::sidebar::MAX_BOOKMARKS && !has_path(b.paths, path) {
        Some(SidebarBookmarksView { paths: b.paths.push(path), ..b })
    } else {
        None
    }
}

/// The bookmark store after asking for the place `path` to be removed from
/// the sidebar, or `None` when nothing changes: a standard folder of
/// `home` is hidden, a bookmark is removed.
pub open spec fn store_after_remove(home: Seq<u8>, b: SidebarBookmarksView, path: Seq<u8>) -> Option<
    SidebarBookmarksView,
> {
    let is_default = exists|i: int| 0 <= i < 6 && same_path(default_path(home, i), path);
    if is_default {
        if has_path(b.hidden_defaults, path) {
            None
        } else {
            Some(SidebarBookmarksView { hidden_defaults: b.hidden_defaults.push(path), ..b })
        }
    } else if has_path(b.paths, path) {
        Some(
            SidebarBookmarksView {
                paths: b.paths.remove(crate::sidebar::first_match(b.paths, path)),
                ..b
            },
        )
    } else {
        None
    }
}

/// The store to save after adding `path` to the sidebar whose places are
/// `shown`, or `None` when the sidebar does not change.
pub fn sidebar_after_add(
    home: &[u8],
    shown: &Vec<SidebarItem>,
    bookmarks: &SidebarBookmarks,
    path: &[u8],
) -> (r: Option<SidebarBookmarks>)
    ensures
        match r {
            Some(b) => store_after_add(home@, item_views(shown@), bookmarks@, path@) == Some(b@),
            None => store_after_add(home@, item_views(shown@), bookmarks@, path@) is None,
        },
{
    if place_listed(shown, path) {
        return None;
    }
    let mut updated = bookmarks.duplicate();
    let restored = is_default_sidebar_path(home, path) && updated.restore_default(path);
    if restored {
        return Some(updated);
    }
    if updated.add(crate::path::copy_bytes(path)) {
        Some(updated)
    } else {
        None
    }
}

/// The store to save after removing the place `path` from the sidebar, or
/// `None` when the sidebar does not change.
pub fn sidebar_after_remove(home: &[u8], bookmarks: &SidebarBookmarks, path: &[u8]) -> (r: Option<
    SidebarBookmarks,
>)
    ensures
        match r {
            Some(b) => store_after_remove(home@, bookmarks@, path@) == Some(b@),
            None => store_after_remove(home@, bookmarks@, path@) is None,
        },
{
    let mut updated = bookmarks.duplicate();
    let removed = if is_default_sidebar_path(home, path) {
        updated.hide_default(crate::path::copy_bytes(path))
    } else {
        updated.remove(path)
    };
    if removed {
        Some(updated)
    } else {
        None
    }
}

/// Whether `p` has a parent: its last component is not the root.
pub fn has_parent(p: &[u8]) -> (r: bool)
    ensures
        r == (parent_components(p@) is Some),
{
    let cs = path_components(p);
    if cs.len() == 0 {
        return false;
    }
    match &cs[cs.len() - 1] {
        Component::RootDir => false,
        _ => true,
    }
}

/// Whether the sidebar place at `place` is the one shown: a folder place
/// when it is the current directory, another place when the current
/// directory holds it (the root, for a place without a parent) and it is
/// selected.
pub open spec fn place_is_current(
    current: Seq<u8>,
    selected: Option<Seq<u8>>,
    place: Seq<u8>,
    place_is_dir: bool,
) -> bool {
    if place_is_dir {
        same_path(current, place)
    } else {
        &&& match parent_components(place) {
            Some(pc) => components(current) == pc,
            None => same_path(current, "/".spec_bytes()),
        }
        &&& selected matches Some(s) && same_path(s, place)
    }
}

/// Whether the sidebar place at `place`, a folder or not, is the one shown.
pub fn is_current_place(current: &[u8], selected: Option<&[u8]>, place: &[u8], place_is_dir: bool) -> (r:
    bool)
    ensures
        r == place_is_current(
            current@,
            match selected {
                Some(s) => Some(s@),
                None => None,
            },
            place@,
            place_is_dir,
        ),
{
    if place_is_dir {
        return same_path_exec(current, place);
    }
    let in_current = if has_parent(place) {
        is_child_of_exec(place, current)
    } else {
        same_path_exec(current, "/".as_bytes())
    };
    let chosen = match selected {
        Some(s) => same_path_exec(s, place),
        None => false,
    };
    in_current && chosen
}

/// The title above the grid of the directory `dir`: "Home" for the home
/// directory (or the preview root) and for any directory directly in
/// `/home`, "Computer" for the root, else the directory's name, or
/// "Files" where it has none.
pub open spec fn grid_title_text(
    dir: Seq<u8>,
    home: Option<Seq<u8>>,
    preview_home: Option<Seq<u8>>,
) -> Seq<char> {
    if (home matches Some(h) && same_path(h, dir)) || (preview_home matches Some(p) && same_path(
        p,
        dir,
    )) || is_child_of(dir, "/home".spec_bytes()) {
        "Home"@
    } else if same_path(dir, "/".spec_bytes()) {
        "Computer"@
    } else {
        match file_name(dir) {
            Some(n) => lossy_text(n),
            None => "Files"@,
        }
    }
}

/// The title above the grid of the directory `dir`.
pub fn grid_title(dir: &[u8], home: Option<&[u8]>, preview_home: Option<&[u8]>) -> (r: String)
    ensures
        r@ == grid_title_text(
            dir@,
            match home {
                Some(h) => Some(h@),
                None => None,
            },
            match preview_home {
                Some(p) => Some(p@),
                None => None,
            },
        ),
{
    let is_home = match home {
        Some(h) => same_path_exec(h, dir),
        None => false,
    };
    let is_preview = match preview_home {
        Some(p) => same_path_exec(p, dir),
        None => false,
    };
    if is_home || is_preview || is_child_of_exec(dir, "/home".as_bytes()) {
        "Home".to_owned()
    } else if same_path_exec(dir, "/".as_bytes()) {
        "Computer".to_owned()
    } else {
        match file_name_exec(dir) {
            Some(n) => lossy_string(n.as_slice()),
            None => "Files".to_owned(),
        }
    }
}

/// No two places have the same path.
pub open spec fn distinct_places(items: Seq<SidebarItemView>) -> bool {
    forall|i: int, j: int|
        0 <= i < j < items.len() ==> !same_path(#[trigger] items[i].path, #[trigger] items[j].path)
}

/// The bytes of the standard folder names.
spec fn default_name_bytes(i: int) -> Seq<u8> {
    if i == 0 {
        seq![68u8, 101u8, 115u8, 107u8, 116u8, 111u8, 112u8]
    } else if i == 1 {
        seq![68u8, 111u8, 99u8, 117u8, 109u8, 101u8, 110u8, 116u8, 115u8]
    } else if i == 2 {
        seq![68u8, 111u8, 119u8, 110u8, 108u8, 111u8, 97u8, 100u8, 115u8]
    } else if i == 3 {
        seq![77u8, 111u8, 118u8, 105u8, 101u8, 115u8]
    } else if i == 4 {
        seq![77u8, 117u8, 115u8, 105u8, 99u8]
    } else {
        seq![80u8, 105u8, 99u8, 116u8, 117u8, 114u8, 101u8, 115u8]
    }
}

proof fn lemma_default_name_bytes(i: int)
    requires
        0 <= i < 6,
    ensures
        encode_utf8(default_names()[i]) == default_name_bytes(i),
        is_plain_name(default_name_bytes(i)),
{
    broadcast use vstd::string::is_ascii_spec_bytes;

    if i == 0 {
        reveal_strlit("Desktop");
        assert(vstd::string::is_ascii("Desktop"));
        assert("Desktop".spec_bytes() =~= default_name_bytes(i));
    } else if i == 1 {
        reveal_strlit("Documents");
        assert(vstd::string::is_ascii("Documents"));
        assert("Documents".spec_bytes() =~= default_name_bytes(i));
    } else if i == 2 {
        reveal_strlit("Downloads");
        assert(vstd::string::is_ascii("Downloads"));
        assert("Downloads".spec_bytes() =~= default_name_bytes(i));
    } else if i == 3 {
        reveal_strlit("Movies");
        assert(vstd::string::is_ascii("Movies"));
        assert("Movies".spec_bytes() =~= default_name_bytes(i));
    } else if i == 4 {
        reveal_strlit("Music");
        assert(vstd::string::is_ascii("Music"));
        assert("Music".spec_bytes() =~= default_name_bytes(i));
    } else {
        reveal_strlit("Pictures");
        assert(vstd::string::is_ascii("Pictures"));
        assert("Pictures".spec_bytes() =~= default_name_bytes(i));
    }
    let b = default_name_bytes(i);
    assert(!b.contains(47u8)) by {
        if b.contains(47u8) {
            let k = choose|k: int| 0 <= k < b.len() && b[k] == 47u8;
        }
    }
    assert(b[0] != 46u8);
}

proof fn lemma_default_paths_differ(home: Seq<u8>, i: int, j: int)
    requires
        0 <= i < j < 6,
    ensures
        !same_path(default_path(home, i), default_path(home, j)),
{
    lemma_default_name_bytes(i);
    lemma_default_name_bytes(j);
    let bi = default_name_bytes(i);
    let bj = default_name_bytes(j);
    lemma_join_plain_name(home, bi);
    lemma_join_plain_name(home, bj);
    if same_path(default_path(home, i), default_path(home, j)) {
        let ci = components(home) + seq![ComponentView::Normal(bi)];
        let cj = components(home) + seq![ComponentView::Normal(bj)];
        assert(ci.last() == cj.last());
        assert(bi == bj);
        if i == 1 && j == 2 {
            assert(bi[2] != bj[2]);
        } else {
            assert(bi.len() != bj.len());
        }
    }
}

proof fn lemma_default_items_distinct(home: Seq<u8>, hidden: Seq<Seq<u8>>, k: int)
    requires
        0 <= k <= 6,
    ensures
        distinct_places(default_items(home, hidden, k)),
        forall|n: int|
            0 <= n < default_items(home, hidden, k).len() ==> exists|m: int|
                0 <= m < k && #[trigger] default_items(home, hidden, k)[n].path == default_path(
                    home,
                    m,
                ),
    decreases k,
{
    if k > 0 {
        lemma_default_items_distinct(home, hidden, k - 1);
        let before = default_items(home, hidden, k - 1);
        let items = default_items(home, hidden, k);
        if !has_path(hidden, default_path(home, k - 1)) {
            assert forall|n: int| 0 <= n < before.len() implies !same_path(
                before[n].path,
                default_path(home, k - 1),
            ) by {
                let m = choose|m: int| 0 <= m < k - 1 && before[n].path == default_path(home, m);
                lemma_default_paths_differ(home, m, k - 1);
            }
            assert forall|n: int| 0 <= n < items.len() implies exists|m: int|
                0 <= m < k && #[trigger] items[n].path == default_path(home, m) by {
                if n < before.len() {
                    assert(items[n] == before[n]);
                    let m = choose|m: int| 0 <= m < k - 1 && before[n].path == default_path(home, m);
                    assert(items[n].path == default_path(home, m));
                } else {
                    assert(items[n].path == default_path(home, k - 1));
                }
            }
            assert forall|a: int, b: int| 0 <= a < b < items.len() implies !same_path(
                #[trigger] items[a].path,
                #[trigger] items[b].path,
            ) by {
                if b < before.len() {
                    assert(items[a] == before[a] && items[b] == before[b]);
                } else {
                    assert(items[a] == before[a]);
                }
            }
        }
    }
}

proof fn lemma_with_bookmarks_distinct(items: Seq<SidebarItemView>, ps: Seq<Seq<u8>>, dirs: Seq<bool>)
    requires
        distinct_places(items),
    ensures
        distinct_places(with_bookmarks(items, ps, dirs)),
    decreases ps.len(),
{
    if ps.len() > 0 {
        lemma_with_bookmarks_distinct(items, ps.drop_last(), dirs.drop_last());
        let before = with_bookmarks(items, ps.drop_last(), dirs.drop_last());
        let after = with_bookmarks(items, ps, dirs);
        if !(exists|i: int| 0 <= i < before.len() && same_path(before[i].path, ps.last())) {
            assert forall|a: int, b: int| 0 <= a < b < after.len() implies !same_path(
                #[trigger] after[a].path,
                #[trigger] after[b].path,
            ) by {
                if b < before.len() {
                    assert(after[a] == before[a] && after[b] == before[b]);
                } else {
                    assert(after[a] == before[a]);
                    assert(after[b].path == ps.last());
                }
            }
        }
    }
}

/// The sidebar never shows one path twice: the standard folders are
/// different folders, and a bookmark that an earlier place already shows
/// is left out.
pub proof fn lemma_places_distinct(home: Seq<u8>, b: SidebarBookmarksView, dirs: Seq<bool>)
    ensures
        distinct_places(places(home, b, dirs)),
{
    lemma_default_items_distinct(home, b.hidden_defaults, 6);
    lemma_with_bookmarks_distinct(default_items(home, b.hidden_defaults, 6), b.paths, dirs);
}

proof fn lemma_default_items_shown_only(home: Seq<u8>, hidden: Seq<Seq<u8>>, k: int)
    requires
        0 <= k <= 6,
    ensures
        forall|n: int|
            0 <= n < default_items(home, hidden, k).len() ==> exists|m: int|
                0 <= m < k && #[trigger] default_items(home, hidden, k)[n].path == default_path(
                    home,
                    m,
                ) && !has_path(hidden, default_path(home, m)),
    decreases k,
{
    if k > 0 {
        lemma_default_items_shown_only(home, hidden, k - 1);
        let before = default_items(home, hidden, k - 1);
        let items = default_items(home, hidden, k);
        assert forall|n: int| 0 <= n < items.len() implies exists|m: int|
            0 <= m < k && #[trigger] items[n].path == default_path(home, m) && !has_path(
                hidden,
                default_path(home, m),
            ) by {
            if n < before.len() {
                assert(items[n] == before[n]);
                let m = choose|m: int|
                    0 <= m < k - 1 && before[n].path == default_path(home, m) && !has_path(
                        hidden,
                        default_path(home, m),
                    );
                assert(items[n].path == default_path(home, m));
            } else {
                assert(items[n].path == default_path(home, k - 1));
            }
        }
    }
}

proof fn lemma_default_item_shown(home: Seq<u8>, hidden: Seq<Seq<u8>>, k: int, m: int)
    requires
        0 <= m < k <= 6,
        !has_path(hidden, default_path(home, m)),
    ensures
        exists|n: int|
            0 <= n < default_items(home, hidden, k).len() && #[trigger] default_items(
                home,
                hidden,
                k,
            )[n].path == default_path(home, m),
    decreases k,
{
    let items = default_items(home, hidden, k);
    if m == k - 1 {
        assert(items.last().path == default_path(home, m));
        assert(items[items.len() - 1].path == default_path(home, m));
    } else {
        lemma_default_item_shown(home, hidden, k - 1, m);
        let before = default_items(home, hidden, k - 1);
        let n = choose|n: int| 0 <= n < before.len() && #[trigger] before[n].path == default_path(home, m);
        assert(items[n] == before[n]);
    }
}

proof fn lemma_with_bookmarks_parts(items: Seq<SidebarItemView>, ps: Seq<Seq<u8>>, dirs: Seq<bool>)
    ensures
        with_bookmarks(items, ps, dirs).len() >= items.len(),
        forall|n: int| 0 <= n < items.len() ==> #[trigger] with_bookmarks(items, ps, dirs)[n] == items[n],
        forall|n: int|
            items.len() <= n < with_bookmarks(items, ps, dirs).len() ==> exists|k: int|
                0 <= k < ps.len() && #[trigger] with_bookmarks(items, ps, dirs)[n].path == ps[k],
    decreases ps.len(),
{
    if ps.len() > 0 {
        lemma_with_bookmarks_parts(items, ps.drop_last(), dirs.drop_last());
        let before = with_bookmarks(items, ps.drop_last(), dirs.drop_last());
        let after = with_bookmarks(items, ps, dirs);
        assert forall|n: int| 0 <= n < items.len() implies #[trigger] after[n] == items[n] by {
            assert(after[n] == before[n]);
        }
        assert forall|n: int| items.len() <= n < after.len() implies exists|k: int|
            0 <= k < ps.len() && #[trigger] after[n].path == ps[k] by {
            if n < before.len() {
                assert(after[n] == before[n]);
                let k = choose|k: int|
                    0 <= k < ps.drop_last().len() && before[n].path == ps.drop_last()[k];
                assert(ps.drop_last()[k] == ps[k]);
            } else {
                assert(after[n].path == ps.last());
                assert(ps[ps.len() - 1] == ps.last());
            }
        }
    }
}

/// Some place of `items` has the path `p`.
pub open spec fn shows_path(items: Seq<SidebarItemView>, p: Seq<u8>) -> bool {
    exists|n: int| 0 <= n < items.len() && same_path(#[trigger] items[n].path, p)
}

/// A place added to the sidebar is shown: after the store changes as
/// [`store_after_add`] says, the sidebar holds a place with that path,
/// whether a hidden standard folder came back or a bookmark was added.
pub proof fn lemma_added_place_is_shown(
    home: Seq<u8>,
    b: SidebarBookmarksView,
    dirs: Seq<bool>,
    p: Seq<u8>,
    p_is_dir: bool,
)
    requires
        distinct_paths(b.hidden_defaults),
        store_after_add(home, places(home, b, dirs), b, p) is Some,
    ensures
        ({
            let b2 = store_after_add(home, places(home, b, dirs), b, p)->Some_0;
            let dirs2 = if b2.paths.len() == b.paths.len() {
                dirs
            } else {
                dirs.push(p_is_dir)
            };
            shows_path(places(home, b2, dirs2), p)
        }),
{
    let shown = places(home, b, dirs);
    let b2 = store_after_add(home, shown, b, p)->Some_0;
    let is_default = exists|i: int| 0 <= i < 6 && same_path(default_path(home, i), p);
    if is_default && has_path(b.hidden_defaults, p) {
        let i = choose|i: int| 0 <= i < 6 && same_path(default_path(home, i), p);
        let hidden2 = b2.hidden_defaults;
        lemma_removed_is_gone(b.hidden_defaults, p);
        assert(!has_path(hidden2, default_path(home, i))) by {
            if has_path(hidden2, default_path(home, i)) {
                let k = choose|k: int| 0 <= k < hidden2.len() && same_path(hidden2[k], default_path(home, i));
                assert(same_path(hidden2[k], p));
            }
        }
        lemma_default_item_shown(home, hidden2, 6, i);
        let d = default_items(home, hidden2, 6);
        let n = choose|n: int| 0 <= n < d.len() && #[trigger] d[n].path == default_path(home, i);
        lemma_with_bookmarks_parts(d, b2.paths, dirs);
        assert(b2.paths == b.paths);
        assert(places(home, b2, dirs)[n] == d[n]);
        assert(same_path(places(home, b2, dirs)[n].path, p));
        assert(shows_path(places(home, b2, dirs), p));
    } else {
        let dirs2 = dirs.push(p_is_dir);
        assert(b2.paths == b.paths.push(p));
        assert(b2.hidden_defaults == b.hidden_defaults);
        assert(b2.paths.drop_last() =~= b.paths);
        assert(dirs2.drop_last() =~= dirs);
        let after = places(home, b2, dirs2);
        assert(after == shown.push(
            SidebarItemView { label: bookmark_label(p), path: p, icon: bookmark_icon(p, p_is_dir) },
        ));
        assert(after[shown.len() as int].path == p);
        assert(b2.paths.len() != b.paths.len());
        assert(same_path(after[shown.len() as int].path, p));
        assert(shows_path(places(home, b2, dirs2), p));
    }
}

/// A place removed from the sidebar is gone: after the store changes as
/// [`store_after_remove`] says, no place of the sidebar has that path.
/// A standard folder that is also bookmarked is left out: hiding the
/// folder shows the bookmark in its place.
pub proof fn lemma_removed_place_is_gone(
    home: Seq<u8>,
    b: SidebarBookmarksView,
    dirs: Seq<bool>,
    p: Seq<u8>,
)
    requires
        distinct_paths(b.paths),
        store_after_remove(home, b, p) is Some,
        (exists|i: int| 0 <= i < 6 && same_path(default_path(home, i), p)) ==> !has_path(b.paths, p),
    ensures
        ({
            let b2 = store_after_remove(home, b, p)->Some_0;
            let dirs2 = if b2.paths.len() == b.paths.len() {
                dirs
            } else {
                dirs.remove(first_match(b.paths, p))
            };
            !shows_path(places(home, b2, dirs2), p)
        }),
{
    let b2 = store_after_remove(home, b, p)->Some_0;
    let is_default = exists|i: int| 0 <= i < 6 && same_path(default_path(home, i), p);
    let dirs2 = if b2.paths.len() == b.paths.len() {
        dirs
    } else {
        dirs.remove(first_match(b.paths, p))
    };
    let d = default_items(home, b2.hidden_defaults, 6);
    let all = places(home, b2, dirs2);
    lemma_default_items_shown_only(home, b2.hidden_defaults, 6);
    lemma_with_bookmarks_parts(d, b2.paths, dirs2);
    if !is_default {
        lemma_removed_is_gone(b.paths, p);
    }
    assert forall|n: int| 0 <= n < all.len() implies !same_path(#[trigger] all[n].path, p) by {
        if n < d.len() {
            assert(all[n] == d[n]);
            let m = choose|m: int|
                0 <= m < 6 && #[trigger] d[n].path == default_path(home, m) && !has_path(
                    b2.hidden_defaults,
                    default_path(home, m),
                );
            if same_path(d[n].path, p) {
                if is_default {
                    let h = b2.hidden_defaults;
                    assert(h[h.len() - 1] == p);
                    assert(same_path(h[h.len() - 1], default_path(home, m)));
                }
            }
        } else {
            let k = choose|k: int| 0 <= k < b2.paths.len() && #[trigger] all[n].path == b2.paths[k];
            if same_path(all[n].path, p) {
                assert(has_path(b2.paths, p));
            }
        }
    }
}

} // verus!
