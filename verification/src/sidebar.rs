//! The sidebar's bookmark store: the user's own bookmarks and the default
//! folders that the user has hidden, and the binary format it is saved in.
//!
//! The format is the magic header, then the bookmarks, then the hidden
//! defaults.  Each list is a little-endian `u32` count followed by each
//! path as a little-endian `u32` length and the path's bytes.

use vstd::prelude::*;
use vstd::string::StringSliceAdditionalSpecFns;

use crate::path::{
    components, copy_bytes, is_absolute, is_absolute_exec, is_child_of, is_plain_name, join,
    join_exec, lemma_join_plain_is_child, lemma_join_plain_name, same_path, same_path_exec,
    ComponentView,
};
use crate::text::{has_prefix, starts_with};

verus! {

/// The most bookmarks the store holds, and the most a saved list may hold.
pub const MAX_BOOKMARKS: usize = 128;

/// The longest path, in bytes, that the store saves.
pub const MAX_PATH_BYTES: usize = 4096;

/// Why the store could not be encoded or decoded.
#[derive(Clone, Copy, Debug, PartialEq, Eq, Structural)]
pub enum SidebarError {
    /// A list has more entries than a `u32` counts.
    TooManyBookmarks,
    /// A bookmark is empty, longer than [`MAX_PATH_BYTES`] or relative.
    InvalidPath,
    /// The data does not start with the magic header.
    InvalidHeader,
    /// A saved list has more than [`MAX_BOOKMARKS`] entries.
    TooManySaved,
    /// A saved path's length is zero, too large or beyond the data.
    InvalidLength,
    /// A saved path is relative.
    NotAbsolute,
    /// The data ends inside a count or a length.
    Truncated,
    /// Bytes follow the second list.
    TrailingData,
}

impl SidebarError {
    /// The message that goes with the error.
    pub fn message(self) -> (r: &'static str)
        ensures
            r@ == self.message_text(),
    {
        match self {
            SidebarError::TooManyBookmarks => "too many bookmarks",
            SidebarError::InvalidPath => "bookmark path is invalid",
            SidebarError::InvalidHeader => "invalid sidebar bookmark header",
            SidebarError::TooManySaved => "too many sidebar bookmarks",
            SidebarError::InvalidLength => "invalid sidebar bookmark length",
            SidebarError::NotAbsolute => "sidebar bookmark is not absolute",
            SidebarError::Truncated => "truncated sidebar bookmarks",
            SidebarError::TrailingData => "trailing sidebar bookmark data",
        }
    }

    pub open spec fn message_text(self) -> Seq<char> {
        match self {
            SidebarError::TooManyBookmarks => "too many bookmarks"@,
            SidebarError::InvalidPath => "bookmark path is invalid"@,
            SidebarError::InvalidHeader => "invalid sidebar bookmark header"@,
            SidebarError::TooManySaved => "too many sidebar bookmarks"@,
            SidebarError::InvalidLength => "invalid sidebar bookmark length"@,
            SidebarError::NotAbsolute => "sidebar bookmark is not absolute"@,
            SidebarError::Truncated => "truncated sidebar bookmarks"@,
            SidebarError::TrailingData => "trailing sidebar bookmark data"@,
        }
    }
}

/// The values of a list of paths.
pub open spec fn path_vals(s: Seq<Vec<u8>>) -> Seq<Seq<u8>> {
    s.map_values(|p: Vec<u8>| p@)
}

/// Some path in `ps` is the same path as `p`.
pub open spec fn has_path(ps: Seq<Seq<u8>>, p: Seq<u8>) -> bool {
    exists|i: int| 0 <= i < ps.len() && same_path(ps[i], p)
}

/// The index of the first path in `ps` that is the same path as `p`, or
/// `ps.len()`.
pub open spec fn first_match(ps: Seq<Seq<u8>>, p: Seq<u8>) -> int
    decreases ps.len(),
{
    if ps.len() == 0 {
        0
    } else if same_path(ps[0], p) {
        0
    } else {
        1 + first_match(ps.drop_first(), p)
    }
}

/// No two paths of `ps` are the same path.
pub open spec fn distinct_paths(ps: Seq<Seq<u8>>) -> bool {
    forall|i: int, j: int| 0 <= i < j < ps.len() ==> !same_path(ps[i], ps[j])
}

/// The user's sidebar bookmarks and the default folders hidden from it.
#[derive(Clone, Debug, PartialEq, Eq)]
pub struct SidebarBookmarks {
    pub paths: Vec<Vec<u8>>,
    pub hidden_defaults: Vec<Vec<u8>>,
}

/// The value of a bookmark store.
pub struct SidebarBookmarksView {
    pub paths: Seq<Seq<u8>>,
    pub hidden_defaults: Seq<Seq<u8>>,
}

impl View for SidebarBookmarks {
    type V = SidebarBookmarksView;

    open spec fn view(&self) -> SidebarBookmarksView {
        SidebarBookmarksView {
            paths: path_vals(self.paths@),
            hidden_defaults: path_vals(self.hidden_defaults@),
        }
    }
}

impl Default for SidebarBookmarks {
    fn default() -> (r: SidebarBookmarks)
        ensures
            r@.paths == Seq::<Seq<u8>>::empty(),
            r@.hidden_defaults == Seq::<Seq<u8>>::empty(),
    {
        let r = SidebarBookmarks { paths: Vec::new(), hidden_defaults: Vec::new() };
        assert(r@.paths =~= Seq::<Seq<u8>>::empty());
        assert(r@.hidden_defaults =~= Seq::<Seq<u8>>::empty());
        r
    }
}

/// Whether some path of `ps` is the same path as `p`.
fn has_path_exec(ps: &Vec<Vec<u8>>, p: &[u8]) -> (r: bool)
    ensures
        r == has_path(path_vals(ps@), p@),
{
    proof {
        lemma_first_match(path_vals(ps@), p@);
    }
    first_match_exec(ps, p) < ps.len()
}

proof fn lemma_first_match(ps: Seq<Seq<u8>>, p: Seq<u8>)
    ensures
        0 <= first_match(ps, p) <= ps.len(),
        first_match(ps, p) < ps.len() ==> same_path(ps[first_match(ps, p)], p),
        forall|i: int| 0 <= i < first_match(ps, p) ==> !same_path(#[trigger] ps[i], p),
        has_path(ps, p) <==> first_match(ps, p) < ps.len(),
    decreases ps.len(),
{
    if ps.len() > 0 && !same_path(ps[0], p) {
        lemma_first_match(ps.drop_first(), p);
        assert forall|i: int| 0 <= i < first_match(ps, p) implies !same_path(#[trigger] ps[i], p) by {
            if i > 0 {
                assert(ps[i] == ps.drop_first()[i - 1]);
            }
        }
        if has_path(ps, p) {
            let i = choose|i: int| 0 <= i < ps.len() && same_path(ps[i], p);
            assert(i > 0);
            assert(ps.drop_first()[i - 1] == ps[i]);
        }
        if first_match(ps, p) < ps.len() {
            assert(ps.drop_first()[first_match(ps.drop_first(), p)] == ps[first_match(ps, p)]);
        }
    }
}

/// The index of the first path of `ps` that is the same path as `p`, or
/// the length of `ps`.
fn first_match_exec(ps: &Vec<Vec<u8>>, p: &[u8]) -> (r: usize)
    ensures
        r == first_match(path_vals(ps@), p@),
{
    let ghost vals = path_vals(ps@);
    proof {
        lemma_first_match(vals, p@);
    }
    let mut i: usize = 0;
    while i < ps.len()
        invariant
            i <= ps@.len(),
            vals == path_vals(ps@),
            0 <= first_match(vals, p@) <= vals.len(),
            forall|j: int| 0 <= j < first_match(vals, p@) ==> !same_path(#[trigger] vals[j], p@),
            first_match(vals, p@) < vals.len() ==> same_path(vals[first_match(vals, p@)], p@),
            i <= first_match(vals, p@),
        decreases ps@.len() - i,
    {
        if same_path_exec(ps[i].as_slice(), p) {
            assert(vals[i as int] == ps@[i as int]@);
            return i;
        }
        assert(vals[i as int] == ps@[i as int]@);
        i = i + 1;
    }
    i
}

/// A copy of a list of paths.
fn copy_paths(ps: &Vec<Vec<u8>>) -> (r: Vec<Vec<u8>>)
    ensures
        path_vals(r@) == path_vals(ps@),
{
    let mut r: Vec<Vec<u8>> = Vec::new();
    let mut i: usize = 0;
    while i < ps.len()
        invariant
            i <= ps@.len(),
            path_vals(r@) == path_vals(ps@).take(i as int),
        decreases ps@.len() - i,
    {
        let ghost before = path_vals(r@);
        let c = copy_bytes(ps[i].as_slice());
        let ghost cv = c@;
        r.push(c);
        assert(path_vals(r@) =~= before.push(cv));
        assert(path_vals(ps@)[i as int] == cv);
        i = i + 1;
        assert(path_vals(r@) =~= path_vals(ps@).take(i as int));
    }
    assert(path_vals(ps@).take(i as int) =~= path_vals(ps@));
    r
}

impl SidebarBookmarks {
    /// A copy of the store.
    pub fn duplicate(&self) -> (r: SidebarBookmarks)
        ensures
            r@ == self@,
    {
        SidebarBookmarks {
            paths: copy_paths(&self.paths),
            hidden_defaults: copy_paths(&self.hidden_defaults),
        }
    }

    /// The bookmarks, in the order they were added.
    pub fn paths(&self) -> (r: &[Vec<u8>])
        ensures
            path_vals(r@) == self@.paths,
    {
        self.paths.as_slice()
    }

    /// Whether `path` is bookmarked.
    pub fn contains(&self, path: &[u8]) -> (r: bool)
        ensures
            r == has_path(self@.paths, path@),
    {
        has_path_exec(&self.paths, path)
    }

    /// Whether the default folder `path` is hidden.
    pub fn hides_default(&self, path: &[u8]) -> (r: bool)
        ensures
            r == has_path(self@.hidden_defaults, path@),
    {
        has_path_exec(&self.hidden_defaults, path)
    }

    /// Bookmarks `path`, unless the store is full or `path` is bookmarked
    /// already.
    pub fn add(&mut self, path: Vec<u8>) -> (r: bool)
        ensures
            r == (old(self)@.paths.len() < MAX_BOOKMARKS && !has_path(old(self)@.paths, path@)),
            r ==> final(self)@.paths == old(self)@.paths.push(path@),
            !r ==> final(self)@.paths == old(self)@.paths,
            final(self)@.hidden_defaults == old(self)@.hidden_defaults,
    {
        if self.paths.len() >= MAX_BOOKMARKS || self.contains(path.as_slice()) {
            return false;
        }
        let ghost before = self@.paths;
        let ghost pv = path@;
        self.paths.push(path);
        assert(self@.paths =~= before.push(pv));
        true
    }

    /// Removes the first bookmark that is the same path as `path`.
    pub fn remove(&mut self, path: &[u8]) -> (r: bool)
        ensures
            r == has_path(old(self)@.paths, path@),
            r ==> final(self)@.paths == old(self)@.paths.remove(
                first_match(old(self)@.paths, path@),
            ),
            !r ==> final(self)@.paths == old(self)@.paths,
            final(self)@.hidden_defaults == old(self)@.hidden_defaults,
    {
        proof {
            lemma_first_match(self@.paths, path@);
        }
        let index = first_match_exec(&self.paths, path);
        if index >= self.paths.len() {
            return false;
        }
        let ghost before = self@.paths;
        self.paths.remove(index);
        assert(self@.paths =~= before.remove(index as int));
        true
    }

    /// Hides the default folder `path`, unless it is hidden already.
    pub fn hide_default(&mut self, path: Vec<u8>) -> (r: bool)
        ensures
            r == !has_path(old(self)@.hidden_defaults, path@),
            r ==> final(self)@.hidden_defaults == old(self)@.hidden_defaults.push(path@),
            !r ==> final(self)@.hidden_defaults == old(self)@.hidden_defaults,
            final(self)@.paths == old(self)@.paths,
    {
        if self.hides_default(path.as_slice()) {
            return false;
        }
        let ghost before = self@.hidden_defaults;
        let ghost pv = path@;
        self.hidden_defaults.push(path);
        assert(self@.hidden_defaults =~= before.push(pv));
        true
    }

    /// Shows the default folder `path` again: removes the first hidden
    /// default that is the same path.
    pub fn restore_default(&mut self, path: &[u8]) -> (r: bool)
        ensures
            r == has_path(old(self)@.hidden_defaults, path@),
            r ==> final(self)@.hidden_defaults == old(self)@.hidden_defaults.remove(
                first_match(old(self)@.hidden_defaults, path@),
            ),
            !r ==> final(self)@.hidden_defaults == old(self)@.hidden_defaults,
            final(self)@.paths == old(self)@.paths,
    {
        proof {
            lemma_first_match(self@.hidden_defaults, path@);
        }
        let index = first_match_exec(&self.hidden_defaults, path);
        if index >= self.hidden_defaults.len() {
            return false;
        }
        let ghost before = self@.hidden_defaults;
        self.hidden_defaults.remove(index);
        assert(self@.hidden_defaults =~= before.remove(index as int));
        true
    }
}

/// The magic header of the saved store.
pub open spec fn magic_bytes() -> Seq<u8> {
    "MOCHIOS-FILES-SIDEBAR".spec_bytes() + seq![0u8, 1u8]
}

/// The magic header of the saved store.
pub fn sidebar_magic() -> (r: Vec<u8>)
    ensures
        r@ == magic_bytes(),
{
    let mut r = copy_bytes("MOCHIOS-FILES-SIDEBAR".as_bytes());
    r.push(0);
    r.push(1);
    r
}

/// The little-endian bytes of a `u32`.
pub open spec fn le32(n: int) -> Seq<u8> {
    seq![(n % 256) as u8, ((n / 256) % 256) as u8, ((n / 65536) % 256) as u8, (n / 16777216) as u8]
}

/// The `u32` whose little-endian bytes start at `c`.
pub open spec fn u32_at(bytes: Seq<u8>, c: int) -> int {
    bytes[c] + 256 * (bytes[c + 1] + 256 * (bytes[c + 2] + 256 * bytes[c + 3] as int))
}

/// A path that the store can save: not empty, at most [`MAX_PATH_BYTES`]
/// bytes, absolute.
pub open spec fn valid_bookmark(p: Seq<u8>) -> bool {
    0 < p.len() <= MAX_PATH_BYTES && is_absolute(p)
}

/// The saved form of one path: its length, then its bytes.
pub open spec fn encode_entry(p: Seq<u8>) -> Seq<u8> {
    le32(p.len() as int) + p
}

/// The saved forms of the paths, one after another.
pub open spec fn encode_entries(ps: Seq<Seq<u8>>) -> Seq<u8>
    decreases ps.len(),
{
    if ps.len() == 0 {
        Seq::empty()
    } else {
        encode_entry(ps[0]) + encode_entries(ps.drop_first())
    }
}

/// The index of the first path that cannot be saved, or `ps.len()`.
pub open spec fn first_invalid(ps: Seq<Seq<u8>>) -> int
    decreases ps.len(),
{
    if ps.len() == 0 {
        0
    } else if !valid_bookmark(ps[0]) {
        0
    } else {
        1 + first_invalid(ps.drop_first())
    }
}

/// What saving a list writes, and the error it stops with, if any: the
/// count, then each path up to the first one that cannot be saved.
pub open spec fn encode_list(ps: Seq<Seq<u8>>) -> (Seq<u8>, Option<SidebarError>) {
    if ps.len() > u32::MAX {
        (Seq::empty(), Some(SidebarError::TooManyBookmarks))
    } else {
        let k = first_invalid(ps);
        (
            le32(ps.len() as int) + encode_entries(ps.take(k)),
            if k < ps.len() {
                Some(SidebarError::InvalidPath)
            } else {
                None
            },
        )
    }
}

/// The saved form of a store, or the error that saving it stops with.
pub open spec fn encoded(b: SidebarBookmarksView) -> Result<Seq<u8>, SidebarError> {
    let (first, e1) = encode_list(b.paths);
    let (second, e2) = encode_list(b.hidden_defaults);
    if e1 is Some {
        Err(e1->Some_0)
    } else if e2 is Some {
        Err(e2->Some_0)
    } else {
        Ok(magic_bytes() + first + second)
    }
}

/// `acc` with `p` appended, unless it holds the same path already.
pub open spec fn add_unique(acc: Seq<Seq<u8>>, p: Seq<u8>) -> Seq<Seq<u8>> {
    if has_path(acc, p) {
        acc
    } else {
        acc.push(p)
    }
}

/// Reads `n` saved paths at `c` into `acc`: the outcome, and where the
/// cursor stands afterwards.
pub open spec fn parse_items(bytes: Seq<u8>, c: int, n: nat, acc: Seq<Seq<u8>>) -> (
    Result<Seq<Seq<u8>>, SidebarError>,
    int,
)
    decreases n,
{
    if n == 0 {
        (Ok(acc), c)
    } else if c + 4 > bytes.len() {
        (Err(SidebarError::Truncated), c)
    } else {
        let len = u32_at(bytes, c);
        let start = c + 4;
        if len == 0 || len > MAX_PATH_BYTES || start + len > bytes.len() {
            (Err(SidebarError::InvalidLength), start)
        } else {
            let p = bytes.subrange(start, start + len);
            if !is_absolute(p) {
                (Err(SidebarError::NotAbsolute), start + len)
            } else {
                parse_items(bytes, start + len, (n - 1) as nat, add_unique(acc, p))
            }
        }
    }
}

/// Reads a saved list at `c`: the outcome, and where the cursor stands
/// afterwards.
pub open spec fn parse_list(bytes: Seq<u8>, c: int) -> (Result<Seq<Seq<u8>>, SidebarError>, int) {
    if c + 4 > bytes.len() {
        (Err(SidebarError::Truncated), c)
    } else {
        let count = u32_at(bytes, c);
        if count > MAX_BOOKMARKS {
            (Err(SidebarError::TooManySaved), c + 4)
        } else {
            parse_items(bytes, c + 4, count as nat, Seq::empty())
        }
    }
}

/// The store saved in `bytes`, or why it cannot be read.
pub open spec fn decoded(bytes: Seq<u8>) -> Result<SidebarBookmarksView, SidebarError> {
    if !has_prefix(bytes, magic_bytes()) {
        Err(SidebarError::InvalidHeader)
    } else {
        let (first, c1) = parse_list(bytes, magic_bytes().len() as int);
        match first {
            Err(e) => Err(e),
            Ok(paths) => {
                let (second, c2) = parse_list(bytes, c1);
                match second {
                    Err(e) => Err(e),
                    Ok(hidden) => if c2 != bytes.len() {
                        Err(SidebarError::TrailingData)
                    } else {
                        Ok(SidebarBookmarksView { paths: paths, hidden_defaults: hidden })
                    },
                }
            },
        }
    }
}

proof fn lemma_le32(n: int)
    requires
        0 <= n <= u32::MAX,
    ensures
        u32_at(le32(n), 0) == n,
        le32(n).len() == 4,
{
    let b0 = n % 256;
    let q1 = n / 256;
    let b1 = q1 % 256;
    let q2 = q1 / 256;
    let b2 = q2 % 256;
    let b3 = q2 / 256;
    assert(n / 65536 == q2);
    assert(n / 16777216 == b3);
    assert(b3 < 256);
    assert(n == b0 + 256 * (b1 + 256 * (b2 + 256 * b3)));
}

proof fn lemma_encode_entries_push(ps: Seq<Seq<u8>>, x: Seq<u8>)
    ensures
        encode_entries(ps.push(x)) == encode_entries(ps) + encode_entry(x),
    decreases ps.len(),
{
    if ps.len() == 0 {
        assert(ps.push(x).drop_first() =~= Seq::<Seq<u8>>::empty());
        assert(ps.push(x)[0] == x);
        assert(encode_entries(Seq::<Seq<u8>>::empty()) == Seq::<u8>::empty());
        assert(encode_entries(ps.push(x)) =~= encode_entry(x));
    } else {
        lemma_encode_entries_push(ps.drop_first(), x);
        assert(ps.push(x).drop_first() =~= ps.drop_first().push(x));
        assert(encode_entries(ps.push(x)) =~= encode_entries(ps) + encode_entry(x));
    }
}

proof fn lemma_first_invalid(ps: Seq<Seq<u8>>)
    ensures
        0 <= first_invalid(ps) <= ps.len(),
        forall|i: int| 0 <= i < first_invalid(ps) ==> valid_bookmark(#[trigger] ps[i]),
        first_invalid(ps) < ps.len() ==> !valid_bookmark(ps[first_invalid(ps)]),
    decreases ps.len(),
{
    if ps.len() > 0 && valid_bookmark(ps[0]) {
        lemma_first_invalid(ps.drop_first());
        assert forall|i: int| 0 <= i < first_invalid(ps) implies valid_bookmark(#[trigger] ps[i]) by {
            if i > 0 {
                assert(ps[i] == ps.drop_first()[i - 1]);
            }
        }
        if first_invalid(ps) < ps.len() {
            assert(ps.drop_first()[first_invalid(ps.drop_first())] == ps[first_invalid(ps)]);
        }
    }
}

/// Appends the little-endian bytes of `n`.
fn push_u32(bytes: &mut Vec<u8>, n: u32)
    ensures
        final(bytes)@ == old(bytes)@ + le32(n as int),
{
    bytes.push((n % 256) as u8);
    bytes.push(((n / 256) % 256) as u8);
    bytes.push(((n / 65536) % 256) as u8);
    bytes.push((n / 16777216) as u8);
    assert(bytes@ =~= old(bytes)@ + le32(n as int));
}

/// Appends the bytes of `raw`.
fn push_bytes(bytes: &mut Vec<u8>, raw: &[u8])
    ensures
        final(bytes)@ == old(bytes)@ + raw@,
{
    let mut k: usize = 0;
    while k < raw.len()
        invariant
            k <= raw@.len(),
            bytes@ == old(bytes)@ + raw@.subrange(0, k as int),
        decreases raw@.len() - k,
    {
        bytes.push(raw[k]);
        k = k + 1;
        assert(bytes@ =~= old(bytes)@ + raw@.subrange(0, k as int));
    }
    assert(raw@.subrange(0, raw@.len() as int) =~= raw@);
}

/// Appends the saved form of a list of paths: the count, then each path,
/// stopping at the first path that cannot be saved.
pub fn encode_paths(bytes: &mut Vec<u8>, paths: &[Vec<u8>]) -> (r: Result<(), SidebarError>)
    ensures
        final(bytes)@ == old(bytes)@ + encode_list(path_vals(paths@)).0,
        r is Err <==> encode_list(path_vals(paths@)).1 is Some,
        r matches Err(e) ==> encode_list(path_vals(paths@)).1 == Some(e),
{
    let ghost ps = path_vals(paths@);
    if paths.len() > 4294967295 {
        return Err(SidebarError::TooManyBookmarks);
    }
    proof {
        lemma_first_invalid(ps);
    }
    let ghost before = bytes@;
    push_u32(bytes, paths.len() as u32);
    let ghost start = bytes@;
    assert(start == before + le32(ps.len() as int));
    let mut i: usize = 0;
    assert(ps.take(0) =~= Seq::<Seq<u8>>::empty());
    while i < paths.len()
        invariant
            ps == path_vals(paths@),
            ps.len() <= u32::MAX,
            start == old(bytes)@ + le32(ps.len() as int),
            i <= paths@.len(),
            i <= first_invalid(ps),
            0 <= first_invalid(ps) <= ps.len(),
            forall|j: int| 0 <= j < first_invalid(ps) ==> valid_bookmark(#[trigger] ps[j]),
            first_invalid(ps) < ps.len() ==> !valid_bookmark(ps[first_invalid(ps)]),
            bytes@ == start + encode_entries(ps.take(i as int)),
        decreases paths@.len() - i,
    {
        let raw = paths[i].as_slice();
        assert(raw@ == ps[i as int]);
        if raw.len() == 0 || raw.len() > MAX_PATH_BYTES || !is_absolute_exec(raw) {
            assert(first_invalid(ps) == i);
            return Err(SidebarError::InvalidPath);
        }
        assert(i < first_invalid(ps)) by {
            if i == first_invalid(ps) {
            }
        }
        let ghost before = bytes@;
        push_u32(bytes, raw.len() as u32);
        push_bytes(bytes, raw);
        assert(bytes@ =~= before + encode_entry(ps[i as int]));
        proof {
            lemma_encode_entries_push(ps.take(i as int), ps[i as int]);
            assert(ps.take(i + 1) =~= ps.take(i as int).push(ps[i as int]));
        }
        i = i + 1;
        assert(bytes@ =~= start + encode_entries(ps.take(i as int)));
    }
    assert(first_invalid(ps) == ps.len());
    Ok(())
}

/// Reads a little-endian `u32` at the cursor and moves past it; fails
/// without moving when fewer than four bytes are left.
pub fn read_u32(bytes: &[u8], cursor: &mut usize) -> (r: Result<u32, SidebarError>)
    ensures
        old(cursor) + 4 <= bytes@.len() ==> r == Ok::<u32, SidebarError>(
            u32_at(bytes@, *old(cursor) as int) as u32,
        ) && *final(cursor) == *old(cursor) + 4,
        old(cursor) + 4 > bytes@.len() ==> r == Err::<u32, SidebarError>(SidebarError::Truncated)
            && *final(cursor) == *old(cursor),
        r matches Ok(v) ==> v == u32_at(bytes@, *old(cursor) as int),
{
    let c = *cursor;
    if c > bytes.len() || bytes.len() - c < 4 {
        return Err(SidebarError::Truncated);
    }
    let v = bytes[c] as u32 + 256 * (bytes[c + 1] as u32 + 256 * (bytes[c + 2] as u32 + 256
        * bytes[c + 3] as u32));
    *cursor = c + 4;
    Ok(v)
}

/// Reads a saved list of paths at the cursor and moves the cursor past
/// what it read; paths that repeat an earlier one are dropped.
pub fn decode_paths(bytes: &[u8], cursor: &mut usize) -> (r: Result<Vec<Vec<u8>>, SidebarError>)
    ensures
        *final(cursor) == parse_list(bytes@, *old(cursor) as int).1,
        parse_list(bytes@, *old(cursor) as int).0 matches Ok(ps) ==> r matches Ok(v) && path_vals(
            v@,
        ) == ps,
        parse_list(bytes@, *old(cursor) as int).0 matches Err(e) ==> r == Err::<
            Vec<Vec<u8>>,
            SidebarError,
        >(e),
{
    let ghost c0 = *cursor as int;
    let count = match read_u32(bytes, cursor) {
        Ok(v) => v,
        Err(e) => {
            return Err(e);
        },
    };
    if count as usize > MAX_BOOKMARKS {
        return Err(SidebarError::TooManySaved);
    }
    let count = count as usize;
    let mut paths: Vec<Vec<u8>> = Vec::new();
    let mut i: usize = 0;
    assert(path_vals(paths@) =~= Seq::<Seq<u8>>::empty());
    while i < count
        invariant
            i <= count,
            count <= MAX_BOOKMARKS,
            c0 == *old(cursor) as int,
            parse_list(bytes@, c0) == parse_items(
                bytes@,
                *cursor as int,
                (count - i) as nat,
                path_vals(paths@),
            ),
        decreases count - i,
    {
        let ghost n = (count - i) as nat;
        let ghost acc = path_vals(paths@);
        let ghost c_before = *cursor as int;
        assert(n > 0);
        let length = match read_u32(bytes, cursor) {
            Ok(v) => v as usize,
            Err(e) => {
                assert(parse_items(bytes@, c_before, n, acc) == (
                    Err::<Seq<Seq<u8>>, SidebarError>(SidebarError::Truncated),
                    c_before,
                ));
                return Err(e);
            },
        };
        let c = *cursor;
        assert(c == c_before + 4);
        assert(length == u32_at(bytes@, c_before));
        if length == 0 || length > MAX_PATH_BYTES || length > bytes.len() - c {
            assert(parse_items(bytes@, c_before, n, acc) == (
                Err::<Seq<Seq<u8>>, SidebarError>(SidebarError::InvalidLength),
                c as int,
            ));
            return Err(SidebarError::InvalidLength);
        }
        let path = copy_bytes(vstd::slice::slice_subrange(bytes, c, c + length));
        *cursor = c + length;
        if !is_absolute_exec(path.as_slice()) {
            return Err(SidebarError::NotAbsolute);
        }
        let ghost before = path_vals(paths@);
        let ghost pv = path@;
        if !has_path_exec(&paths, path.as_slice()) {
            paths.push(path);
            assert(path_vals(paths@) =~= before.push(pv));
        }
        assert(path_vals(paths@) == add_unique(before, pv));
        i = i + 1;
    }
    Ok(paths)
}

impl SidebarBookmarks {
    /// The saved form of the store.
    pub fn encode(&self) -> (r: Result<Vec<u8>, SidebarError>)
        ensures
            r matches Ok(v) ==> encoded(self@) == Ok::<Seq<u8>, SidebarError>(v@),
            r matches Err(e) ==> encoded(self@) == Err::<Seq<u8>, SidebarError>(e),
    {
        let mut bytes = sidebar_magic();
        if let Err(e) = encode_paths(&mut bytes, self.paths.as_slice()) {
            return Err(e);
        }
        if let Err(e) = encode_paths(&mut bytes, self.hidden_defaults.as_slice()) {
            return Err(e);
        }
        Ok(bytes)
    }

    /// The store saved in `bytes`.
    pub fn decode(bytes: &[u8]) -> (r: Result<SidebarBookmarks, SidebarError>)
        ensures
            r matches Ok(b) ==> decoded(bytes@) == Ok::<SidebarBookmarksView, SidebarError>(b@),
            r matches Err(e) ==> decoded(bytes@) == Err::<SidebarBookmarksView, SidebarError>(e),
    {
        let magic = sidebar_magic();
        if !starts_with(bytes, magic.as_slice()) {
            return Err(SidebarError::InvalidHeader);
        }
        let mut cursor = magic.len();
        let paths = match decode_paths(bytes, &mut cursor) {
            Ok(v) => v,
            Err(e) => {
                return Err(e);
            },
        };
        let hidden_defaults = match decode_paths(bytes, &mut cursor) {
            Ok(v) => v,
            Err(e) => {
                return Err(e);
            },
        };
        if cursor != bytes.len() {
            return Err(SidebarError::TrailingData);
        }
        Ok(SidebarBookmarks { paths, hidden_defaults })
    }
}

proof fn lemma_all_valid(ps: Seq<Seq<u8>>)
    requires
        forall|i: int| 0 <= i < ps.len() ==> valid_bookmark(#[trigger] ps[i]),
    ensures
        first_invalid(ps) == ps.len(),
    decreases ps.len(),
{
    if ps.len() > 0 {
        assert(valid_bookmark(ps[0]));
        assert forall|i: int| 0 <= i < ps.drop_first().len() implies valid_bookmark(
            #[trigger] ps.drop_first()[i],
        ) by {
            assert(ps.drop_first()[i] == ps[i + 1]);
        }
        lemma_all_valid(ps.drop_first());
    }
}

proof fn lemma_u32_at(bytes: Seq<u8>, c: int, n: int)
    requires
        0 <= n <= u32::MAX,
        0 <= c,
        c + 4 <= bytes.len(),
        bytes.subrange(c, c + 4) == le32(n),
    ensures
        u32_at(bytes, c) == n,
{
    lemma_le32(n);
    let w = bytes.subrange(c, c + 4);
    assert(bytes[c] == w[0]);
    assert(bytes[c + 1] == w[1]);
    assert(bytes[c + 2] == w[2]);
    assert(bytes[c + 3] == w[3]);
    assert(u32_at(bytes, c) == u32_at(w, 0));
}

proof fn lemma_parse_items(bytes: Seq<u8>, c: int, ps: Seq<Seq<u8>>, acc: Seq<Seq<u8>>)
    requires
        0 <= c,
        c + encode_entries(ps).len() <= bytes.len(),
        bytes.subrange(c, c + encode_entries(ps).len()) == encode_entries(ps),
        forall|i: int| 0 <= i < ps.len() ==> valid_bookmark(#[trigger] ps[i]),
        distinct_paths(acc + ps),
    ensures
        parse_items(bytes, c, ps.len(), acc) == (
            Ok::<Seq<Seq<u8>>, SidebarError>(acc + ps),
            c + encode_entries(ps).len(),
        ),
    decreases ps.len(),
{
    if ps.len() == 0 {
        assert(acc + ps =~= acc);
    } else {
        let p = ps[0];
        let rest = ps.drop_first();
        assert(valid_bookmark(p));
        let e = encode_entries(ps);
        assert(e == le32(p.len() as int) + p + encode_entries(rest));
        lemma_le32(p.len() as int);
        assert(bytes.subrange(c, c + 4) =~= e.subrange(0, 4));
        assert(e.subrange(0, 4) =~= le32(p.len() as int));
        lemma_u32_at(bytes, c, p.len() as int);
        let start = c + 4;
        assert(bytes.subrange(start, start + p.len()) =~= e.subrange(4, 4 + p.len() as int));
        assert(e.subrange(4, 4 + p.len() as int) =~= p);
        assert(!has_path(acc, p)) by {
            if has_path(acc, p) {
                let i = choose|i: int| 0 <= i < acc.len() && same_path(acc[i], p);
                assert((acc + ps)[i] == acc[i]);
                assert((acc + ps)[acc.len() as int] == p);
            }
        }
        assert(add_unique(acc, p) == acc.push(p));
        assert(acc.push(p) + rest =~= acc + ps);
        let c2 = start + p.len();
        assert(bytes.subrange(c2, c2 + encode_entries(rest).len()) =~= e.subrange(
            4 + p.len() as int,
            e.len() as int,
        ));
        assert(e.subrange(4 + p.len() as int, e.len() as int) =~= encode_entries(rest));
        assert forall|i: int| 0 <= i < rest.len() implies valid_bookmark(#[trigger] rest[i]) by {
            assert(rest[i] == ps[i + 1]);
        }
        lemma_parse_items(bytes, c2, rest, acc.push(p));
    }
}

proof fn lemma_parse_list(bytes: Seq<u8>, c: int, ps: Seq<Seq<u8>>)
    requires
        0 <= c,
        ps.len() <= MAX_BOOKMARKS,
        forall|i: int| 0 <= i < ps.len() ==> valid_bookmark(#[trigger] ps[i]),
        distinct_paths(ps),
        c + 4 + encode_entries(ps).len() <= bytes.len(),
        bytes.subrange(c, c + 4 + encode_entries(ps).len()) == le32(ps.len() as int)
            + encode_entries(ps),
    ensures
        parse_list(bytes, c) == (
            Ok::<Seq<Seq<u8>>, SidebarError>(ps),
            c + 4 + encode_entries(ps).len(),
        ),
{
    let whole = le32(ps.len() as int) + encode_entries(ps);
    lemma_le32(ps.len() as int);
    assert(bytes.subrange(c, c + 4) =~= whole.subrange(0, 4));
    assert(whole.subrange(0, 4) =~= le32(ps.len() as int));
    lemma_u32_at(bytes, c, ps.len() as int);
    assert(bytes.subrange(c + 4, c + 4 + encode_entries(ps).len()) =~= whole.subrange(
        4,
        whole.len() as int,
    ));
    assert(whole.subrange(4, whole.len() as int) =~= encode_entries(ps));
    assert(Seq::<Seq<u8>>::empty() + ps =~= ps);
    lemma_parse_items(bytes, c + 4, ps, Seq::empty());
}

/// A store that can be saved and read back: each list holds at most
/// [`MAX_BOOKMARKS`] paths, every path can be saved, and no list names a
/// path twice.
pub open spec fn savable(b: SidebarBookmarksView) -> bool {
    &&& b.paths.len() <= MAX_BOOKMARKS
    &&& b.hidden_defaults.len() <= MAX_BOOKMARKS
    &&& forall|i: int| 0 <= i < b.paths.len() ==> valid_bookmark(#[trigger] b.paths[i])
    &&& forall|i: int|
        0 <= i < b.hidden_defaults.len() ==> valid_bookmark(#[trigger] b.hidden_defaults[i])
    &&& distinct_paths(b.paths)
    &&& distinct_paths(b.hidden_defaults)
}

/// Saving a savable store succeeds, and reading the saved bytes gives the
/// store back.
#[verifier::spinoff_prover]
#[verifier::rlimit(40)]
pub proof fn lemma_round_trip(b: SidebarBookmarksView)
    requires
        savable(b),
    ensures
        encoded(b) is Ok,
        decoded(encoded(b)->Ok_0) == Ok::<SidebarBookmarksView, SidebarError>(b),
{
    let ps = b.paths;
    let hs = b.hidden_defaults;
    lemma_all_valid(ps);
    lemma_all_valid(hs);
    assert(ps.take(ps.len() as int) =~= ps);
    assert(hs.take(hs.len() as int) =~= hs);
    let l1 = le32(ps.len() as int) + encode_entries(ps);
    let l2 = le32(hs.len() as int) + encode_entries(hs);
    assert(encode_list(ps).0 == l1);
    assert(encode_list(hs).0 == l2);
    let m = magic_bytes();
    let bytes = m + l1 + l2;
    assert(encoded(b) == Ok::<Seq<u8>, SidebarError>(bytes));
    assert(bytes.subrange(0, m.len() as int) =~= m);
    let c1 = m.len() as int;
    assert(bytes.subrange(c1, c1 + l1.len()) =~= l1);
    lemma_parse_list(bytes, c1, ps);
    let c2 = c1 + l1.len();
    assert(bytes.subrange(c2, c2 + l2.len()) =~= l2);
    lemma_parse_list(bytes, c2, hs);
    assert(c2 + l2.len() == bytes.len());
}

proof fn lemma_parse_items_distinct(bytes: Seq<u8>, c: int, n: nat, acc: Seq<Seq<u8>>)
    requires
        distinct_paths(acc),
    ensures
        parse_items(bytes, c, n, acc).0 matches Ok(ps) ==> distinct_paths(ps) && ps.len()
            <= acc.len() + n,
    decreases n,
{
    if n > 0 && c + 4 <= bytes.len() {
        let len = u32_at(bytes, c);
        let start = c + 4;
        if !(len == 0 || len > MAX_PATH_BYTES || start + len > bytes.len()) {
            let p = bytes.subrange(start, start + len);
            if is_absolute(p) {
                let next = add_unique(acc, p);
                assert(distinct_paths(next)) by {
                    if !has_path(acc, p) {
                        assert forall|i: int, j: int| 0 <= i < j < next.len() implies !same_path(
                            next[i],
                            next[j],
                        ) by {
                            if j == acc.len() {
                                assert(next[i] == acc[i]);
                            } else {
                                assert(next[i] == acc[i]);
                                assert(next[j] == acc[j]);
                            }
                        }
                    }
                }
                lemma_parse_items_distinct(bytes, start + len, (n - 1) as nat, next);
            }
        }
    }
}

/// A store read from bytes holds at most [`MAX_BOOKMARKS`] paths in each
/// list and never names a path twice in a list: repeated paths are
/// dropped.
pub proof fn lemma_decoded_is_deduplicated(bytes: Seq<u8>)
    ensures
        decoded(bytes) matches Ok(b) ==> distinct_paths(b.paths) && distinct_paths(
            b.hidden_defaults,
        ) && b.paths.len() <= MAX_BOOKMARKS && b.hidden_defaults.len() <= MAX_BOOKMARKS,
{
    let empty = Seq::<Seq<u8>>::empty();
    let c1 = magic_bytes().len() as int;
    if c1 + 4 <= bytes.len() {
        lemma_parse_items_distinct(bytes, c1 + 4, u32_at(bytes, c1) as nat, empty);
    }
    let c2 = parse_list(bytes, c1).1;
    if c2 + 4 <= bytes.len() {
        lemma_parse_items_distinct(bytes, c2 + 4, u32_at(bytes, c2) as nat, empty);
    }
}

/// Adding a path that can be saved, when the store takes it, keeps the
/// store savable.
pub proof fn lemma_add_keeps_savable(b: SidebarBookmarksView, p: Seq<u8>)
    requires
        savable(b),
        valid_bookmark(p),
        b.paths.len() < MAX_BOOKMARKS,
        !has_path(b.paths, p),
    ensures
        savable(SidebarBookmarksView { paths: b.paths.push(p), hidden_defaults: b.hidden_defaults }),
{
    let next = b.paths.push(p);
    assert forall|i: int| 0 <= i < next.len() implies valid_bookmark(#[trigger] next[i]) by {
        if i < b.paths.len() {
            assert(next[i] == b.paths[i]);
        }
    }
    assert forall|i: int, j: int| 0 <= i < j < next.len() implies !same_path(next[i], next[j]) by {
        assert(next[i] == b.paths[i]);
        if j < b.paths.len() {
            assert(next[j] == b.paths[j]);
        }
    }
}

/// A path just added is found.
pub proof fn lemma_added_is_found(ps: Seq<Seq<u8>>, p: Seq<u8>)
    ensures
        has_path(ps.push(p), p),
{
    assert(same_path(ps.push(p)[ps.len() as int], p));
}

/// Removing a path from a list without repeats leaves no entry that is the
/// same path.
pub proof fn lemma_removed_is_gone(ps: Seq<Seq<u8>>, p: Seq<u8>)
    requires
        distinct_paths(ps),
        has_path(ps, p),
    ensures
        !has_path(ps.remove(first_match(ps, p)), p),
{
    lemma_first_match(ps, p);
    let k = first_match(ps, p);
    let rest = ps.remove(k);
    if has_path(rest, p) {
        let i = choose|i: int| 0 <= i < rest.len() && same_path(rest[i], p);
        if i < k {
            assert(rest[i] == ps[i]);
            assert(same_path(ps[i], ps[k]));
        } else {
            assert(rest[i] == ps[i + 1]);
            assert(same_path(ps[k], ps[i + 1]));
        }
    }
}

/// Removing a path that was just added to a list that did not hold it
/// gives the list back.
pub proof fn lemma_remove_undoes_add(ps: Seq<Seq<u8>>, p: Seq<u8>)
    requires
        !has_path(ps, p),
    ensures
        ps.push(p).remove(first_match(ps.push(p), p)) == ps,
{
    lemma_first_match(ps.push(p), p);
    let k = first_match(ps.push(p), p);
    if k < ps.len() {
        assert(ps.push(p)[k] == ps[k]);
    }
    lemma_added_is_found(ps, p);
    assert(k == ps.len());
    assert(ps.push(p).remove(k) =~= ps);
}

/// A byte that a user name may hold: an ASCII letter or digit, `_` or `-`.
pub open spec fn user_name_byte(b: u8) -> bool {
    (48 <= b <= 57) || (65 <= b <= 90) || (97 <= b <= 122) || b == 95 || b == 45
}

/// A user name that cannot leave the application's storage: one to 64
/// bytes, each of them allowed.
pub open spec fn valid_user(name: Seq<u8>) -> bool {
    0 < name.len() <= 64 && forall|i: int| 0 <= i < name.len() ==> user_name_byte(#[trigger] name[i])
}

/// Whether `value` may name the user's storage directory.
pub fn valid_user_name(value: &str) -> (r: bool)
    ensures
        r == valid_user(value.spec_bytes()),
{
    let bytes = value.as_bytes();
    if bytes.len() == 0 || bytes.len() > 64 {
        return false;
    }
    let mut i: usize = 0;
    while i < bytes.len()
        invariant
            i <= bytes@.len(),
            bytes@ == value.spec_bytes(),
            0 < bytes@.len() <= 64,
            forall|j: int| 0 <= j < i ==> user_name_byte(#[trigger] bytes@[j]),
        decreases bytes@.len() - i,
    {
        let b = bytes[i];
        if !((48 <= b && b <= 57) || (65 <= b && b <= 90) || (97 <= b && b <= 122) || b == 95 || b
            == 45) {
            assert(!user_name_byte(bytes@[i as int]));
            return false;
        }
        i = i + 1;
    }
    true
}

/// Where the store of `user` is saved under `root`: `root/user/sidebar-v1`,
/// for a valid user name.
pub fn storage_path(root: &[u8], user: &str) -> (r: Option<Vec<u8>>)
    ensures
        r is Some <==> valid_user(user.spec_bytes()),
        r matches Some(p) ==> p@ == join(join(root@, user.spec_bytes()), "sidebar-v1".spec_bytes()),
{
    if !valid_user_name(user) {
        return None;
    }
    let dir = join_exec(root, user.as_bytes());
    Some(join_exec(dir.as_slice(), "sidebar-v1".as_bytes()))
}

proof fn lemma_valid_user_is_plain(user: Seq<u8>)
    requires
        valid_user(user),
    ensures
        is_plain_name(user),
{
    assert(!user.contains(47u8)) by {
        if user.contains(47u8) {
            let i = choose|i: int| 0 <= i < user.len() && user[i] == 47u8;
            assert(user_name_byte(user[i]));
        }
    }
    assert(user[0] != 46u8) by {
        assert(user_name_byte(user[0]));
    }
}

proof fn lemma_store_name_is_plain()
    ensures
        is_plain_name("sidebar-v1".spec_bytes()),
{
    reveal_strlit("sidebar-v1");
    broadcast use vstd::string::is_ascii_spec_bytes;

    assert(vstd::string::is_ascii("sidebar-v1"));
    let b = "sidebar-v1".spec_bytes();
    assert(b =~= seq![115u8, 105u8, 100u8, 101u8, 98u8, 97u8, 114u8, 45u8, 118u8, 49u8]);
    assert(!b.contains(47u8)) by {
        if b.contains(47u8) {
            let i = choose|i: int| 0 <= i < b.len() && b[i] == 47u8;
        }
    }
}

/// The store of a user with a valid name is the file `sidebar-v1` in that
/// user's own directory, which lies directly inside the storage root: a
/// user name cannot lead out of the application's storage.
pub proof fn lemma_storage_stays_in_root(root: Seq<u8>, user: Seq<u8>)
    requires
        valid_user(user),
    ensures
        is_child_of(join(root, user), root),
        is_child_of(join(join(root, user), "sidebar-v1".spec_bytes()), join(root, user)),
        components(join(join(root, user), "sidebar-v1".spec_bytes())) == components(root) + seq![
            ComponentView::Normal(user),
            ComponentView::Normal("sidebar-v1".spec_bytes()),
        ],
{
    lemma_valid_user_is_plain(user);
    lemma_store_name_is_plain();
    lemma_join_plain_is_child(root, user);
    lemma_join_plain_is_child(join(root, user), "sidebar-v1".spec_bytes());
    lemma_join_plain_name(root, user);
    lemma_join_plain_name(join(root, user), "sidebar-v1".spec_bytes());
    assert(components(root) + seq![ComponentView::Normal(user)] + seq![
        ComponentView::Normal("sidebar-v1".spec_bytes()),
    ] =~= components(root) + seq![
        ComponentView::Normal(user),
        ComponentView::Normal("sidebar-v1".spec_bytes()),
    ]);
}

} // verus!
