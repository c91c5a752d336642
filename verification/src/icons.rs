//! Which icon an entry of the listing is drawn with, and which document
//! icons a listing asks the system for.

use vstd::prelude::*;
use vstd::string::StringSliceAdditionalSpecFns;
use vstd::utf8::valid_utf8;

use crate::entry::{entry_views, lex_rank, EntryKind, FileEntry, FileEntryView};
use crate::path::{extension, extension_exec, same_path};
use crate::sidebar::path_vals;
use crate::places::{uses_application_icon, SidebarIcon};
use crate::strings::is_utf8;
use crate::text::{lower, to_ascii_lower};

verus! {

/// The icon of an entry: the application icon for applications and for
/// the applications folder, the folder icon for other folders, the file
/// icon for everything else.
pub open spec fn entry_icon_of(e: FileEntryView) -> SidebarIcon {
    if e.kind == EntryKind::Application || same_path(e.path, "/applications".spec_bytes()) {
        SidebarIcon::Application
    } else if e.kind == EntryKind::Directory {
        SidebarIcon::Folder
    } else {
        SidebarIcon::File
    }
}

/// The icon an entry is drawn with, where no document icon replaces it.
pub fn entry_icon(entry: &FileEntry) -> (r: SidebarIcon)
    ensures
        r == entry_icon_of(entry@),
{
    if uses_application_icon(entry) {
        return SidebarIcon::Application;
    }
    match entry.kind {
        EntryKind::Directory => SidebarIcon::Folder,
        EntryKind::Application => SidebarIcon::Application,
        _ => SidebarIcon::File,
    }
}

/// The key that the document icon of the file at `path` is found by: its
/// extension in lower case, where it has one that is valid UTF-8.
pub open spec fn icon_key(path: Seq<u8>) -> Option<Seq<u8>> {
    match extension(path) {
        Some(e) => if valid_utf8(e) {
            Some(lower(e))
        } else {
            None
        },
        None => None,
    }
}

/// The key that the document icon of the file at `path` is found by.
pub fn document_icon_key(path: &[u8]) -> (r: Option<Vec<u8>>)
    ensures
        match r {
            Some(k) => icon_key(path@) == Some(k@),
            None => icon_key(path@) is None,
        },
{
    match extension_exec(path) {
        Some(e) => if is_utf8(e.as_slice()) {
            Some(to_ascii_lower(e.as_slice()))
        } else {
            None
        },
        None => None,
    }
}

/// The key of a file entry among `es` that wants a document icon.
pub open spec fn wanted_key(es: Seq<FileEntryView>, k: Seq<u8>) -> bool {
    exists|i: int|
        0 <= i < es.len() && !es[i].is_directory() && #[trigger] icon_key(es[i].path) == Some(k)
}

/// Each key comes before the next in byte order.
pub open spec fn strictly_ascending(ks: Seq<Seq<u8>>) -> bool {
    forall|i: int, j: int| 0 <= i < j < ks.len() ==> lex_rank(#[trigger] ks[i], #[trigger] ks[j]) < 0
}

proof fn lemma_rank_flip(a: Seq<u8>, b: Seq<u8>)
    ensures
        lex_rank(a, b) == -lex_rank(b, a),
        lex_rank(a, b) == 0 <==> a == b,
        -1 <= lex_rank(a, b) <= 1,
    decreases a.len(),
{
    if a.len() > 0 && b.len() > 0 && a[0] == b[0] {
        lemma_rank_flip(a.drop_first(), b.drop_first());
        if a.drop_first() == b.drop_first() {
            assert(a =~= seq![a[0]] + a.drop_first());
            assert(b =~= seq![b[0]] + b.drop_first());
        }
    }
    if a.len() == 0 && b.len() == 0 {
        assert(a =~= b);
    }
}

proof fn lemma_rank_trans(a: Seq<u8>, b: Seq<u8>, c: Seq<u8>)
    requires
        lex_rank(a, b) < 0,
        lex_rank(b, c) < 0,
    ensures
        lex_rank(a, c) < 0,
    decreases a.len(),
{
    if a.len() > 0 && b.len() > 0 && c.len() > 0 && a[0] == b[0] && b[0] == c[0] {
        lemma_rank_trans(a.drop_first(), b.drop_first(), c.drop_first());
    }
}

/// The keys that a listing asks document icons for: those of its file
/// entries, each once, in byte order.
pub fn requested_extensions(entries: &Vec<FileEntry>) -> (r: Vec<Vec<u8>>)
    ensures
        strictly_ascending(path_vals(r@)),
        forall|k: Seq<u8>|
            path_vals(r@).contains(k) <==> wanted_key(entry_views(entries@), k),
{
    let ghost es = entry_views(entries@);
    let mut keys: Vec<Vec<u8>> = Vec::new();
    let mut i: usize = 0;
    while i < entries.len()
        invariant
            i <= entries@.len(),
            es == entry_views(entries@),
            strictly_ascending(path_vals(keys@)),
            forall|k: Seq<u8>|
                path_vals(keys@).contains(k) <==> wanted_key(es.take(i as int), k),
        decreases entries@.len() - i,
    {
        let ghost before = path_vals(keys@);
        assert(es.take(i + 1) =~= es.take(i as int).push(es[i as int]));
        assert(es[i as int] == entries@[i as int]@);
        let key = if entries[i].is_directory() {
            None
        } else {
            document_icon_key(entries[i].path.as_slice())
        };
        let ghost added: Option<Seq<u8>> = match &key {
            Some(k) => Some(k@),
            None => None,
        };
        assert(added matches Some(a) ==> !es[i as int].is_directory() && icon_key(es[i as int].path)
            == Some(a));
        assert(added is None ==> es[i as int].is_directory() || icon_key(es[i as int].path) is None);
        match key {
            Some(k) => {
                insert_key(&mut keys, k);
            },
            None => {},
        }
        proof {
            let after = path_vals(keys@);
            assert(forall|x: Seq<u8>| after.contains(x) <==> (before.contains(x) || added == Some(x)));
            assert forall|x: Seq<u8>| after.contains(x) <==> wanted_key(es.take(i + 1), x) by {
                let prefix = es.take(i as int);
                let longer = es.take(i + 1);
                if wanted_key(longer, x) {
                    let j = choose|j: int|
                        0 <= j < longer.len() && !longer[j].is_directory() && #[trigger] icon_key(
                            longer[j].path,
                        ) == Some(x);
                    if j < i {
                        assert(prefix[j] == longer[j]);
                        assert(wanted_key(prefix, x));
                    } else {
                        assert(longer[j] == es[i as int]);
                        assert(added == Some(x));
                    }
                }
                if wanted_key(prefix, x) {
                    let j = choose|j: int|
                        0 <= j < prefix.len() && !prefix[j].is_directory() && #[trigger] icon_key(
                            prefix[j].path,
                        ) == Some(x);
                    assert(longer[j] == prefix[j]);
                    assert(wanted_key(longer, x));
                }
                if added == Some(x) {
                    assert(longer[i as int] == es[i as int]);
                    assert(wanted_key(longer, x));
                }
            }
        }
        i = i + 1;
    }
    assert(es.take(i as int) =~= es);
    keys
}

/// Puts `k` into the ascending keys `keys`, where it is not there yet.
fn insert_key(keys: &mut Vec<Vec<u8>>, k: Vec<u8>)
    requires
        strictly_ascending(path_vals(old(keys)@)),
    ensures
        strictly_ascending(path_vals(final(keys)@)),
        forall|x: Seq<u8>|
            path_vals(final(keys)@).contains(x) <==> (path_vals(
                old(keys)@,
            ).contains(x) || x == k@),
{
    let ghost old_vals = path_vals(keys@);
    let mut p: usize = 0;
    while p < keys.len()
        invariant
            p <= keys@.len(),
            keys@ == old(keys)@,
            old_vals == path_vals(keys@),
            strictly_ascending(old_vals),
            forall|j: int| 0 <= j < p ==> lex_rank(#[trigger] old_vals[j], k@) < 0,
        ensures
            p <= keys@.len(),
            keys@ == old(keys)@,
            forall|j: int| 0 <= j < p ==> lex_rank(#[trigger] old_vals[j], k@) < 0,
            p < keys@.len() ==> lex_rank(old_vals[p as int], k@) > 0,
        decreases keys@.len() - p,
    {
        let rank = crate::entry::lex_rank_exec(keys[p].as_slice(), k.as_slice());
        assert(old_vals[p as int] == keys@[p as int]@);
        if rank == 0 {
            proof {
                lemma_rank_flip(old_vals[p as int], k@);
                assert(old_vals.contains(k@));
            }
            return;
        }
        if rank > 0 {
            break;
        }
        p = p + 1;
    }
    proof {
        assert forall|j: int| p <= j < old_vals.len() implies lex_rank(k@, #[trigger] old_vals[j]) < 0 by {
            lemma_rank_flip(old_vals[p as int], k@);
            if j > p {
                lemma_rank_trans(k@, old_vals[p as int], old_vals[j]);
            }
        }
    }
    keys.insert(p, k);
    let ghost new_vals = path_vals(keys@);
    assert(new_vals =~= old_vals.insert(p as int, k@));
    proof {
        assert forall|i: int, j: int| 0 <= i < j < new_vals.len() implies lex_rank(
            #[trigger] new_vals[i],
            #[trigger] new_vals[j],
        ) < 0 by {
            if j < p {
                assert(new_vals[i] == old_vals[i] && new_vals[j] == old_vals[j]);
            } else if j == p {
                assert(new_vals[i] == old_vals[i]);
            } else if i == p {
                assert(new_vals[j] == old_vals[j - 1]);
            } else if i < p {
                assert(new_vals[i] == old_vals[i] && new_vals[j] == old_vals[j - 1]);
            } else {
                assert(new_vals[i] == old_vals[i - 1] && new_vals[j] == old_vals[j - 1]);
            }
        }
        assert forall|x: Seq<u8>| new_vals.contains(x) <==> (old_vals.contains(x) || x == k@) by {
            if new_vals.contains(x) {
                let j = choose|j: int| 0 <= j < new_vals.len() && new_vals[j] == x;
                if j < p {
                    assert(old_vals[j] == x);
                } else if j > p {
                    assert(old_vals[j - 1] == x);
                }
            }
            if old_vals.contains(x) {
                let j = choose|j: int| 0 <= j < old_vals.len() && old_vals[j] == x;
                if j < p {
                    assert(new_vals[j] == x);
                } else {
                    assert(new_vals[j + 1] == x);
                }
            }
            if x == k@ {
                assert(new_vals[p as int] == x);
            }
        }
    }
}

} // verus!
