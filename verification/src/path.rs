//! Unix paths as byte strings, with the component rules of a Unix path:
//! a leading `/` is the root, a leading `.` segment of a relative path is
//! the current directory, empty and `.` segments elsewhere vanish, `..` is
//! the parent directory and every other segment is a normal name.  Two
//! paths are the same path when their components are equal.

use vstd::prelude::*;
use vstd::slice::slice_to_vec;

use crate::text::{bytes_eq, has_prefix};

verus! {

pub const SLASH: u8 = 47;

pub const DOT: u8 = 46;

/// One component of a path.
pub enum Component {
    RootDir,
    CurDir,
    ParentDir,
    Normal(Vec<u8>),
}

/// The mathematical value of a component.
pub enum ComponentView {
    RootDir,
    CurDir,
    ParentDir,
    Normal(Seq<u8>),
}

impl View for Component {
    type V = ComponentView;

    open spec fn view(&self) -> ComponentView {
        match self {
            Component::RootDir => ComponentView::RootDir,
            Component::CurDir => ComponentView::CurDir,
            Component::ParentDir => ComponentView::ParentDir,
            Component::Normal(name) => ComponentView::Normal(name@),
        }
    }
}

/// The values of a sequence of components.
pub open spec fn views(s: Seq<Component>) -> Seq<ComponentView> {
    s.map_values(|c: Component| c@)
}

/// What one `/`-separated segment contributes to the components.
pub open spec fn segment_component(seg: Seq<u8>) -> Seq<ComponentView> {
    if seg.len() == 0 || seg == seq![DOT] {
        Seq::empty()
    } else if seg == seq![DOT, DOT] {
        seq![ComponentView::ParentDir]
    } else {
        seq![ComponentView::Normal(seg)]
    }
}

/// Scans the first `i` bytes of `p`: the components of the finished
/// segments, and the bytes of the segment being read.
pub open spec fn scan(p: Seq<u8>, i: int) -> (Seq<ComponentView>, Seq<u8>)
    decreases i,
{
    if i <= 0 {
        (Seq::empty(), Seq::empty())
    } else {
        let (done, cur) = scan(p, i - 1);
        if p[i - 1] == SLASH {
            (done + segment_component(cur), Seq::empty())
        } else {
            (done, cur.push(p[i - 1]))
        }
    }
}

/// The component that a path starts with, if any: the root for an absolute
/// path, the current directory for `.` and paths that start with `./`.
pub open spec fn lead(p: Seq<u8>) -> Seq<ComponentView> {
    if p.len() > 0 && p[0] == SLASH {
        seq![ComponentView::RootDir]
    } else if p == seq![DOT] || has_prefix(p, seq![DOT, SLASH]) {
        seq![ComponentView::CurDir]
    } else {
        Seq::empty()
    }
}

/// The components of a path.
pub open spec fn components(p: Seq<u8>) -> Seq<ComponentView> {
    let (done, cur) = scan(p, p.len() as int);
    lead(p) + done + segment_component(cur)
}

/// Two paths name the same path: their components are equal.
pub open spec fn same_path(a: Seq<u8>, b: Seq<u8>) -> bool {
    components(a) == components(b)
}

/// A path is absolute when it starts at the root.
pub open spec fn is_absolute(p: Seq<u8>) -> bool {
    p.len() > 0 && p[0] == SLASH
}

/// The last component, when it is a name.
pub open spec fn file_name(p: Seq<u8>) -> Option<Seq<u8>> {
    let cs = components(p);
    if cs.len() > 0 && cs.last() is Normal {
        Some(cs.last()->Normal_0)
    } else {
        None
    }
}

/// The components of the parent of a path: all but the last one, where the
/// last one is not the root.
pub open spec fn parent_components(p: Seq<u8>) -> Option<Seq<ComponentView>> {
    let cs = components(p);
    if cs.len() > 0 && !(cs.last() is RootDir) {
        Some(cs.drop_last())
    } else {
        None
    }
}

/// `child` names an entry directly inside `dir`.
pub open spec fn is_child_of(child: Seq<u8>, dir: Seq<u8>) -> bool {
    parent_components(child) == Some(components(dir))
}

/// The index of the last `b` in `s`, or -1.
pub open spec fn last_index_of(s: Seq<u8>, b: u8) -> int
    decreases s.len(),
{
    if s.len() == 0 {
        -1
    } else if s.last() == b {
        s.len() - 1
    } else {
        last_index_of(s.drop_last(), b)
    }
}

/// The extension of a file name: what follows its last dot, when that dot
/// is not the first byte.
pub open spec fn name_extension(name: Seq<u8>) -> Option<Seq<u8>> {
    let dot = last_index_of(name, DOT);
    if name == seq![DOT, DOT] || dot <= 0 {
        None
    } else {
        Some(name.subrange(dot + 1, name.len() as int))
    }
}

/// The extension of a path: that of its file name.
pub open spec fn extension(p: Seq<u8>) -> Option<Seq<u8>> {
    match file_name(p) {
        Some(name) => name_extension(name),
        None => None,
    }
}

/// `p` has an extension, which lower-cases to `e`.
pub open spec fn lower_extension_is(p: Seq<u8>, e: Seq<u8>) -> bool {
    match extension(p) {
        Some(x) => crate::text::lower(x) == e,
        None => false,
    }
}

/// `base` joined with `name`: an absolute `name` replaces `base`, otherwise
/// a separator is put between them where `base` is not empty and does not
/// already end with one.
pub open spec fn join(base: Seq<u8>, name: Seq<u8>) -> Seq<u8> {
    if is_absolute(name) {
        name
    } else if base.len() > 0 && base.last() != SLASH {
        base + seq![SLASH] + name
    } else {
        base + name
    }
}

/// The directory stack left by walking `cs` from the root: a name goes in,
/// `..` takes the last name out (never leaving the root), the rest is
/// ignored.
pub open spec fn walk(cs: Seq<ComponentView>) -> Seq<Seq<u8>>
    decreases cs.len(),
{
    if cs.len() == 0 {
        Seq::empty()
    } else {
        walk_step(walk(cs.drop_last()), cs.last())
    }
}

/// One step of [`walk`].
pub open spec fn walk_step(stack: Seq<Seq<u8>>, c: ComponentView) -> Seq<Seq<u8>> {
    match c {
        ComponentView::ParentDir => if stack.len() > 0 {
            stack.drop_last()
        } else {
            stack
        },
        ComponentView::Normal(name) => stack.push(name),
        _ => stack,
    }
}

/// The values of a sequence of byte vectors.
pub open spec fn byte_vals(s: Seq<Vec<u8>>) -> Seq<Seq<u8>> {
    s.map_values(|n: Vec<u8>| n@)
}

/// The bytes `/n1/n2/...` of a stack of names.
pub open spec fn render_names(names: Seq<Seq<u8>>) -> Seq<u8>
    decreases names.len(),
{
    if names.len() == 0 {
        Seq::empty()
    } else {
        render_names(names.drop_last()) + seq![SLASH] + names.last()
    }
}

/// An absolute path made of a stack of names; the root alone is `/`.
pub open spec fn render(names: Seq<Seq<u8>>) -> Seq<u8> {
    if names.len() == 0 {
        seq![SLASH]
    } else {
        render_names(names)
    }
}

/// The absolute form of a path with `.` and `..` resolved lexically, where
/// `..` at the root stays at the root.
pub open spec fn normalized(p: Seq<u8>) -> Seq<u8> {
    render(walk(components(p)))
}

/// A name that is exactly one path component: not empty, without a
/// separator, and neither `.` nor `..`.
pub open spec fn is_plain_name(name: Seq<u8>) -> bool {
    name.len() > 0 && !name.contains(SLASH) && name != seq![DOT] && name != seq![DOT, DOT]
}

proof fn lemma_scan_prefix(p: Seq<u8>, q: Seq<u8>, i: int)
    requires
        0 <= i <= p.len(),
    ensures
        scan(p + q, i) == scan(p, i),
    decreases i,
{
    if i > 0 {
        lemma_scan_prefix(p, q, i - 1);
        assert((p + q)[i - 1] == p[i - 1]);
    }
}

proof fn lemma_scan_plain(p: Seq<u8>, start: int, j: int)
    requires
        0 <= start,
        0 <= j,
        start + j <= p.len(),
        forall|k: int| start <= k < start + j ==> p[k] != SLASH,
    ensures
        scan(p, start + j).0 == scan(p, start).0,
        scan(p, start + j).1 == scan(p, start).1 + p.subrange(start, start + j),
    decreases j,
{
    if j == 0 {
        assert(scan(p, start).1 + p.subrange(start, start) =~= scan(p, start).1);
    } else {
        lemma_scan_plain(p, start, j - 1);
        assert(scan(p, start).1 + p.subrange(start, start + j) =~= (scan(p, start).1 + p.subrange(
            start,
            start + j - 1,
        )).push(p[start + j - 1]));
    }
}

/// Joining a plain name to a path adds exactly that name as its last
/// component.
#[verifier::spinoff_prover]
#[verifier::rlimit(50)]
pub proof fn lemma_join_plain_name(base: Seq<u8>, name: Seq<u8>)
    requires
        is_plain_name(name),
    ensures
        components(join(base, name)) == components(base) + seq![ComponentView::Normal(name)],
{
    let n = name.len() as int;
    assert(name[0] != SLASH) by {
        if name[0] == SLASH {
            assert(name.contains(SLASH));
        }
    }
    assert forall|k: int| 0 <= k < n implies name[k] != SLASH by {
        if name[k] == SLASH {
            assert(name.contains(SLASH));
        }
    }
    assert(segment_component(name) == seq![ComponentView::Normal(name)]);
    if base.len() == 0 {
        assert(join(base, name) =~= name);
        lemma_scan_plain(name, 0, n);
        assert(name.subrange(0, n) =~= name);
        assert(Seq::<u8>::empty() + name =~= name);
        assert(!has_prefix(name, seq![DOT, SLASH]));
        assert(components(base) =~= Seq::<ComponentView>::empty());
        assert(components(name) =~= seq![ComponentView::Normal(name)]);
    } else if base.last() == SLASH {
        let p = base + name;
        let b = base.len() as int;
        assert(join(base, name) == p);
        lemma_scan_prefix(base, name, b);
        assert forall|k: int| b <= k < b + n implies p[k] != SLASH by {
            assert(p[k] == name[k - b]);
        }
        lemma_scan_plain(p, b, n);
        assert(p.subrange(b, b + n) =~= name);
        assert(scan(base, b).1 =~= Seq::<u8>::empty());
        assert(Seq::<u8>::empty() + name =~= name);
        assert(p.len() == b + n);
        if b >= 2 {
            assert(p.subrange(0, 2) =~= base.subrange(0, 2));
        }
        assert(lead(p) == lead(base));
        assert(components(base) =~= lead(base) + scan(base, b).0);
        assert(components(p) =~= lead(base) + scan(base, b).0 + seq![ComponentView::Normal(name)]);
    } else {
        let b = base.len() as int;
        let p = base + seq![SLASH] + name;
        assert(join(base, name) == p);
        assert(p =~= base + (seq![SLASH] + name));
        lemma_scan_prefix(base, seq![SLASH] + name, b);
        assert(p[b] == SLASH);
        assert forall|k: int| b + 1 <= k < b + 1 + n implies p[k] != SLASH by {
            assert(p[k] == name[k - b - 1]);
        }
        lemma_scan_plain(p, b + 1, n);
        assert(p.subrange(b + 1, b + 1 + n) =~= name);
        assert(Seq::<u8>::empty() + name =~= name);
        assert(p.len() == b + 1 + n);
        assert(p[0] == base[0]);
        assert(p != seq![DOT]);
        if b >= 2 {
            assert(p.subrange(0, 2) =~= base.subrange(0, 2));
            assert(base != seq![DOT]);
        } else {
            assert(base =~= seq![base[0]]);
            assert(p[1] == SLASH);
            assert(!has_prefix(base, seq![DOT, SLASH]));
            if base[0] == DOT {
                assert(base == seq![DOT]);
                assert(p.subrange(0, 2) =~= seq![DOT, SLASH]);
            } else {
                assert(base != seq![DOT]);
                assert(!has_prefix(p, seq![DOT, SLASH]));
            }
        }
        assert(lead(p) == lead(base));
        assert(components(p) =~= lead(base) + (scan(base, b).0 + segment_component(scan(base, b).1))
            + seq![ComponentView::Normal(name)]);
    }
}

/// Joining a plain name to a path names an entry directly inside it.
pub proof fn lemma_join_plain_is_child(base: Seq<u8>, name: Seq<u8>)
    requires
        is_plain_name(name),
    ensures
        is_child_of(join(base, name), base),
        file_name(join(base, name)) == Some(name),
{
    lemma_join_plain_name(base, name);
    let cs = components(join(base, name));
    assert(cs.drop_last() =~= components(base));
}

proof fn lemma_render_names_rooted(names: Seq<Seq<u8>>)
    requires
        names.len() > 0,
    ensures
        render_names(names).len() > 0,
        render_names(names)[0] == SLASH,
    decreases names.len(),
{
    let front = render_names(names.drop_last());
    if names.len() > 1 {
        lemma_render_names_rooted(names.drop_last());
        assert((front + seq![SLASH] + names.last())[0] == front[0]);
    } else {
        assert(front =~= Seq::<u8>::empty());
        assert((front + seq![SLASH] + names.last())[0] == SLASH);
    }
}

/// A normalized path is absolute, whatever path it was made from: `..`
/// never leads above the root.
pub proof fn lemma_normalized_is_absolute(p: Seq<u8>)
    ensures
        is_absolute(normalized(p)),
{
    let names = walk(components(p));
    if names.len() > 0 {
        lemma_render_names_rooted(names);
    }
}

/// Every name component of `cs` is a plain name.
pub open spec fn plain_components(cs: Seq<ComponentView>) -> bool {
    forall|i: int| 0 <= i < cs.len() ==> (#[trigger] cs[i] matches ComponentView::Normal(n) ==> is_plain_name(n))
}

/// Every name of `names` is a plain name.
pub open spec fn plain_names(names: Seq<Seq<u8>>) -> bool {
    forall|i: int| 0 <= i < names.len() ==> is_plain_name(#[trigger] names[i])
}

proof fn lemma_segment_plain(seg: Seq<u8>)
    requires
        !seg.contains(SLASH),
    ensures
        plain_components(segment_component(seg)),
{
}

proof fn lemma_scan_plain_components(p: Seq<u8>, i: int)
    requires
        0 <= i <= p.len(),
    ensures
        !scan(p, i).1.contains(SLASH),
        plain_components(scan(p, i).0),
    decreases i,
{
    if i > 0 {
        lemma_scan_plain_components(p, i - 1);
        let (done, cur) = scan(p, i - 1);
        if p[i - 1] == SLASH {
            lemma_segment_plain(cur);
            let next = done + segment_component(cur);
            assert forall|k: int| 0 <= k < next.len() implies (#[trigger] next[k] matches ComponentView::Normal(
                n,
            ) ==> is_plain_name(n)) by {
                if k >= done.len() {
                    assert(next[k] == segment_component(cur)[k - done.len()]);
                }
            }
            assert(!Seq::<u8>::empty().contains(SLASH));
        } else {
            let next = cur.push(p[i - 1]);
            assert forall|k: int| 0 <= k < next.len() implies #[trigger] next[k] != SLASH by {
                if k < cur.len() {
                    assert(next[k] == cur[k]);
                    if cur[k] == SLASH {
                        assert(cur.contains(SLASH));
                    }
                }
            }
        }
    }
}

proof fn lemma_components_plain(p: Seq<u8>)
    ensures
        plain_components(components(p)),
{
    lemma_scan_plain_components(p, p.len() as int);
    let (done, cur) = scan(p, p.len() as int);
    lemma_segment_plain(cur);
    let cs = lead(p) + done + segment_component(cur);
    assert forall|k: int| 0 <= k < cs.len() implies (#[trigger] cs[k] matches ComponentView::Normal(n)
        ==> is_plain_name(n)) by {
        let l = lead(p).len();
        if k < l {
        } else if k < l + done.len() {
            assert(cs[k] == done[k - l]);
        } else {
            assert(cs[k] == segment_component(cur)[k - l - done.len()]);
        }
    }
}

proof fn lemma_walk_plain(cs: Seq<ComponentView>)
    requires
        plain_components(cs),
    ensures
        plain_names(walk(cs)),
    decreases cs.len(),
{
    if cs.len() > 0 {
        assert(plain_components(cs.drop_last())) by {
            assert forall|k: int| 0 <= k < cs.drop_last().len() implies (#[trigger] cs.drop_last()[k] matches ComponentView::Normal(
                n,
            ) ==> is_plain_name(n)) by {
                assert(cs.drop_last()[k] == cs[k]);
            }
        }
        lemma_walk_plain(cs.drop_last());
        assert(cs[cs.len() - 1] == cs.last());
    }
}

proof fn lemma_render_names_ends_with_name(names: Seq<Seq<u8>>)
    requires
        names.len() > 0,
        is_plain_name(names.last()),
    ensures
        render_names(names).len() > 0,
        render_names(names).last() != SLASH,
{
    let last = names.last();
    assert(last[last.len() - 1] != SLASH) by {
        if last[last.len() - 1] == SLASH {
            assert(last.contains(SLASH));
        }
    }
}

proof fn lemma_render_components(names: Seq<Seq<u8>>)
    requires
        plain_names(names),
    ensures
        components(render(names)) == seq![ComponentView::RootDir] + names.map_values(
            |n: Seq<u8>| ComponentView::Normal(n),
        ),
    decreases names.len(),
{
    let normals = names.map_values(|n: Seq<u8>| ComponentView::Normal(n));
    if names.len() == 0 {
        let root = seq![SLASH];
        assert(scan(root, 0) == (Seq::<ComponentView>::empty(), Seq::<u8>::empty()));
        assert(segment_component(Seq::<u8>::empty()) =~= Seq::<ComponentView>::empty());
        assert(components(root) =~= seq![ComponentView::RootDir]);
        assert(normals =~= Seq::<ComponentView>::empty());
        assert(seq![ComponentView::RootDir] + normals =~= seq![ComponentView::RootDir]);
    } else {
        let front = names.drop_last();
        let last = names.last();
        assert(is_plain_name(last)) by {
            assert(names[names.len() - 1] == last);
        }
        assert(plain_names(front)) by {
            assert forall|i: int| 0 <= i < front.len() implies is_plain_name(#[trigger] front[i]) by {
                assert(front[i] == names[i]);
            }
        }
        lemma_render_components(front);
        let front_normals = front.map_values(|n: Seq<u8>| ComponentView::Normal(n));
        assert(normals =~= front_normals.push(ComponentView::Normal(last)));
        if front.len() == 0 {
            assert(render_names(front) =~= Seq::<u8>::empty());
            assert(render(names) =~= join(seq![SLASH], last));
            lemma_join_plain_name(seq![SLASH], last);
            assert(render(front) == seq![SLASH]);
        } else {
            lemma_render_names_ends_with_name(front);
            assert(render(names) == join(render(front), last));
            lemma_join_plain_name(render(front), last);
        }
        assert(seq![ComponentView::RootDir] + front_normals + seq![ComponentView::Normal(last)]
            =~= seq![ComponentView::RootDir] + normals);
    }
}

proof fn lemma_walk_rooted_names(names: Seq<Seq<u8>>)
    ensures
        walk(seq![ComponentView::RootDir] + names.map_values(|n: Seq<u8>| ComponentView::Normal(n)))
            == names,
    decreases names.len(),
{
    let cs = seq![ComponentView::RootDir] + names.map_values(|n: Seq<u8>| ComponentView::Normal(n));
    if names.len() == 0 {
        assert(cs =~= seq![ComponentView::RootDir]);
        assert(cs.drop_last() =~= Seq::<ComponentView>::empty());
        assert(walk(cs.drop_last()) =~= Seq::<Seq<u8>>::empty());
        assert(cs.last() == ComponentView::RootDir);
        assert(walk(cs) =~= Seq::<Seq<u8>>::empty());
    } else {
        let front = names.drop_last();
        lemma_walk_rooted_names(front);
        assert(cs.drop_last() =~= seq![ComponentView::RootDir] + front.map_values(
            |n: Seq<u8>| ComponentView::Normal(n),
        ));
        assert(cs.last() == ComponentView::Normal(names.last()));
        assert(front.push(names.last()) =~= names);
    }
}

/// A normalized path is the root followed by name components only: the
/// names left by walking the path's components, each a plain name (never
/// `.` or `..`, never holding a separator).
pub proof fn lemma_normalized_components(p: Seq<u8>)
    ensures
        plain_names(walk(components(p))),
        components(normalized(p)) == seq![ComponentView::RootDir] + walk(components(p)).map_values(
            |n: Seq<u8>| ComponentView::Normal(n),
        ),
        forall|i: int|
            1 <= i < components(normalized(p)).len() ==> #[trigger] components(normalized(p))[i] is Normal,
{
    let names = walk(components(p));
    lemma_components_plain(p);
    lemma_walk_plain(components(p));
    lemma_render_components(names);
    let cs = components(normalized(p));
    assert forall|i: int| 1 <= i < cs.len() implies #[trigger] cs[i] is Normal by {
        assert(cs[i] == ComponentView::Normal(names[i - 1]));
    }
}

/// Normalizing a normalized path changes nothing: a normalized path is in
/// normal form.
pub proof fn lemma_normalized_is_stable(p: Seq<u8>)
    ensures
        normalized(normalized(p)) == normalized(p),
{
    let names = walk(components(p));
    lemma_components_plain(p);
    lemma_walk_plain(components(p));
    lemma_render_components(names);
    lemma_walk_rooted_names(names);
}

/// A fresh copy of `s`.
pub fn copy_bytes(s: &[u8]) -> (r: Vec<u8>)
    ensures
        r@ == s@,
{
    slice_to_vec(s)
}

fn push_segment(out: &mut Vec<Component>, seg: Vec<u8>)
    ensures
        views(final(out)@) == views(old(out)@) + segment_component(seg@),
{
    let ghost before = views(out@);
    if seg.len() == 0 || (seg.len() == 1 && seg[0] == DOT) {
        assert(seg@.len() == 1 ==> seg@ =~= seq![DOT]);
        assert(views(out@) =~= before + segment_component(seg@));
    } else if seg.len() == 2 && seg[0] == DOT && seg[1] == DOT {
        assert(seg@ =~= seq![DOT, DOT]);
        out.push(Component::ParentDir);
        assert(views(out@) =~= before + segment_component(seg@));
    } else {
        assert(seg@ != seq![DOT]);
        assert(seg@ != seq![DOT, DOT]);
        let ghost s = seg@;
        out.push(Component::Normal(seg));
        assert(views(out@) =~= before + segment_component(s));
    }
}

/// The components of a path.
pub fn path_components(p: &[u8]) -> (r: Vec<Component>)
    ensures
        views(r@) == components(p@),
{
    let mut out: Vec<Component> = Vec::new();
    if p.len() > 0 && p[0] == SLASH {
        out.push(Component::RootDir);
    } else if (p.len() == 1 && p[0] == DOT) || (p.len() >= 2 && p[0] == DOT && p[1] == SLASH) {
        assert(p@.len() == 1 ==> p@ =~= seq![DOT]);
        assert(p@.len() >= 2 ==> p@.subrange(0, 2) =~= seq![DOT, SLASH]);
        out.push(Component::CurDir);
    } else {
        assert(p@ != seq![DOT]);
        assert(!has_prefix(p@, seq![DOT, SLASH]) ) by {
            if p@.len() >= 2 {
                assert(p@.subrange(0, 2)[0] == p@[0]);
                assert(p@.subrange(0, 2)[1] == p@[1]);
            }
        }
    }
    assert(views(out@) =~= lead(p@));
    let mut cur: Vec<u8> = Vec::new();
    let mut i: usize = 0;
    while i < p.len()
        invariant
            i <= p@.len(),
            views(out@) == lead(p@) + scan(p@, i as int).0,
            cur@ == scan(p@, i as int).1,
        decreases p@.len() - i,
    {
        let b = p[i];
        if b == SLASH {
            let seg = cur;
            cur = Vec::new();
            push_segment(&mut out, seg);
        } else {
            cur.push(b);
        }
        i = i + 1;
        assert(lead(p@) + scan(p@, i as int).0 =~= views(out@));
    }
    push_segment(&mut out, cur);
    assert(views(out@) =~= components(p@));
    out
}

/// Whether two components are equal.
pub fn component_eq(a: &Component, b: &Component) -> (r: bool)
    ensures
        r == (a@ == b@),
{
    match (a, b) {
        (Component::RootDir, Component::RootDir) => true,
        (Component::CurDir, Component::CurDir) => true,
        (Component::ParentDir, Component::ParentDir) => true,
        (Component::Normal(x), Component::Normal(y)) => bytes_eq(x.as_slice(), y.as_slice()),
        _ => false,
    }
}

/// Whether two sequences of components are equal, comparing the first `n`
/// of `a` with all of `b`.
pub fn components_eq_prefix(a: &Vec<Component>, n: usize, b: &Vec<Component>) -> (r: bool)
    requires
        n <= a@.len(),
    ensures
        r == (views(a@).subrange(0, n as int) == views(b@)),
{
    if n != b.len() {
        assert(views(a@).subrange(0, n as int).len() != views(b@).len());
        return false;
    }
    let mut i: usize = 0;
    while i < n
        invariant
            n <= a@.len(),
            n == b@.len(),
            i <= n,
            forall|j: int| 0 <= j < i ==> a@[j]@ == b@[j]@,
        decreases n - i,
    {
        if !component_eq(&a[i], &b[i]) {
            assert(views(a@).subrange(0, n as int)[i as int] != views(b@)[i as int]);
            return false;
        }
        i = i + 1;
    }
    assert(views(a@).subrange(0, n as int) =~= views(b@));
    true
}

/// Whether `a` and `b` name the same path.
pub fn same_path_exec(a: &[u8], b: &[u8]) -> (r: bool)
    ensures
        r == same_path(a@, b@),
{
    let ca = path_components(a);
    let cb = path_components(b);
    let r = components_eq_prefix(&ca, ca.len(), &cb);
    assert(views(ca@).subrange(0, ca@.len() as int) =~= views(ca@));
    r
}

/// Whether `p` is absolute.
pub fn is_absolute_exec(p: &[u8]) -> (r: bool)
    ensures
        r == is_absolute(p@),
{
    p.len() > 0 && p[0] == SLASH
}

/// Whether `child` names an entry directly inside `dir`.
pub fn is_child_of_exec(child: &[u8], dir: &[u8]) -> (r: bool)
    ensures
        r == is_child_of(child@, dir@),
{
    let cc = path_components(child);
    let cd = path_components(dir);
    let n = cc.len();
    if n == 0 {
        return false;
    }
    if let Component::RootDir = &cc[n - 1] {
        return false;
    }
    let r = components_eq_prefix(&cc, n - 1, &cd);
    assert(views(cc@).subrange(0, n - 1) =~= views(cc@).drop_last());
    r
}

/// The file name of a path: its last component, when that is a name.
pub fn file_name_exec(p: &[u8]) -> (r: Option<Vec<u8>>)
    ensures
        r matches Some(v) ==> file_name(p@) == Some(v@),
        r is None ==> file_name(p@) is None,
{
    let cs = path_components(p);
    let n = cs.len();
    if n == 0 {
        return None;
    }
    assert(views(cs@).last() == cs@[n - 1]@);
    match &cs[n - 1] {
        Component::Normal(name) => Some(copy_bytes(name.as_slice())),
        _ => None,
    }
}

/// The index of the last `b` in `s`.
pub fn last_index_of_exec(s: &[u8], b: u8) -> (r: Option<usize>)
    ensures
        r matches Some(i) ==> last_index_of(s@, b) == i && i < s@.len(),
        r is None ==> last_index_of(s@, b) == -1,
{
    let mut i: usize = s.len();
    assert(s@.subrange(0, i as int) =~= s@);
    while i > 0
        invariant
            i <= s@.len(),
            last_index_of(s@, b) == last_index_of(s@.subrange(0, i as int), b),
        decreases i,
    {
        assert(s@.subrange(0, i as int).drop_last() =~= s@.subrange(0, i - 1));
        if s[i - 1] == b {
            return Some(i - 1);
        }
        i = i - 1;
    }
    assert(s@.subrange(0, 0) =~= Seq::<u8>::empty());
    None
}

/// The extension of a file name.
pub fn name_extension_exec(name: &[u8]) -> (r: Option<Vec<u8>>)
    ensures
        r matches Some(v) ==> name_extension(name@) == Some(v@),
        r is None ==> name_extension(name@) is None,
{
    if name.len() == 2 && name[0] == DOT && name[1] == DOT {
        assert(name@ =~= seq![DOT, DOT]);
        return None;
    }
    assert(name@ != seq![DOT, DOT]);
    match last_index_of_exec(name, DOT) {
        None => None,
        Some(dot) => {
            if dot == 0 {
                None
            } else {
                let mut v: Vec<u8> = Vec::new();
                let mut i = dot + 1;
                while i < name.len()
                    invariant
                        dot < name@.len(),
                        dot + 1 <= i <= name@.len(),
                        v@ == name@.subrange(dot + 1, i as int),
                    decreases name@.len() - i,
                {
                    v.push(name[i]);
                    i = i + 1;
                    assert(v@ =~= name@.subrange(dot + 1, i as int));
                }
                Some(v)
            }
        },
    }
}

/// The extension of a path.
pub fn extension_exec(p: &[u8]) -> (r: Option<Vec<u8>>)
    ensures
        r matches Some(v) ==> extension(p@) == Some(v@),
        r is None ==> extension(p@) is None,
{
    match file_name_exec(p) {
        Some(name) => name_extension_exec(name.as_slice()),
        None => None,
    }
}

/// `base` joined with `name`.
pub fn join_exec(base: &[u8], name: &[u8]) -> (r: Vec<u8>)
    ensures
        r@ == join(base@, name@),
{
    if is_absolute_exec(name) {
        return copy_bytes(name);
    }
    let mut r = copy_bytes(base);
    if base.len() > 0 && base[base.len() - 1] != SLASH {
        r.push(SLASH);
    }
    let mut i: usize = 0;
    let ghost start = r@;
    while i < name.len()
        invariant
            i <= name@.len(),
            r@ == start + name@.subrange(0, i as int),
        decreases name@.len() - i,
    {
        r.push(name[i]);
        i = i + 1;
        assert(r@ =~= start + name@.subrange(0, i as int));
    }
    assert(name@.subrange(0, name@.len() as int) =~= name@);
    r
}

/// The bytes of a stack of names as an absolute path.
pub fn render_exec(names: &Vec<Vec<u8>>) -> (r: Vec<u8>)
    ensures
        r@ == render(byte_vals(names@)),
{
    let ghost ns = byte_vals(names@);
    let mut r: Vec<u8> = Vec::new();
    if names.len() == 0 {
        r.push(SLASH);
        assert(r@ =~= seq![SLASH]);
        return r;
    }
    let mut k: usize = 0;
    while k < names.len()
        invariant
            k <= names@.len(),
            ns == byte_vals(names@),
            r@ == render_names(ns.subrange(0, k as int)),
        decreases names@.len() - k,
    {
        r.push(SLASH);
        let name = &names[k];
        let ghost before = r@;
        let mut i: usize = 0;
        while i < name.len()
            invariant
                i <= name@.len(),
                r@ == before + name@.subrange(0, i as int),
            decreases name@.len() - i,
        {
            r.push(name[i]);
            i = i + 1;
            assert(r@ =~= before + name@.subrange(0, i as int));
        }
        assert(name@.subrange(0, name@.len() as int) =~= name@);
        k = k + 1;
        assert(ns.subrange(0, k as int).drop_last() =~= ns.subrange(0, k - 1));
        assert(ns.subrange(0, k as int).last() == ns[k - 1]);
    }
    assert(ns.subrange(0, names@.len() as int) =~= ns);
    r
}

/// The normalized absolute form of a path: `.` and `..` are resolved
/// lexically from the root, and `..` never leaves the root.
pub fn normalize_path(p: &[u8]) -> (r: Vec<u8>)
    ensures
        r@ == normalized(p@),
{
    let cs = path_components(p);
    let mut stack: Vec<Vec<u8>> = Vec::new();
    let mut i: usize = 0;
    assert(views(cs@).subrange(0, 0) =~= Seq::<ComponentView>::empty());
    assert(byte_vals(stack@) =~= Seq::<Seq<u8>>::empty());
    while i < cs.len()
        invariant
            i <= cs@.len(),
            byte_vals(stack@) == walk(views(cs@).subrange(0, i as int)),
        decreases cs@.len() - i,
    {
        assert(views(cs@).subrange(0, i + 1).drop_last() =~= views(cs@).subrange(0, i as int));
        assert(views(cs@).subrange(0, i + 1).last() == cs@[i as int]@);
        walk_one(&mut stack, &cs[i]);
        i = i + 1;
    }
    assert(views(cs@).subrange(0, cs@.len() as int) =~= views(cs@));
    render_exec(&stack)
}

pub(crate) fn walk_one(stack: &mut Vec<Vec<u8>>, c: &Component)
    ensures
        byte_vals(final(stack)@) == walk_step(byte_vals(old(stack)@), c@),
{
    let ghost before = byte_vals(stack@);
    match c {
        Component::ParentDir => {
            if stack.len() > 0 {
                stack.pop();
                assert(byte_vals(stack@) =~= before.drop_last());
            }
        },
        Component::Normal(name) => {
            let ghost nv = name@;
            stack.push(copy_bytes(name.as_slice()));
            assert(byte_vals(stack@) =~= before.push(nv));
        },
        _ => {},
    }
}

} // verus!
