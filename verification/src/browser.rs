//! The asset browser: which files the editor opens, the directory tree they are listed in, and the
//! rows that the tree shows.

use vstd::prelude::*;
use crate::order;
use crate::text;

verus! {

/// Which loader owns an extension, and therefore which asset type the inspector binds to.
#[derive(Clone, Copy, Debug, PartialEq, Eq, Structural)]
pub enum Kind {
    Graph,
    Clip,
    Skeleton,
    StateMachine,
}

/// The kind that a file's name tells by its last two extensions.
pub open spec fn kind_of(name: Seq<char>) -> Option<Kind> {
    if text::ends_in(name, ".animgraph.ron"@) {
        Some(Kind::Graph)
    } else if text::ends_in(name, ".anim.ron"@) {
        Some(Kind::Clip)
    } else if text::ends_in(name, ".skn.ron"@) {
        Some(Kind::Skeleton)
    } else if text::ends_in(name, ".fsm.ron"@) {
        Some(Kind::StateMachine)
    } else {
        None
    }
}

/// The label of a kind.
pub open spec fn kind_label(k: Kind) -> Seq<char> {
    match k {
        Kind::Graph => "graph"@,
        Kind::Clip => "clip"@,
        Kind::Skeleton => "skeleton"@,
        Kind::StateMachine => "fsm"@,
    }
}

impl Kind {
    /// Longest-suffix match, because every one of these ends in `.ron`.
    pub fn of(name: &str) -> (r: Option<Kind>)
        ensures
            r == kind_of(name@),
    {
        if text::ends_with(name, ".animgraph.ron") {
            Some(Kind::Graph)
        } else if text::ends_with(name, ".anim.ron") {
            Some(Kind::Clip)
        } else if text::ends_with(name, ".skn.ron") {
            Some(Kind::Skeleton)
        } else if text::ends_with(name, ".fsm.ron") {
            Some(Kind::StateMachine)
        } else {
            None
        }
    }

    pub fn label(self) -> (r: &'static str)
        ensures
            r@ == kind_label(self),
    {
        match self {
            Kind::Graph => "graph",
            Kind::Clip => "clip",
            Kind::Skeleton => "skeleton",
            Kind::StateMachine => "fsm",
        }
    }
}

/// What becomes of the asset that is asked for at startup.
#[derive(Clone, Copy, Debug, PartialEq, Eq, Structural)]
pub enum StartupOpen {
    /// None was asked for.
    Nothing,
    /// It is loaded, as its kind.
    Load(Kind),
    /// It is of no kind that the editor knows.
    Unknown,
}

/// Decides what becomes of the asset that is asked for at startup.
pub fn open_at_startup(path: Option<&str>) -> (r: StartupOpen)
    ensures
        r == (match crate::names::optional(path) {
            None => StartupOpen::Nothing,
            Some(p) => match kind_of(p) {
                Some(k) => StartupOpen::Load(k),
                None => StartupOpen::Unknown,
            },
        }),
{
    match path {
        None => StartupOpen::Nothing,
        Some(p) => match Kind::of(p) {
            Some(k) => StartupOpen::Load(k),
            None => StartupOpen::Unknown,
        },
    }
}

/// One browsable file under the asset root.
pub struct Entry {
    /// Path from the root, e.g. `anim/human/locomotion.animgraph.ron`.
    pub path: String,
    pub kind: Kind,
}

/// A file, by its contents.
pub ghost struct EntryView {
    pub path: Seq<char>,
    pub kind: Kind,
}

impl View for Entry {
    type V = EntryView;

    open spec fn view(&self) -> EntryView {
        EntryView { path: self.path@, kind: self.kind }
    }
}

/// Files, by their contents.
pub open spec fn entry_views(entries: Seq<Entry>) -> Seq<EntryView> {
    entries.map_values(|e: Entry| e@)
}

/// The directories on the way to a file.
pub open spec fn directories(path: Seq<char>) -> Seq<Seq<char>> {
    text::parts_of(path, '/').drop_last()
}

/// One directory in the browser tree, its children sorted by their names.
pub struct Dir {
    pub name: String,
    pub dirs: Vec<Dir>,
    pub files: Vec<Entry>,
}

/// Whether the children of a directory are sorted by their names, none twice, all the way down.
pub open spec fn sorted(d: Dir) -> bool
    decreases d,
{
    &&& forall|i: int, j: int|
        #![trigger d.dirs@[i], d.dirs@[j]]
        0 <= i < j < d.dirs@.len() ==> order::text_le(d.dirs@[i].name@, d.dirs@[j].name@)
            && d.dirs@[i].name@ != d.dirs@[j].name@
    &&& forall|i: int| #![trigger d.dirs@[i]] 0 <= i < d.dirs@.len() ==> sorted(d.dirs@[i])
}

/// Whether child `i` of a directory has a name.
pub open spec fn is_child(d: Dir, name: Seq<char>, i: int) -> bool {
    0 <= i < d.dirs@.len() && d.dirs@[i].name@ == name
}

/// The child of a directory that has a name.
pub open spec fn child_named(d: Dir, name: Seq<char>) -> Option<Dir> {
    if exists|i: int| is_child(d, name, i) {
        Some(d.dirs@[choose|i: int| is_child(d, name, i)])
    } else {
        None
    }
}

/// The directory below `d` at a path, where there is one.
pub open spec fn at_path(d: Dir, path: Seq<Seq<char>>) -> Option<Dir>
    decreases path.len(),
{
    if path.len() == 0 {
        Some(d)
    } else {
        match child_named(d, path[0]) {
            Some(c) => at_path(c, path.skip(1)),
            None => None,
        }
    }
}

/// The files listed in the directory at a path, in order.
pub open spec fn listing(d: Dir, path: Seq<Seq<char>>) -> Seq<EntryView> {
    match at_path(d, path) {
        Some(b) => entry_views(b.files@),
        None => seq![],
    }
}

/// Whether one path leads to another.
pub open spec fn leads_to(a: Seq<Seq<char>>, b: Seq<Seq<char>>) -> bool {
    a.len() <= b.len() && a == b.take(a.len() as int)
}

/// Whether `after` is `before` with a file listed in the directory at `path`.
pub open spec fn has_gained(before: Dir, after: Dir, path: Seq<Seq<char>>, e: EntryView) -> bool {
    &&& forall|p: Seq<Seq<char>>|
        #![trigger at_path(after, p)]
        at_path(after, p) is Some <==> at_path(before, p) is Some || leads_to(p, path)
    &&& forall|p: Seq<Seq<char>>|
        #![trigger listing(after, p)]
        listing(after, p) == (if p == path {
            listing(before, p).push(e)
        } else {
            listing(before, p)
        })
}

/// A child is found by its name.
proof fn lemma_child(d: Dir, name: Seq<char>, i: int)
    requires
        sorted(d),
        is_child(d, name, i),
    ensures
        child_named(d, name) == Some(d.dirs@[i]),
{
    let k = choose|k: int| is_child(d, name, k);
    if k < i {
        assert(d.dirs@[k].name@ != d.dirs@[i].name@);
    } else if i < k {
        assert(d.dirs@[i].name@ != d.dirs@[k].name@);
    }
}

/// Paths to files in a directory without children.
proof fn lemma_bare(d: Dir, p: Seq<Seq<char>>)
    requires
        d.dirs@.len() == 0,
    ensures
        at_path(d, p) is Some <==> p.len() == 0,
        p.len() > 0 ==> listing(d, p) == Seq::<EntryView>::empty(),
{
    if p.len() > 0 {
        assert(!exists|i: int| is_child(d, p[0], i));
    }
}

/// A file listed in a directory itself.
proof fn lemma_gained_here(before: Dir, after: Dir, e: EntryView)
    requires
        sorted(before),
        sorted(after),
        before.dirs@ == after.dirs@,
        entry_views(after.files@) == entry_views(before.files@).push(e),
    ensures
        has_gained(before, after, seq![], e),
{
    assert forall|p: Seq<Seq<char>>| p.len() > 0 implies at_path(after, p) == at_path(before, p) by {
        lemma_same_child(before, after, p[0]);
    }
    assert forall|p: Seq<Seq<char>>| #![trigger at_path(after, p)] at_path(after, p) is Some
        <==> at_path(before, p) is Some || leads_to(p, seq![]) by {}
    assert forall|p: Seq<Seq<char>>| #![trigger listing(after, p)] listing(after, p) == (if p
        == Seq::<Seq<char>>::empty() {
        listing(before, p).push(e)
    } else {
        listing(before, p)
    }) by {
        if p.len() == 0 {
            assert(p =~= seq![]);
        }
    }
}

proof fn lemma_same_child(before: Dir, after: Dir, name: Seq<char>)
    requires
        sorted(before),
        sorted(after),
        before.dirs@ == after.dirs@,
    ensures
        child_named(after, name) == child_named(before, name),
{
    if exists|i: int| is_child(before, name, i) {
        let i = choose|i: int| is_child(before, name, i);
        assert(is_child(after, name, i));
        lemma_child(before, name, i);
        lemma_child(after, name, i);
    } else {
        assert forall|i: int| !is_child(after, name, i) by {
            assert(!is_child(before, name, i));
        }
    }
}

/// A file listed in a directory below the child `name`, which was `child` before.
proof fn lemma_gained_below(
    before: Dir,
    after: Dir,
    name: Seq<char>,
    child: Dir,
    grown: Dir,
    rest: Seq<Seq<char>>,
    e: EntryView,
)
    requires
        entry_views(before.files@) == entry_views(after.files@),
        match child_named(before, name) {
            Some(c) => c == child,
            None => child.dirs@.len() == 0 && child.files@.len() == 0,
        },
        child_named(after, name) == Some(grown),
        forall|other: Seq<char>| #[trigger]
            child_named(after, other) == child_named(before, other) || other == name,
        has_gained(child, grown, rest, e),
    ensures
        has_gained(before, after, seq![name] + rest, e),
{
    let path = seq![name] + rest;
    assert(path.skip(1) =~= rest);
    assert forall|p: Seq<Seq<char>>|
        #![trigger at_path(after, p)]
        #![trigger listing(after, p)]
        (at_path(after, p) is Some <==> at_path(before, p) is Some || leads_to(p, path))
            && listing(after, p) == (if p == path {
            listing(before, p).push(e)
        } else {
            listing(before, p)
        }) by {
        if p.len() == 0 {
            assert(leads_to(p, path)) by {
                assert(p =~= path.take(0));
            }
        } else if p[0] != name {
            assert(child_named(after, p[0]) == child_named(before, p[0]));
            if leads_to(p, path) {
                assert(p[0] == path.take(p.len() as int)[0]);
            }
        } else {
            let tail = p.skip(1);
            assert(p =~= seq![name] + tail);
            assert(p == path <==> tail == rest);
            assert(leads_to(p, path) <==> leads_to(tail, rest)) by {
                if leads_to(tail, rest) {
                    assert(p =~= path.take(p.len() as int));
                }
                if leads_to(p, path) {
                    assert(path.take(p.len() as int).skip(1) =~= rest.take(tail.len() as int));
                }
            }
            assert(at_path(after, p) == at_path(grown, tail));
            assert(listing(after, p) == listing(grown, tail));
            if child_named(before, name) is None {
                lemma_bare(child, tail);
                if tail.len() == 0 {
                    assert(listing(child, tail) =~= seq![]);
                    assert(leads_to(tail, rest)) by {
                        assert(tail =~= rest.take(0));
                    }
                }
            }
        }
    }
}

/// A directory whose child `i` was replaced by one of the same name.
proof fn lemma_replaced(before: Dir, after: Dir, i: int, grown: Dir)
    requires
        sorted(before),
        sorted(grown),
        0 <= i < before.dirs@.len(),
        grown.name@ == before.dirs@[i].name@,
        after.dirs@ == before.dirs@.update(i, grown),
    ensures
        sorted(after),
        child_named(before, grown.name@) == Some(before.dirs@[i]),
        child_named(after, grown.name@) == Some(grown),
        forall|other: Seq<char>| #[trigger]
            child_named(after, other) == child_named(before, other) || other == grown.name@,
{
    assert forall|a: int, b: int|
        #![trigger after.dirs@[a], after.dirs@[b]]
        0 <= a < b < after.dirs@.len() implies order::text_le(
        after.dirs@[a].name@,
        after.dirs@[b].name@,
    ) && after.dirs@[a].name@ != after.dirs@[b].name@ by {
        assert(before.dirs@[a].name@ == after.dirs@[a].name@);
        assert(before.dirs@[b].name@ == after.dirs@[b].name@);
    }
    assert forall|a: int| #![trigger after.dirs@[a]] 0 <= a < after.dirs@.len() implies sorted(
        after.dirs@[a],
    ) by {
        if a != i {
            assert(after.dirs@[a] == before.dirs@[a]);
        }
    }
    assert(is_child(before, grown.name@, i));
    assert(is_child(after, grown.name@, i));
    lemma_child(before, grown.name@, i);
    lemma_child(after, grown.name@, i);
    assert forall|other: Seq<char>| other != grown.name@ implies #[trigger] child_named(after, other)
        == child_named(before, other) by {
        if exists|k: int| is_child(before, other, k) {
            let k = choose|k: int| is_child(before, other, k);
            assert(is_child(after, other, k));
            lemma_child(before, other, k);
            lemma_child(after, other, k);
        } else {
            assert forall|k: int| !is_child(after, other, k) by {
                assert(!is_child(before, other, k));
            }
        }
    }
}

/// A directory that gained a child at its place in the order.
proof fn lemma_added(before: Dir, after: Dir, i: int, grown: Dir)
    requires
        sorted(before),
        sorted(grown),
        0 <= i <= before.dirs@.len(),
        forall|k: int|
            0 <= k < i ==> order::text_le((#[trigger] before.dirs@[k]).name@, grown.name@)
                && before.dirs@[k].name@ != grown.name@,
        i < before.dirs@.len() ==> order::text_le(grown.name@, before.dirs@[i].name@)
            && before.dirs@[i].name@ != grown.name@,
        after.dirs@ == before.dirs@.insert(i, grown),
    ensures
        sorted(after),
        child_named(before, grown.name@) is None,
        child_named(after, grown.name@) == Some(grown),
        forall|other: Seq<char>| #[trigger]
            child_named(after, other) == child_named(before, other) || other == grown.name@,
{
    assert forall|k: int| i <= k < before.dirs@.len() implies order::text_le(
        grown.name@,
        (#[trigger] before.dirs@[k]).name@,
    ) && before.dirs@[k].name@ != grown.name@ by {
        if k > i {
            assert(order::text_le(before.dirs@[i].name@, before.dirs@[k].name@));
            order::text_le_transitive(grown.name@, before.dirs@[i].name@, before.dirs@[k].name@);
            if before.dirs@[k].name@ == grown.name@ {
                order::text_le_antisymmetric(grown.name@, before.dirs@[i].name@);
            }
        }
    }
    assert forall|a: int, b: int|
        #![trigger after.dirs@[a], after.dirs@[b]]
        0 <= a < b < after.dirs@.len() implies order::text_le(
        after.dirs@[a].name@,
        after.dirs@[b].name@,
    ) && after.dirs@[a].name@ != after.dirs@[b].name@ by {
        let a1 = if a < i {
            a
        } else {
            a - 1
        };
        let b1 = if b < i {
            b
        } else {
            b - 1
        };
        if a == i {
            assert(after.dirs@[b] == before.dirs@[b1]);
        } else if b == i {
            assert(after.dirs@[a] == before.dirs@[a1]);
        } else {
            assert(after.dirs@[a] == before.dirs@[a1]);
            assert(after.dirs@[b] == before.dirs@[b1]);
        }
    }
    assert forall|a: int| #![trigger after.dirs@[a]] 0 <= a < after.dirs@.len() implies sorted(
        after.dirs@[a],
    ) by {
        if a < i {
            assert(after.dirs@[a] == before.dirs@[a]);
        } else if a > i {
            assert(after.dirs@[a] == before.dirs@[a - 1]);
        }
    }
    assert(is_child(after, grown.name@, i));
    lemma_child(after, grown.name@, i);
    assert forall|k: int| !is_child(before, grown.name@, k) by {
        if is_child(before, grown.name@, k) {
            assert(before.dirs@[k].name@ == grown.name@);
        }
    }
    assert forall|other: Seq<char>| other != grown.name@ implies #[trigger] child_named(after, other)
        == child_named(before, other) by {
        if exists|k: int| is_child(before, other, k) {
            let k = choose|k: int| is_child(before, other, k);
            let m = if k < i {
                k
            } else {
                k + 1
            };
            assert(after.dirs@[m] == before.dirs@[k]);
            assert(is_child(after, other, m));
            lemma_child(before, other, k);
            lemma_child(after, other, m);
        } else {
            assert forall|k: int| !is_child(after, other, k) by {
                let m = if k < i {
                    k
                } else {
                    k - 1
                };
                assert(!is_child(before, other, m));
                if is_child(after, other, k) && k != i {
                    assert(after.dirs@[k] == before.dirs@[m]);
                }
            }
        }
    }
}

impl Dir {
    /// A directory that lists nothing.
    pub fn new(name: &str) -> (r: Dir)
        ensures
            r.name@ == name@,
            r.dirs@.len() == 0,
            r.files@.len() == 0,
            sorted(r),
    {
        Dir { name: name.to_owned(), dirs: Vec::new(), files: Vec::new() }
    }

    fn insert_at(&mut self, segments: &Vec<String>, from: usize, entry: Entry)
        requires
            sorted(*old(self)),
            from < segments@.len(),
        ensures
            sorted(*final(self)),
            final(self).name@ == old(self).name@,
            has_gained(
                *old(self),
                *final(self),
                text::texts(segments@).subrange(from as int, segments@.len() - 1),
                entry@,
            ),
        decreases segments@.len() - from,
    {
        let ghost before = *self;
        let ghost path = text::texts(segments@).subrange(from as int, segments@.len() - 1);
        if segments.len() - from == 1 {
            self.files.push(entry);
            proof {
                assert(sorted(*self));
                assert(entry_views(self.files@) =~= entry_views(before.files@).push(entry@));
                lemma_gained_here(before, *self, entry@);
                assert(path =~= seq![]);
            }
            return ;
        }
        let name = segments[from].as_str();
        let mut i: usize = 0;
        while i < self.dirs.len() && order::is_text_le(self.dirs[i].name.as_str(), name)
            && !text::same_text(self.dirs[i].name.as_str(), name)
            invariant
                *self == before,
                i <= before.dirs@.len(),
                forall|k: int|
                    0 <= k < i ==> order::text_le((#[trigger] before.dirs@[k]).name@, name@)
                        && before.dirs@[k].name@ != name@,
            decreases before.dirs@.len() - i,
        {
            i = i + 1;
        }
        proof {
            assert(path =~= seq![name@] + text::texts(segments@).subrange(
                from + 1,
                segments@.len() - 1,
            ));
            if i < before.dirs@.len() {
                order::text_le_total(before.dirs@[i as int].name@, name@);
            }
        }
        let ghost e = entry@;
        if i < self.dirs.len() && text::same_text(self.dirs[i].name.as_str(), name) {
            let mut child = self.dirs.remove(i);
            let ghost was = child;
            child.insert_at(segments, from + 1, entry);
            let ghost grown = child;
            self.dirs.insert(i, child);
            proof {
                assert(self.dirs@ =~= before.dirs@.update(i as int, grown));
                lemma_replaced(before, *self, i as int, grown);
                lemma_gained_below(
                    before,
                    *self,
                    name@,
                    was,
                    grown,
                    text::texts(segments@).subrange(from + 1, segments@.len() - 1),
                    e,
                );
            }
        } else {
            let mut child = Dir::new(name);
            let ghost was = child;
            child.insert_at(segments, from + 1, entry);
            let ghost grown = child;
            self.dirs.insert(i, child);
            proof {
                lemma_added(before, *self, i as int, grown);
                lemma_gained_below(
                    before,
                    *self,
                    name@,
                    was,
                    grown,
                    text::texts(segments@).subrange(from + 1, segments@.len() - 1),
                    e,
                );
            }
        }
    }

    /// Lists a file in the directory that its path names; the directories on the way come to be.
    pub fn insert(&mut self, entry: Entry)
        requires
            sorted(*old(self)),
        ensures
            sorted(*final(self)),
            final(self).name@ == old(self).name@,
            has_gained(*old(self), *final(self), directories(entry.path@), entry@),
    {
        let segments = text::parts(entry.path.as_str(), '/');
        assert(text::texts(segments@).len() > 0);
        assert(text::texts(segments@).subrange(0, segments@.len() - 1) =~= directories(
            entry.path@,
        ));
        self.insert_at(&segments, 0, entry);
    }
}

/// The files among paths that the editor can open.
pub open spec fn openable(paths: Seq<Seq<char>>) -> Seq<EntryView>
    decreases paths.len(),
{
    if paths.len() == 0 {
        seq![]
    } else {
        let most = openable(paths.drop_last());
        let path = text::replaced(paths.last(), '\\', '/');
        match kind_of(path) {
            Some(kind) => most.push((EntryView { path, kind })),
            None => most,
        }
    }
}

/// The paths of files.
pub open spec fn entry_paths(entries: Seq<EntryView>) -> Seq<Seq<char>> {
    entries.map_values(|e: EntryView| e.path)
}

/// Those files that lie in a directory themselves.
pub open spec fn lying_in(entries: Seq<EntryView>, dir: Seq<Seq<char>>) -> Seq<EntryView>
    decreases entries.len(),
{
    if entries.len() == 0 {
        seq![]
    } else if directories(entries.last().path) == dir {
        lying_in(entries.drop_last(), dir).push(entries.last())
    } else {
        lying_in(entries.drop_last(), dir)
    }
}

/// Whether a directory is the root or on the way to a file.
pub open spec fn has_files_below(entries: Seq<EntryView>, dir: Seq<Seq<char>>) -> bool {
    dir.len() == 0 || exists|k: int|
        0 <= k < entries.len() && leads_to(dir, directories((#[trigger] entries[k]).path))
}

/// Whether a tree lists files, each in its directory, and has no other directories.
pub open spec fn is_tree(root: Dir, entries: Seq<EntryView>) -> bool {
    &&& sorted(root)
    &&& forall|p: Seq<Seq<char>>|
        #![trigger listing(root, p)]
        listing(root, p) == lying_in(entries, p)
    &&& forall|p: Seq<Seq<char>>|
        #![trigger at_path(root, p)]
        at_path(root, p) is Some <==> has_files_below(entries, p)
}

proof fn lemma_tree_grows(before: Dir, after: Dir, entries: Seq<EntryView>, e: EntryView)
    requires
        is_tree(before, entries),
        sorted(after),
        has_gained(before, after, directories(e.path), e),
    ensures
        is_tree(after, entries.push(e)),
{
    let all = entries.push(e);
    assert(all.drop_last() =~= entries);
    assert forall|p: Seq<Seq<char>>| #![trigger listing(after, p)] listing(after, p) == lying_in(
        all,
        p,
    ) by {
        assert(listing(before, p) == lying_in(entries, p));
    }
    assert forall|p: Seq<Seq<char>>| #![trigger at_path(after, p)] at_path(after, p) is Some
        <==> has_files_below(all, p) by {
        assert(at_path(before, p) is Some <==> has_files_below(entries, p));
        if leads_to(p, directories(e.path)) {
            assert(all[entries.len() as int] == e);
        }
        if p.len() > 0 && has_files_below(entries, p) {
            let k = choose|k: int|
                0 <= k < entries.len() && leads_to(p, directories((#[trigger] entries[k]).path));
            assert(all[k] == entries[k]);
        }
        if p.len() > 0 && has_files_below(all, p) {
            let k = choose|k: int|
                0 <= k < all.len() && leads_to(p, directories((#[trigger] all[k]).path));
            if k < entries.len() {
                assert(all[k] == entries[k]);
            }
        }
    }
}

fn copy_entry(e: &Entry) -> (r: Entry)
    ensures
        r@ == e@,
{
    Entry { path: e.path.clone(), kind: e.kind }
}

/// Everything the editor can open, as a list sorted by path and as a directory tree.
pub struct Library {
    pub entries: Vec<Entry>,
    pub root: Dir,
}

/// Whether a list is the openable files among paths, sorted.
pub open spec fn is_sorted_list(list: Seq<EntryView>, paths: Seq<Seq<char>>) -> bool {
    let found = openable(paths);
    exists|at: Seq<usize>| #[trigger]
        order::is_stable_order(at, order::texts_le(entry_paths(found)), found.len()) && list
            == at.map_values(|i: usize| found[i as int])
}

/// Lists what the editor can open among the paths of files below the asset root, with `/`
/// separators, sorted by path, and as a tree.
pub fn scan_library(paths: &Vec<String>) -> (r: Library)
    ensures
        is_sorted_list(entry_views(r.entries@), text::texts(paths@)),
        is_tree(r.root, entry_views(r.entries@)),
{
    let mut found: Vec<Entry> = Vec::new();
    let mut keys: Vec<String> = Vec::new();
    for i in 0..paths.len()
        invariant
            entry_views(found@) == openable(text::texts(paths@).take(i as int)),
            text::texts(keys@) == entry_paths(entry_views(found@)),
    {
        let ghost all = text::texts(paths@);
        assert(all.take(i + 1).drop_last() =~= all.take(i as int));
        assert(all.take(i + 1).last() == paths@[i as int]@);
        let path = text::replace_char(paths[i].as_str(), '\\', '/');
        if let Some(kind) = Kind::of(path.as_str()) {
            let ghost before = found@;
            let ghost keyed = keys@;
            keys.push(path.clone());
            found.push(Entry { path, kind });
            proof {
                text::lemma_texts_push(keyed, keys@.last());
                assert(entry_views(found@) =~= entry_views(before).push(found@.last()@));
                assert(entry_paths(entry_views(found@)) =~= entry_paths(entry_views(before)).push(
                    found@.last()@.path,
                ));
            }
        }
    }
    assert(text::texts(paths@).take(paths@.len() as int) =~= text::texts(paths@));
    let ghost all = openable(text::texts(paths@));
    let at = order::order_texts(&keys);
    let ghost listed = at@.map_values(|i: usize| all[i as int]);
    let mut entries: Vec<Entry> = Vec::new();
    let mut root = Dir::new("");
    proof {
        assert(entry_views(entries@) =~= seq![]);
        assert forall|p: Seq<Seq<char>>|
            #![trigger listing(root, p)]
            listing(root, p) == lying_in(seq![], p) by {
            lemma_bare(root, p);
            assert(entry_views(root.files@) =~= seq![]);
        }
        assert forall|p: Seq<Seq<char>>| #![trigger at_path(root, p)] at_path(root, p) is Some
            <==> has_files_below(seq![], p) by {
            lemma_bare(root, p);
        }
    }
    for k in 0..at.len()
        invariant
            all == entry_views(found@),
            at@.len() == all.len(),
            forall|k: int| 0 <= k < at@.len() ==> #[trigger] at@[k] < found@.len(),
            listed == at@.map_values(|i: usize| all[i as int]),
            entry_views(entries@) == listed.take(k as int),
            is_tree(root, listed.take(k as int)),
    {
        let e = &found[at[k]];
        let ghost before = entries@;
        let ghost tree = root;
        entries.push(copy_entry(e));
        root.insert(copy_entry(e));
        proof {
            assert(e@ == all[at@[k as int] as int]);
            assert(entry_views(entries@) =~= entry_views(before).push(e@));
            assert(listed.take(k + 1) =~= listed.take(k as int).push(e@));
            lemma_tree_grows(tree, root, listed.take(k as int), e@);
        }
    }
    assert(listed.take(at@.len() as int) =~= listed);
    Library { entries, root }
}

/// The names of a directory's children.
pub open spec fn child_names(d: Dir) -> Seq<Seq<char>> {
    d.dirs@.map_values(|c: Dir| c.name@)
}

/// The directories that start open: every top-level one, so the tree is not a wall of `+`.
pub fn first_expanded(root: &Dir) -> (r: Vec<String>)
    ensures
        text::texts(r@) == child_names(*root),
{
    let mut out: Vec<String> = Vec::new();
    for i in 0..root.dirs.len()
        invariant
            text::texts(out@) == child_names(*root).take(i as int),
    {
        let ghost before = out@;
        out.push(root.dirs[i].name.clone());
        proof {
            text::lemma_texts_push(before, out@.last());
        }
        assert(text::texts(out@) =~= child_names(*root).take(i + 1));
    }
    assert(text::texts(out@) =~= child_names(*root));
    out
}

/// One row of the browser.
pub enum BrowserRow {
    /// A directory: a click opens or closes it.
    Directory { depth: usize, label: String, path: String },
    /// A file: a click loads it.
    File { depth: usize, label: String, path: String, kind: Kind },
}

/// A row, by its contents.
pub ghost enum RowView {
    Directory { depth: int, label: Seq<char>, path: Seq<char> },
    File { depth: int, label: Seq<char>, path: Seq<char>, kind: Kind },
}

impl View for BrowserRow {
    type V = RowView;

    open spec fn view(&self) -> RowView {
        match self {
            BrowserRow::Directory { depth, label, path } => RowView::Directory {
                depth: *depth as int,
                label: label@,
                path: path@,
            },
            BrowserRow::File { depth, label, path, kind } => RowView::File {
                depth: *depth as int,
                label: label@,
                path: path@,
                kind: *kind,
            },
        }
    }
}

/// Rows, by their contents.
pub open spec fn row_views(rows: Seq<BrowserRow>) -> Seq<RowView> {
    rows.map_values(|r: BrowserRow| r@)
}

/// The path of a directory's child.
pub open spec fn child_path(path: Seq<char>, name: Seq<char>) -> Seq<char> {
    if path.len() == 0 {
        name
    } else {
        path + "/"@ + name
    }
}

/// The row of a directory.
pub open spec fn directory_row(
    path: Seq<char>,
    name: Seq<char>,
    depth: int,
    open: bool,
) -> RowView {
    RowView::Directory {
        depth,
        label: (if open {
            "-"@
        } else {
            "+"@
        }) + " "@ + name + "/"@,
        path: child_path(path, name),
    }
}

/// The row of a file.
pub open spec fn file_row(e: Entry, depth: int) -> RowView {
    RowView::File {
        depth,
        label: "  "@ + text::parts_of(e.path@, '/').last() + "   ["@ + kind_label(e.kind) + "]"@,
        path: e.path@,
        kind: e.kind,
    }
}

/// The rows of a directory's first `upto` children, each with what it shows below it.
pub open spec fn child_rows(
    d: Dir,
    path: Seq<char>,
    depth: int,
    expanded: Seq<Seq<char>>,
    upto: nat,
) -> Seq<RowView>
    decreases d, upto,
{
    if upto == 0 || upto > d.dirs@.len() {
        seq![]
    } else {
        let c = d.dirs@[upto - 1];
        let below = child_path(path, c.name@);
        let most = child_rows(d, path, depth, expanded, (upto - 1) as nat);
        if expanded.contains(below) {
            most + seq![directory_row(path, c.name@, depth, true)] + (child_rows(
                c,
                below,
                depth + 1,
                expanded,
                c.dirs@.len(),
            ) + file_rows(c, depth + 1))
        } else {
            most + seq![directory_row(path, c.name@, depth, false)]
        }
    }
}

/// The rows of a directory's files.
pub open spec fn file_rows(d: Dir, depth: int) -> Seq<RowView> {
    d.files@.map_values(|e: Entry| file_row(e, depth))
}

/// The rows of a directory: one per child, with what an open one shows, then one per file.
pub open spec fn dir_rows(
    d: Dir,
    path: Seq<char>,
    depth: int,
    expanded: Seq<Seq<char>>,
) -> Seq<RowView> {
    child_rows(d, path, depth, expanded, d.dirs@.len()) + file_rows(d, depth)
}

/// Whether every depth below a directory at `depth` can be counted.
pub open spec fn countable(d: Dir, depth: int) -> bool
    decreases d,
{
    &&& depth <= usize::MAX
    &&& forall|i: int|
        #![trigger d.dirs@[i]]
        0 <= i < d.dirs@.len() ==> countable(d.dirs@[i], depth + 1)
}

fn file_label(e: &Entry) -> (r: String)
    ensures
        r@ == file_row(*e, 0)->File_label,
{
    let parts = text::parts(e.path.as_str(), '/');
    assert(text::texts(parts@).len() > 0);
    let mut out = "  ".to_owned();
    out.append(parts[parts.len() - 1].as_str());
    out.append("   [");
    out.append(e.kind.label());
    out.append("]");
    out
}

fn directory_label(name: &str, open: bool) -> (r: String)
    ensures
        r@ == directory_row(seq![], name@, 0, open)->Directory_label,
{
    let mut out = if open {
        "-".to_owned()
    } else {
        "+".to_owned()
    };
    out.append(" ");
    out.append(name);
    out.append("/");
    out
}

fn below(path: &str, name: &str) -> (r: String)
    ensures
        r@ == child_path(path@, name@),
{
    if path.is_empty() {
        name.to_owned()
    } else {
        let mut out = path.to_owned();
        out.append("/");
        out.append(name);
        out
    }
}

/// Appends the rows of a directory. Only an expanded directory recurses, so a collapsed subtree
/// costs nothing.
pub fn spawn_dir(
    d: &Dir,
    path: &str,
    depth: usize,
    expanded: &Vec<String>,
    rows: &mut Vec<BrowserRow>,
)
    requires
        countable(*d, depth as int),
    ensures
        row_views(final(rows)@) == row_views(old(rows)@) + dir_rows(
            *d,
            path@,
            depth as int,
            text::texts(expanded@),
        ),
    decreases *d,
{
    let ghost base = row_views(rows@);
    let ghost open_set = text::texts(expanded@);
    assert(row_views(rows@) =~= base + child_rows(*d, path@, depth as int, open_set, 0));
    for i in 0..d.dirs.len()
        invariant
            countable(*d, depth as int),
            open_set == text::texts(expanded@),
            row_views(rows@) == base + child_rows(*d, path@, depth as int, open_set, i as nat),
    {
        let c = &d.dirs[i];
        let at = below(path, c.name.as_str());
        let open = text::list_contains(expanded, at.as_str());
        let ghost before = rows@;
        let ghost most = child_rows(*d, path@, depth as int, open_set, i as nat);
        rows.push(
            BrowserRow::Directory {
                depth,
                label: directory_label(c.name.as_str(), open),
                path: at.clone(),
            },
        );
        let ghost row = directory_row(path@, c.name@, depth as int, open);
        assert(rows@.last()@ == row);
        assert(row_views(rows@) =~= row_views(before).push(row));
        assert(row_views(rows@) =~= base + (most + seq![row]));
        if open {
            assert(countable(d.dirs@[i as int], depth + 1));
            spawn_dir(c, at.as_str(), depth + 1, expanded, rows);
            assert(row_views(rows@) =~= base + (most + seq![row] + dir_rows(
                *c,
                at@,
                depth + 1,
                open_set,
            )));
        }
    }
    let ghost most = child_rows(*d, path@, depth as int, open_set, d.dirs@.len());
    let ghost files = file_rows(*d, depth as int);
    assert(row_views(rows@) =~= base + most + files.take(0));
    for i in 0..d.files.len()
        invariant
            files == file_rows(*d, depth as int),
            row_views(rows@) == base + most + files.take(i as int),
    {
        let e = &d.files[i];
        let ghost before = rows@;
        rows.push(
            BrowserRow::File { depth, label: file_label(e), path: e.path.clone(), kind: e.kind },
        );
        assert(rows@.last()@ == file_row(*e, depth as int));
        assert(row_views(rows@) =~= row_views(before).push(files[i as int]));
        assert(row_views(rows@) =~= base + most + files.take(i + 1));
    }
    assert(files.take(d.files@.len() as int) =~= files);
    assert(row_views(rows@) =~= base + dir_rows(*d, path@, depth as int, open_set));
}

/// Whether `after` names the same directories as `before`, but for `path`.
pub open spec fn toggled(before: Seq<Seq<char>>, after: Seq<Seq<char>>, path: Seq<char>) -> bool {
    forall|p: Seq<char>|
        #![trigger after.contains(p)]
        after.contains(p) == (if p == path {
            !before.contains(p)
        } else {
            before.contains(p)
        })
}

/// A second click takes back the first.
pub proof fn toggling_twice_changes_nothing(
    before: Seq<Seq<char>>,
    between: Seq<Seq<char>>,
    after: Seq<Seq<char>>,
    path: Seq<char>,
    p: Seq<char>,
)
    requires
        toggled(before, between, path),
        toggled(between, after, path),
    ensures
        after.contains(p) == before.contains(p),
{
    assert(between.contains(p) || !between.contains(p));
}

/// Opens a closed directory, or closes an open one.
pub fn toggle(expanded: &mut Vec<String>, path: &str)
    ensures
        toggled(text::texts(old(expanded)@), text::texts(final(expanded)@), path@),
{
    let ghost before = text::texts(expanded@);
    let mut kept: Vec<String> = Vec::new();
    let mut was_open = false;
    for i in 0..expanded.len()
        invariant
            before == text::texts(expanded@),
            was_open == before.take(i as int).contains(path@),
            forall|p: Seq<char>|
                #![trigger text::texts(kept@).contains(p)]
                text::texts(kept@).contains(p) == (p != path@ && before.take(i as int).contains(
                    p,
                )),
    {
        let ghost shorter = before.take(i as int);
        let ghost longer = before.take(i + 1);
        let ghost name = expanded@[i as int]@;
        assert(longer =~= shorter.push(name));
        proof {
            lemma_push_contains(shorter, name);
        }
        if text::same_text(expanded[i].as_str(), path) {
            was_open = true;
        } else {
            let ghost old_kept = kept@;
            kept.push(expanded[i].clone());
            proof {
                text::lemma_texts_push(old_kept, kept@.last());
                lemma_push_contains(text::texts(old_kept), name);
            }
        }
    }
    assert(before.take(expanded@.len() as int) =~= before);
    if !was_open {
        let ghost old_kept = kept@;
        kept.push(path.to_owned());
        proof {
            text::lemma_texts_push(old_kept, kept@.last());
            lemma_push_contains(text::texts(old_kept), path@);
        }
    }
    *expanded = kept;
}

proof fn lemma_push_contains(list: Seq<Seq<char>>, x: Seq<char>)
    ensures
        forall|p: Seq<char>|
            #![trigger list.push(x).contains(p)]
            list.push(x).contains(p) <==> (list.contains(p) || p == x),
{
    assert forall|p: Seq<char>|
        #![trigger list.push(x).contains(p)]
        list.push(x).contains(p) <==> (list.contains(p) || p == x) by {
        if list.contains(p) {
            let i = choose|i: int| 0 <= i < list.len() && list[i] == p;
            assert(list.push(x)[i] == p);
        }
        if p == x {
            assert(list.push(x)[list.len() as int] == p);
        }
        if list.push(x).contains(p) {
            let i = choose|i: int| 0 <= i < list.push(x).len() && list.push(x)[i] == p;
            if i < list.len() {
                assert(list[i] == p);
            }
        }
    }
}

/// A file is opened by what its name ends in; any other is not listed.
pub proof fn files_are_known_by_their_ending(stem: Seq<char>, paths: Seq<Seq<char>>)
    requires
        !stem.contains('\\'),
    ensures
        openable(paths.push(stem + ".animgraph.ron"@)) == openable(paths).push(
            (EntryView { path: stem + ".animgraph.ron"@, kind: Kind::Graph }),
        ),
        openable(paths.push(stem + ".anim.ron"@)) == openable(paths).push(
            (EntryView { path: stem + ".anim.ron"@, kind: Kind::Clip }),
        ),
        openable(paths.push(stem + ".skn.ron"@)) == openable(paths).push(
            (EntryView { path: stem + ".skn.ron"@, kind: Kind::Skeleton }),
        ),
        openable(paths.push(stem + ".fsm.ron"@)) == openable(paths).push(
            (EntryView { path: stem + ".fsm.ron"@, kind: Kind::StateMachine }),
        ),
        openable(paths.push(stem + ".png"@)) == openable(paths),
{
    reveal_strlit(".animgraph.ron");
    reveal_strlit(".anim.ron");
    reveal_strlit(".skn.ron");
    reveal_strlit(".fsm.ron");
    reveal_strlit(".png");
    let (a, b, c, d, e) = (
        stem + ".animgraph.ron"@,
        stem + ".anim.ron"@,
        stem + ".skn.ron"@,
        stem + ".fsm.ron"@,
        stem + ".png"@,
    );
    lemma_forward(stem, ".animgraph.ron"@);
    lemma_forward(stem, ".anim.ron"@);
    lemma_forward(stem, ".skn.ron"@);
    lemma_forward(stem, ".fsm.ron"@);
    lemma_forward(stem, ".png"@);
    lemma_ending(stem, ".animgraph.ron"@);
    lemma_ending(stem, ".anim.ron"@);
    lemma_ending(stem, ".skn.ron"@);
    lemma_ending(stem, ".fsm.ron"@);
    lemma_other_ending(b, ".animgraph.ron"@, 5, 'm', 'h');
    lemma_other_ending(c, ".animgraph.ron"@, 5, 'n', 'h');
    lemma_other_ending(c, ".anim.ron"@, 5, 'n', 'm');
    lemma_other_ending(d, ".animgraph.ron"@, 5, 'm', 'h');
    lemma_other_ending(d, ".anim.ron"@, 6, 's', 'i');
    lemma_other_ending(d, ".skn.ron"@, 5, 'm', 'n');
    lemma_other_ending(e, ".animgraph.ron"@, 1, 'g', 'n');
    lemma_other_ending(e, ".anim.ron"@, 1, 'g', 'n');
    lemma_other_ending(e, ".skn.ron"@, 1, 'g', 'n');
    lemma_other_ending(e, ".fsm.ron"@, 1, 'g', 'n');
    assert(paths.push(a).drop_last() =~= paths);
    assert(paths.push(b).drop_last() =~= paths);
    assert(paths.push(c).drop_last() =~= paths);
    assert(paths.push(d).drop_last() =~= paths);
    assert(paths.push(e).drop_last() =~= paths);
}

proof fn lemma_forward(stem: Seq<char>, ending: Seq<char>)
    requires
        !stem.contains('\\'),
        forall|i: int| 0 <= i < ending.len() ==> #[trigger] ending[i] != '\\',
    ensures
        text::replaced(stem + ending, '\\', '/') == stem + ending,
{
    let all = stem + ending;
    assert forall|i: int| 0 <= i < all.len() implies all[i] != '\\' by {
        if i < stem.len() {
            assert(stem.contains(stem[i]));
        } else {
            assert(all[i] == ending[i - stem.len()]);
        }
    }
    assert(text::replaced(all, '\\', '/') =~= all);
}

proof fn lemma_ending(stem: Seq<char>, ending: Seq<char>)
    ensures
        text::ends_in(stem + ending, ending),
{
    let all = stem + ending;
    assert(all.subrange(all.len() - ending.len(), all.len() as int) =~= ending);
}

proof fn lemma_other_ending(all: Seq<char>, ending: Seq<char>, back: int, a: char, b: char)
    requires
        0 < back <= ending.len(),
        all.len() >= back,
        all[all.len() - back] == a,
        ending[ending.len() - back] == b,
        a != b,
    ensures
        !text::ends_in(all, ending),
{
    if text::ends_in(all, ending) {
        let end = all.subrange(all.len() - ending.len(), all.len() as int);
        assert(end[ending.len() - back] == all[all.len() - back]);
    }
}

/// A file lies in a directory where its path is that directory's, a slash and its own name.
pub proof fn files_lie_in_their_directory(dir: Seq<char>, name: Seq<char>)
    requires
        !dir.contains('/'),
        !name.contains('/'),
    ensures
        directories(name).len() == 0,
        directories(dir + seq!['/'] + name) == seq![dir],
{
    text::whole_text_stays(name, '/');
    text::joined_texts_split(dir, '/', name);
    assert(text::parts_of(name, '/') =~= seq![name]);
    assert(text::parts_of(dir + seq!['/'] + name, '/') =~= seq![dir, name]);
    assert(directories(dir + seq!['/'] + name) =~= seq![dir]);
}

/// A directory lists exactly the files that lie in it, in order.
pub proof fn directories_list_their_files(entries: Seq<EntryView>, dir: Seq<Seq<char>>)
    ensures
        lying_in(entries, dir) == entries.filter(|e: EntryView| directories(e.path) == dir),
    decreases entries.len(),
{
    reveal(Seq::filter);
    if entries.len() > 0 {
        directories_list_their_files(entries.drop_last(), dir);
    }
}

/// A closed directory is one row, marked with a plus. An open one is marked with a minus, and what
/// it holds follows one level deeper: its directories, then its files.
pub proof fn open_directories_show_their_rows(
    d: Dir,
    path: Seq<char>,
    depth: int,
    expanded: Seq<Seq<char>>,
    k: int,
)
    requires
        0 <= k < d.dirs@.len(),
        path.len() > 0,
    ensures
        ({
            let c = d.dirs@[k];
            let own = path + "/"@ + c.name@;
            let before = child_rows(d, path, depth, expanded, k as nat);
            let after = child_rows(d, path, depth, expanded, (k + 1) as nat);
            &&& !expanded.contains(own) ==> after == before.push(
                RowView::Directory { depth, label: "+"@ + " "@ + c.name@ + "/"@, path: own },
            )
            &&& expanded.contains(own) ==> after == before.push(
                RowView::Directory { depth, label: "-"@ + " "@ + c.name@ + "/"@, path: own },
            ) + dir_rows(c, own, depth + 1, expanded)
        }),
        child_rows(d, path, depth, expanded, 0).len() == 0,
{
    let c = d.dirs@[k];
    let own = path + "/"@ + c.name@;
    let before = child_rows(d, path, depth, expanded, k as nat);
    let after = child_rows(d, path, depth, expanded, (k + 1) as nat);
    let row = directory_row(path, c.name@, depth, expanded.contains(own));
    assert(before + seq![row] =~= before.push(row));
    if expanded.contains(own) {
        assert(after =~= before.push(row) + dir_rows(c, own, depth + 1, expanded));
    }
}

/// A file's row tells its name, without its directories, and its kind.
pub proof fn files_are_shown_by_name(e: Entry, dir: Seq<char>, name: Seq<char>, depth: int)
    requires
        !dir.contains('/'),
        !name.contains('/'),
        e.path@ == dir + seq!['/'] + name,
    ensures
        file_row(e, depth) == (RowView::File {
            depth,
            label: "  "@ + name + "   ["@ + kind_label(e.kind) + "]"@,
            path: e.path@,
            kind: e.kind,
        }),
        kind_label(Kind::Graph) == "graph"@,
        kind_label(Kind::Clip) == "clip"@,
        kind_label(Kind::Skeleton) == "skeleton"@,
        kind_label(Kind::StateMachine) == "fsm"@,
{
    text::whole_text_stays(name, '/');
    text::joined_texts_split(dir, '/', name);
    assert(text::parts_of(name, '/') =~= seq![name]);
    assert(text::parts_of(dir + seq!['/'] + name, '/') =~= seq![dir, name]);
}

/// Entries and rows keep their depth, their label, their path and their kind.
pub proof fn rows_keep_their_labels(e: Entry, r: BrowserRow)
    ensures
        e@.path == e.path@ && e@.kind == e.kind,
        match r {
            BrowserRow::Directory { depth, label, path } => r@ == (RowView::Directory {
                depth: depth as int,
                label: label@,
                path: path@,
            }),
            BrowserRow::File { depth, label, path, kind } => r@ == (RowView::File {
                depth: depth as int,
                label: label@,
                path: path@,
                kind,
            }),
        },
{
}

} // verus!
