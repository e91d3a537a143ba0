//! In-RAM filesystem: a fixed table of nodes, each a file or a directory.
//!
//! Node 0 is the root directory. A directory lists its children in a fixed
//! array of slots; the list ends at the first empty slot. Nodes are handed
//! out in order and never reused.
use vstd::prelude::*;
use vstd::bytes::{spec_u64_from_le_bytes, spec_u64_to_le_bytes, u64_from_le_bytes, u64_to_le_bytes};
use vstd::utf8::valid_utf8;

use crate::text::{bytes_eq, copy_range, is_utf8, path_parts, split_path};

verus! {

pub const MAX_NAME: usize = 32;
pub const MAX_NODES: usize = 64;
pub const MAX_CHILDREN: usize = 16;
pub const MAX_FILE_SIZE: usize = 256;
/// Marks an empty child slot.
pub const NO_CHILD: usize = usize::MAX;
/// The name shown for a stored name that is not valid UTF-8.
pub const UNKNOWN_NAME: u8 = 0x3F;

#[derive(Clone, Copy, Debug, PartialEq, Eq, Structural)]
pub enum FsNodeKind {
    Unused,
    File,
    Dir,
}

#[derive(Clone, Copy, Debug)]
pub struct FsNode {
    pub kind: FsNodeKind,
    pub name: [u8; MAX_NAME],
    pub parent: usize,
    pub children: [usize; MAX_CHILDREN],
    pub data: [u8; MAX_FILE_SIZE],
    pub data_len: usize,
}

/// Index of the first zero byte of `s` at or after `i`, or `s.len()`.
pub open spec fn nul_len_from(s: Seq<u8>, i: int) -> int
    decreases s.len() - i,
{
    if i >= s.len() || s[i] == 0 {
        i
    } else {
        nul_len_from(s, i + 1)
    }
}

proof fn lemma_nul_len_bounds(s: Seq<u8>, i: int)
    requires
        0 <= i <= s.len(),
    ensures
        i <= nul_len_from(s, i) <= s.len(),
        forall|j: int| i <= j < nul_len_from(s, i) ==> s[j] != 0,
        nul_len_from(s, i) < s.len() ==> s[nul_len_from(s, i)] == 0,
    decreases s.len() - i,
{
    if i < s.len() && s[i] != 0 {
        lemma_nul_len_bounds(s, i + 1);
    }
}

/// Bounds of `nul_len_from` (see `lemma_nul_len_bounds`).
pub proof fn lemma_nul_len_bounds_pub(s: Seq<u8>, i: int)
    requires
        0 <= i <= s.len(),
    ensures
        i <= nul_len_from(s, i) <= s.len(),
        forall|j: int| i <= j < nul_len_from(s, i) ==> s[j] != 0,
        nul_len_from(s, i) < s.len() ==> s[nul_len_from(s, i)] == 0,
{
    lemma_nul_len_bounds(s, i);
}

/// The stored name bytes: the name array up to its first zero byte.
pub open spec fn raw_name(n: FsNode) -> Seq<u8> {
    n.name@.subrange(0, nul_len_from(n.name@, 0))
}

/// The name a node answers to: its stored bytes when they are valid UTF-8,
/// otherwise "?".
pub open spec fn name_of(n: FsNode) -> Seq<u8> {
    if valid_utf8(raw_name(n)) {
        raw_name(n)
    } else {
        seq![UNKNOWN_NAME]
    }
}

/// The name array stored for `s`: its first 31 bytes, then zero bytes.
pub open spec fn name_arr(s: Seq<u8>) -> Seq<u8> {
    Seq::new(MAX_NAME as nat, |i: int| if i < s.len() && i < MAX_NAME - 1 { s[i] } else { 0u8 })
}

/// The child of `parent` named `name`, searching the slots from `i` on and
/// stopping at the first empty slot.
pub open spec fn lookup_from(nodes: Seq<FsNode>, parent: int, name: Seq<u8>, i: int) -> Option<
    usize,
>
    decreases MAX_CHILDREN - i,
{
    if i < 0 || i >= MAX_CHILDREN {
        None
    } else {
        let c = nodes[parent].children@[i];
        if c == NO_CHILD {
            None
        } else if name_of(nodes[c as int]) == name {
            Some(c)
        } else {
            lookup_from(nodes, parent, name, i + 1)
        }
    }
}

pub open spec fn lookup(nodes: Seq<FsNode>, parent: int, name: Seq<u8>) -> Option<usize> {
    lookup_from(nodes, parent, name, 0)
}

/// The node reached from `cur` by looking up each component in turn.
pub open spec fn walk(nodes: Seq<FsNode>, cur: int, parts: Seq<Seq<u8>>) -> Option<usize>
    decreases parts.len(),
{
    if parts.len() == 0 {
        Some(cur as usize)
    } else {
        match lookup(nodes, cur, parts[0]) {
            Some(c) => walk(nodes, c as int, parts.drop_first()),
            None => None,
        }
    }
}

/// The node a path names, if any.
pub open spec fn resolve_spec(nodes: Seq<FsNode>, path: Seq<u8>) -> Option<usize> {
    walk(nodes, 0, path_parts(path))
}

/// What reading a file gives: its stored bytes, when the path names a file.
pub open spec fn read_spec(nodes: Seq<FsNode>, path: Seq<u8>) -> Option<Seq<u8>> {
    match resolve_spec(nodes, path) {
        Some(i) => if nodes[i as int].kind == FsNodeKind::File {
            Some(nodes[i as int].data@.subrange(0, nodes[i as int].data_len as int))
        } else {
            None
        },
        None => None,
    }
}

/// Names of the children of `idx` in slot order, from slot `i` up to the first empty slot.
pub open spec fn child_names_from(nodes: Seq<FsNode>, idx: int, i: int) -> Seq<Seq<u8>>
    decreases MAX_CHILDREN - i,
{
    if i < 0 || i >= MAX_CHILDREN {
        seq![]
    } else {
        let c = nodes[idx].children@[i];
        if c == NO_CHILD {
            seq![]
        } else {
            seq![name_of(nodes[c as int])] + child_names_from(nodes, idx, i + 1)
        }
    }
}

/// The effect of writing `data` to a file node: the first `min(len, 256)`
/// bytes of its data are replaced and its length set to that count.
pub open spec fn data_written(old_n: FsNode, new_n: FsNode, data: Seq<u8>) -> bool {
    let len = if data.len() < MAX_FILE_SIZE {
        data.len() as int
    } else {
        MAX_FILE_SIZE as int
    };
    &&& new_n.kind == old_n.kind
    &&& new_n.name == old_n.name
    &&& new_n.parent == old_n.parent
    &&& new_n.children == old_n.children
    &&& new_n.data_len == len
    &&& new_n.data@ == data.subrange(0, len) + old_n.data@.subrange(len, MAX_FILE_SIZE as int)
}

/// The effect of writing `data` to the file `path` names: that file's
/// contents are replaced (see `data_written`) and `r` is true; when the
/// path names no file, nothing changes and `r` is false.
pub open spec fn write_effect(n0: Seq<FsNode>, c0: nat, path: Seq<u8>, data: Seq<u8>, n1: Seq<FsNode>, c1: nat, r: bool) -> bool {
    &&& c1 == c0
    &&& r == (resolve_spec(n0, path) matches Some(i) && n0[i as int].kind == FsNodeKind::File)
    &&& r ==> ({
        let i = resolve_spec(n0, path).unwrap() as int;
        &&& n1.len() == n0.len()
        &&& data_written(n0[i], n1[i], data)
        &&& forall|j: int| 0 <= j < n0.len() && j != i ==> #[trigger] n1[j] == n0[j]
    })
    &&& !r ==> n1 == n0
}

/// Two node tables with the same names and child links at every index.
pub open spec fn same_shape(a: Seq<FsNode>, b: Seq<FsNode>) -> bool {
    &&& a.len() == b.len()
    &&& forall|k: int|
        0 <= k < a.len() ==> (#[trigger] b[k]).name == a[k].name && b[k].children == a[k].children
}

/// Every child link of the table names one of its nodes or is empty.
pub open spec fn links_in_range(a: Seq<FsNode>) -> bool {
    forall|k: int| 0 <= k < a.len() ==> node_ok(#[trigger] a[k], a.len() as int)
}

proof fn lemma_lookup_same_shape(a: Seq<FsNode>, b: Seq<FsNode>, parent: int, name: Seq<u8>, i: int)
    requires
        same_shape(a, b),
        links_in_range(a),
        0 <= parent < a.len(),
    ensures
        lookup_from(a, parent, name, i) == lookup_from(b, parent, name, i),
        lookup_from(a, parent, name, i) matches Some(c) ==> c < a.len(),
    decreases MAX_CHILDREN - i,
{
    if 0 <= i < MAX_CHILDREN {
        assert(node_ok(a[parent], a.len() as int));
        assert(b[parent].children == a[parent].children);
        let c = a[parent].children@[i];
        if c != NO_CHILD {
            assert(b[c as int].name == a[c as int].name);
        }
        lemma_lookup_same_shape(a, b, parent, name, i + 1);
    }
}

proof fn lemma_walk_same_shape(a: Seq<FsNode>, b: Seq<FsNode>, cur: int, parts: Seq<Seq<u8>>)
    requires
        same_shape(a, b),
        links_in_range(a),
        0 <= cur < a.len(),
    ensures
        walk(a, cur, parts) == walk(b, cur, parts),
        walk(a, cur, parts) matches Some(c) ==> c < a.len(),
    decreases parts.len(),
{
    if parts.len() > 0 {
        lemma_lookup_same_shape(a, b, cur, parts[0], 0);
        if let Some(c) = lookup(a, cur, parts[0]) {
            lemma_walk_same_shape(a, b, c as int, parts.drop_first());
        }
    }
}

/// A file reads back as it was last written: after a write that succeeded,
/// the path gives the written bytes (at most `MAX_FILE_SIZE` of them), and
/// every path that named another node, or nothing, reads as it did before.
pub proof fn law_read_after_write(before: FileSystem, after: FileSystem, path: Seq<u8>, data: Seq<u8>)
    requires
        before.wf(),
        write_effect(before.nodes(), before.count(), path, data, after.nodes(), after.count(), true),
    ensures
        read_spec(after.nodes(), path) == Some(
            data.subrange(0, if data.len() < MAX_FILE_SIZE { data.len() as int } else { MAX_FILE_SIZE as int }),
        ),
        forall|p: Seq<u8>|
            resolve_spec(before.nodes(), p) != resolve_spec(before.nodes(), path) ==> #[trigger] read_spec(
                after.nodes(),
                p,
            ) == read_spec(before.nodes(), p),
{
    let a = before.nodes();
    let b = after.nodes();
    let i = resolve_spec(a, path).unwrap() as int;
    before.lemma_links_in_range();
    assert(same_shape(a, b)) by {
        assert forall|k: int| 0 <= k < a.len() implies (#[trigger] b[k]).name == a[k].name && b[k].children
            == a[k].children by {
            if k != i {
                assert(b[k] == a[k]);
            }
        }
    }
    lemma_walk_same_shape(a, b, 0, path_parts(path));
    assert(b[i].data@.subrange(0, b[i].data_len as int) =~= data.subrange(
        0,
        if data.len() < MAX_FILE_SIZE { data.len() as int } else { MAX_FILE_SIZE as int },
    ));
    assert forall|p: Seq<u8>|
        resolve_spec(a, p) != resolve_spec(a, path) implies #[trigger] read_spec(b, p) == read_spec(a, p) by {
        lemma_walk_same_shape(a, b, 0, path_parts(p));
        if let Some(j) = resolve_spec(a, p) {
            assert(j != i);
            assert(b[j as int] == a[j as int]);
        }
    }
}

/// A name a node can hold exactly: at most 31 bytes of valid UTF-8, none of them zero.
pub open spec fn storable_name(s: Seq<u8>) -> bool {
    &&& s.len() < MAX_NAME
    &&& forall|j: int| 0 <= j < s.len() ==> s[j] != 0
    &&& valid_utf8(s)
}

proof fn lemma_storable_name(n: FsNode, s: Seq<u8>)
    requires
        n.name@ == name_arr(s),
        storable_name(s),
    ensures
        name_of(n) == s,
{
    lemma_nul_len_bounds(n.name@, 0);
    let k = nul_len_from(n.name@, 0);
    if k < s.len() {
        assert(n.name@[k] == s[k]);
    }
    if k > s.len() {
        assert(n.name@[s.len() as int] == 0);
    }
    assert(raw_name(n) =~= s);
}

/// Walking through `a` and then `b` is walking through `a + b`.
proof fn lemma_walk_append(nodes: Seq<FsNode>, cur: int, a: Seq<Seq<u8>>, b: Seq<Seq<u8>>)
    requires
        0 <= cur <= usize::MAX,
    ensures
        walk(nodes, cur, a + b) == match walk(nodes, cur, a) {
            Some(c) => walk(nodes, c as int, b),
            None => None,
        },
    decreases a.len(),
{
    if a.len() == 0 {
        assert(a + b =~= b);
    } else {
        assert((a + b)[0] == a[0]);
        assert((a + b).drop_first() =~= a.drop_first() + b);
        if let Some(c) = lookup(nodes, cur, a[0]) {
            lemma_walk_append(nodes, c as int, a.drop_first(), b);
        }
    }
}

/// Nodes reached from a handed-out node through links stay handed out.
proof fn lemma_lookup_below(nodes: Seq<FsNode>, count: int, parent: int, name: Seq<u8>, i: int)
    requires
        0 <= parent < count <= nodes.len(),
        node_ok(nodes[parent], count),
    ensures
        lookup_from(nodes, parent, name, i) matches Some(c) ==> c < count,
    decreases MAX_CHILDREN - i,
{
    if 0 <= i < MAX_CHILDREN {
        lemma_lookup_below(nodes, count, parent, name, i + 1);
    }
}

/// The prefix of the components that `dir_walk` passes is walked to the
/// directory it reaches, which is a handed-out node.
proof fn lemma_dir_walk(nodes: Seq<FsNode>, count: int, cur: int, parts: Seq<Seq<u8>>)
    requires
        0 <= cur < count <= nodes.len(),
        forall|k: int| 0 <= k < count ==> node_ok(#[trigger] nodes[k], count),
    ensures
        0 <= dir_walk(nodes, cur, parts).0 <= parts.len(),
        0 <= dir_walk(nodes, cur, parts).1 < count,
        walk(nodes, cur, parts.subrange(0, dir_walk(nodes, cur, parts).0)) == Some(
            dir_walk(nodes, cur, parts).1 as usize,
        ),
        dir_walk(nodes, cur, parts).0 > 0 ==> nodes[dir_walk(nodes, cur, parts).1].kind == FsNodeKind::Dir,
        dir_walk(nodes, cur, parts).0 == 0 ==> dir_walk(nodes, cur, parts).1 == cur,
    decreases parts.len(),
{
    if parts.len() > 0 {
        lemma_lookup_below(nodes, count, cur, parts[0], 0);
        if let Some(c) = lookup(nodes, cur, parts[0]) {
            if nodes[c as int].kind == FsNodeKind::Dir {
                lemma_dir_walk(nodes, count, c as int, parts.drop_first());
                let w = dir_walk(nodes, c as int, parts.drop_first());
                assert(parts.subrange(0, w.0 + 1).drop_first() =~= parts.drop_first().subrange(0, w.0));
                assert(parts.subrange(0, w.0 + 1)[0] == parts[0]);
            }
        }
    }
    assert(parts.subrange(0, 0) =~= Seq::<Seq<u8>>::empty());
}

/// Every slot before the first empty one is taken.
proof fn lemma_free_slot(c: Seq<usize>, i: int)
    ensures
        free_slot_from(c, i) matches Some(j) ==> i <= j < MAX_CHILDREN && c[j] == NO_CHILD && forall|k: int|
            i <= k < j ==> c[k] != NO_CHILD,
    decreases MAX_CHILDREN - i,
{
    if 0 <= i < MAX_CHILDREN && c[i] != NO_CHILD {
        lemma_free_slot(c, i + 1);
    }
}

/// After a node was added, what a handed-out node's child lookup found
/// before it still finds.
proof fn lemma_lookup_after_add(
    a: Seq<FsNode>,
    count: int,
    b: Seq<FsNode>,
    parent: int,
    j: int,
    k: int,
    name: Seq<u8>,
    i: int,
)
    requires
        0 <= k < count < a.len(),
        count < MAX_NODES,
        a.len() == b.len(),
        0 <= parent < count,
        forall|x: int| 0 <= x < count ==> node_ok(#[trigger] a[x], count),
        a[parent].children@[j] == NO_CHILD,
        0 <= j < MAX_CHILDREN,
        child_slot_set(a[parent], b[parent], j, count as usize),
        forall|x: int| 0 <= x < a.len() && x != count && x != parent ==> #[trigger] b[x] == a[x],
        lookup_from(a, k, name, i) is Some,
    ensures
        lookup_from(b, k, name, i) == lookup_from(a, k, name, i),
    decreases MAX_CHILDREN - i,
{
    assert(node_ok(a[k], count));
    let c = a[k].children@[i];
    if k != parent {
        assert(b[k] == a[k]);
    } else {
        assert(i != j);
        assert(b[k].children@[i] == c);
    }
    if c != NO_CHILD {
        assert(c < count);
        if c as int != parent {
            assert(b[c as int] == a[c as int]);
        }
        assert(b[c as int].name == a[c as int].name);
        if name_of(a[c as int]) != name {
            lemma_lookup_after_add(a, count, b, parent, j, k, name, i + 1);
        }
    }
}

/// After a node was added, a walk that succeeded before gives the same node.
proof fn lemma_walk_after_add(
    a: Seq<FsNode>,
    count: int,
    b: Seq<FsNode>,
    parent: int,
    j: int,
    cur: int,
    parts: Seq<Seq<u8>>,
)
    requires
        0 <= cur < count < a.len(),
        count < MAX_NODES,
        a.len() == b.len(),
        0 <= parent < count,
        forall|x: int| 0 <= x < count ==> node_ok(#[trigger] a[x], count),
        a[parent].children@[j] == NO_CHILD,
        0 <= j < MAX_CHILDREN,
        child_slot_set(a[parent], b[parent], j, count as usize),
        forall|x: int| 0 <= x < a.len() && x != count && x != parent ==> #[trigger] b[x] == a[x],
        walk(a, cur, parts) is Some,
    ensures
        walk(b, cur, parts) == walk(a, cur, parts),
    decreases parts.len(),
{
    if parts.len() > 0 {
        lemma_lookup_below(a, count, cur, parts[0], 0);
        lemma_lookup_after_add(a, count, b, parent, j, cur, parts[0], 0);
        let c = lookup(a, cur, parts[0]).unwrap();
        lemma_walk_after_add(a, count, b, parent, j, c as int, parts.drop_first());
    }
}

/// After a node was entered in the first empty slot of `parent`, looking
/// up its name there finds it, when no entry had that name before.
proof fn lemma_lookup_new(
    a: Seq<FsNode>,
    count: int,
    b: Seq<FsNode>,
    parent: int,
    j: int,
    name: Seq<u8>,
    i: int,
)
    requires
        0 <= i <= j < MAX_CHILDREN,
        0 <= parent < count < a.len(),
        count < MAX_NODES,
        a.len() == b.len(),
        forall|x: int| 0 <= x < count ==> node_ok(#[trigger] a[x], count),
        forall|k: int| i <= k < j ==> a[parent].children@[k] != NO_CHILD,
        child_slot_set(a[parent], b[parent], j, count as usize),
        forall|x: int| 0 <= x < a.len() && x != count && x != parent ==> #[trigger] b[x] == a[x],
        name_of(b[count]) == name,
        lookup_from(a, parent, name, i) is None,
    ensures
        lookup_from(b, parent, name, i) == Some(count as usize),
    decreases j - i,
{
    if i < j {
        assert(node_ok(a[parent], count));
        let c = a[parent].children@[i];
        assert(b[parent].children@[i] == c);
        assert(c < count);
        if c as int != parent {
            assert(b[c as int] == a[c as int]);
        }
        assert(b[c as int].name == a[c as int].name);
        lemma_lookup_new(a, count, b, parent, j, name, i + 1);
    }
}

/// A directory `mkdir` reports as there can be found: after a successful
/// `mkdir`, the path names a directory, provided it has a component and
/// its last component, when it had to be created, is a name a node can
/// hold exactly (see `storable_name`).
pub proof fn law_mkdir_then_found(before: FileSystem, after: FileSystem, path: Seq<u8>)
    requires
        before.wf(),
        mkdir_effect(before.nodes(), before.count(), path_parts(path), after.nodes(), after.count(), true),
        path_parts(path).len() > 0,
        storable_name(path_parts(path).last()),
    ensures
        resolve_spec(after.nodes(), path) matches Some(i) && after.nodes()[i as int].kind == FsNodeKind::Dir,
{
    let a = before.nodes();
    let b = after.nodes();
    let count = before.count() as int;
    let parts = path_parts(path);
    let n = parts.len() as int;
    before.lemma_links_below();
    lemma_dir_walk(a, count, 0, parts);
    let w = dir_walk(a, 0, parts);
    if w.0 == n {
        assert(parts.subrange(0, n) =~= parts);
    } else {
        let p = w.1;
        let dirs = parts.subrange(0, n - 1);
        let last = parts[n - 1];
        let j = free_slot_from(a[p].children@, 0).unwrap();
        lemma_free_slot(a[p].children@, 0);
        assert(fresh_node(b[count], FsNodeKind::Dir, last, p as usize));
        lemma_storable_name(b[count], last);
        assert(walk(a, 0, dirs) == Some(p as usize));
        lemma_walk_after_add(a, count, b, p, j, 0, dirs);
        lemma_lookup_new(a, count, b, p, j, last, 0);
        assert(dirs + seq![last] =~= parts);
        lemma_walk_append(b, 0, dirs, seq![last]);
        assert(seq![last].drop_first() =~= Seq::<Seq<u8>>::empty());
        assert(seq![last][0] == last);
        assert(walk(b, count, Seq::<Seq<u8>>::empty()) == Some(count as usize));
    }
}

/// After a node was added under `parent` (and entered there), every
/// handed-out node, the new one included, links only to handed-out nodes.
proof fn lemma_added_links(a: Seq<FsNode>, count: int, b: Seq<FsNode>, parent: int, kind: FsNodeKind, name: Seq<u8>)
    requires
        0 <= parent < count < MAX_NODES,
        a.len() == MAX_NODES,
        forall|x: int| 0 <= x < count ==> node_ok(#[trigger] a[x], count),
        node_added(a, count as nat, b, (count + 1) as nat, parent, kind, name, true),
    ensures
        b.len() == MAX_NODES,
        forall|x: int| 0 <= x < count + 1 ==> node_ok(#[trigger] b[x], count + 1),
        free_slot_from(a[parent].children@, 0) is Some,
{
    let j = free_slot_from(a[parent].children@, 0).unwrap();
    lemma_free_slot(a[parent].children@, 0);
    assert forall|x: int| 0 <= x < count + 1 implies node_ok(#[trigger] b[x], count + 1) by {
        if x == count {
            assert forall|k: int| 0 <= k < MAX_CHILDREN implies (#[trigger] b[x].children@[k] == NO_CHILD
                || b[x].children@[k] < count + 1) by {
                assert(b[x].children@ == Seq::new(MAX_CHILDREN as nat, |i: int| NO_CHILD));
            }
        } else if x == parent {
            assert(node_ok(a[x], count));
            assert forall|k: int| 0 <= k < MAX_CHILDREN implies (#[trigger] b[x].children@[k] == NO_CHILD
                || b[x].children@[k] < count + 1) by {
                if k != j {
                    assert(b[x].children@[k] == a[x].children@[k]);
                }
            }
        } else {
            assert(node_ok(a[x], count));
            assert(b[x] == a[x]);
        }
    }
}

/// When `touch` succeeds: a path with a component whose parent components
/// all name directories, whose last component names nothing there yet, in a
/// parent with an empty child slot, while a node is left, is created.
pub proof fn law_touch_succeeds(before: FileSystem, after: FileSystem, path: Seq<u8>, r: bool)
    requires
        before.wf(),
        touch_effect(before.nodes(), before.count(), path_parts(path), after.nodes(), after.count(), r),
        path_parts(path).len() > 0,
        dir_walk(before.nodes(), 0, path_parts(path).drop_last()).0 == path_parts(path).len() - 1,
        lookup(before.nodes(), dir_walk(before.nodes(), 0, path_parts(path).drop_last()).1, path_parts(path).last())
            is None,
        free_slot_from(
            before.nodes()[dir_walk(before.nodes(), 0, path_parts(path).drop_last()).1].children@,
            0,
        ) is Some,
        before.count() < MAX_NODES,
    ensures
        r,
        after.count() == before.count() + 1,
{
    let parts = path_parts(path);
    let n = parts.len() as int;
    assert(parts.drop_last() =~= parts.subrange(0, n - 1));
    assert(parts.last() == parts[n - 1]);
}

/// A file `touch` reports as there can be found: after a successful
/// `touch`, the path names an entry, and when it named nothing before, it
/// now names an empty file. This holds provided the path has a component,
/// and the components `touch` had to create (the last one, and the one
/// before when that directory was missing too) are names a node can hold
/// exactly (see `storable_name`).
pub proof fn law_touch_then_found(before: FileSystem, after: FileSystem, path: Seq<u8>)
    requires
        before.wf(),
        touch_effect(before.nodes(), before.count(), path_parts(path), after.nodes(), after.count(), true),
        storable_name(path_parts(path).last()),
        dir_walk(before.nodes(), 0, path_parts(path).drop_last()).0 < path_parts(path).len() - 1
            ==> storable_name(path_parts(path)[path_parts(path).len() - 2]),
    ensures
        resolve_spec(after.nodes(), path) is Some,
        resolve_spec(before.nodes(), path) is None ==> read_spec(after.nodes(), path) == Some(
            Seq::<u8>::empty(),
        ),
{
    let a = before.nodes();
    let count = before.count() as int;
    let parts = path_parts(path);
    let n = parts.len() as int;
    let dirs = parts.subrange(0, n - 1);
    let last = parts[n - 1];
    let m = n - 1;
    assert(parts.drop_last() =~= dirs);
    assert(dirs + seq![last] =~= parts);
    assert(seq![last].drop_first() =~= Seq::<Seq<u8>>::empty());
    assert(seq![last][0] == last);
    before.lemma_links_below();
    lemma_dir_walk(a, count, 0, dirs);
    let w = dir_walk(a, 0, dirs);
    assert(dirs.subrange(0, m) =~= dirs);
    let b = after.nodes();
    if w.0 == m {
        let p = w.1;
        lemma_walk_append(a, 0, dirs, seq![last]);
        lemma_walk_append(b, 0, dirs, seq![last]);
        if let Some(c) = lookup(a, p, last) {
            assert(walk(a, c as int, Seq::<Seq<u8>>::empty()) == Some(c));
        } else {
            let j = free_slot_from(a[p].children@, 0).unwrap();
            lemma_free_slot(a[p].children@, 0);
            lemma_storable_name(b[count], last);
            lemma_walk_after_add(a, count, b, p, j, 0, dirs);
            lemma_lookup_new(a, count, b, p, j, last, 0);
            assert(walk(b, count, Seq::<Seq<u8>>::empty()) == Some(count as usize));
            assert(b[count].data@.subrange(0, 0) =~= Seq::<u8>::empty());
        }
    } else {
        let p = w.1;
        let dname = dirs[w.0];
        let mid = choose|mid_nodes: Seq<FsNode>, mid_count: nat, bb: bool|
            #[trigger] node_added(a, count as nat, mid_nodes, mid_count, p, FsNodeKind::Dir, dname, bb) && bb && {
                let cur = match walk(mid_nodes, 0, dirs) {
                    Some(c) => c as int,
                    None => 0,
                };
                file_created(mid_nodes, mid_count, cur, last, b, after.count(), true)
            };
        let mn = mid.0;
        // The directory that was missing is there now.
        let ds = dirs.subrange(0, m - 1);
        assert(ds + seq![dname] =~= dirs);
        assert(seq![dname].drop_first() =~= Seq::<Seq<u8>>::empty());
        assert(seq![dname][0] == dname);
        assert(dirs.subrange(0, w.0) =~= ds);
        let j = free_slot_from(a[p].children@, 0).unwrap();
        lemma_free_slot(a[p].children@, 0);
        lemma_storable_name(mn[count], dname);
        lemma_walk_after_add(a, count, mn, p, j, 0, ds);
        lemma_lookup_new(a, count, mn, p, j, dname, 0);
        lemma_walk_append(mn, 0, ds, seq![dname]);
        assert(walk(mn, count, Seq::<Seq<u8>>::empty()) == Some(count as usize));
        assert(walk(mn, 0, dirs) == Some(count as usize));
        // Then the file goes into it.
        lemma_added_links(a, count, mn, p, FsNodeKind::Dir, dname);
        let c1 = count + 1;
        assert(lookup_from(mn, count, last, 0) is None) by {
            assert(mn[count].children@[0] == NO_CHILD);
        }
        assert(free_slot_from(mn[count].children@, 0) == Some(0int)) by {
            assert(mn[count].children@[0] == NO_CHILD);
        }
        lemma_free_slot(mn[count].children@, 0);
        lemma_storable_name(b[c1], last);
        lemma_walk_after_add(mn, c1, b, count, 0, 0, dirs);
        lemma_lookup_new(mn, c1, b, count, 0, last, 0);
        lemma_walk_append(b, 0, dirs, seq![last]);
        assert(walk(b, c1, Seq::<Seq<u8>>::empty()) == Some(c1 as usize));
        assert(b[c1].data@.subrange(0, 0) =~= Seq::<u8>::empty());
    }
}

/// After a node was added, a directory walk that passed every component
/// before still does, and reaches the same directory.
proof fn lemma_dir_walk_after_add(
    a: Seq<FsNode>,
    count: int,
    b: Seq<FsNode>,
    parent: int,
    j: int,
    cur: int,
    parts: Seq<Seq<u8>>,
)
    requires
        0 <= cur < count < a.len(),
        count < MAX_NODES,
        a.len() == b.len(),
        0 <= parent < count,
        forall|x: int| 0 <= x < count ==> node_ok(#[trigger] a[x], count),
        a[parent].children@[j] == NO_CHILD,
        0 <= j < MAX_CHILDREN,
        child_slot_set(a[parent], b[parent], j, count as usize),
        forall|x: int| 0 <= x < a.len() && x != count && x != parent ==> #[trigger] b[x] == a[x],
        dir_walk(a, cur, parts).0 == parts.len(),
    ensures
        dir_walk(b, cur, parts) == dir_walk(a, cur, parts),
    decreases parts.len(),
{
    if parts.len() > 0 {
        lemma_lookup_below(a, count, cur, parts[0], 0);
        let c = lookup(a, cur, parts[0]).unwrap();
        lemma_lookup_after_add(a, count, b, parent, j, cur, parts[0], 0);
        if c as int != parent {
            assert(b[c as int] == a[c as int]);
        }
        assert(b[c as int].kind == a[c as int].kind);
        lemma_dir_walk_after_add(a, count, b, parent, j, c as int, parts.drop_first());
    }
}

/// A directory walk through `x + y` passes `x` first, then goes on with `y`.
proof fn lemma_dir_walk_append(nodes: Seq<FsNode>, cur: int, x: Seq<Seq<u8>>, y: Seq<Seq<u8>>)
    ensures
        dir_walk(nodes, cur, x + y) == if dir_walk(nodes, cur, x).0 == x.len() {
            let r = dir_walk(nodes, dir_walk(nodes, cur, x).1, y);
            (x.len() + r.0, r.1)
        } else {
            dir_walk(nodes, cur, x)
        },
    decreases x.len(),
{
    if x.len() > 0 {
        assert((x + y)[0] == x[0]);
        assert((x + y).drop_first() =~= x.drop_first() + y);
        if let Some(c) = lookup(nodes, cur, x[0]) {
            if nodes[c as int].kind == FsNodeKind::Dir {
                lemma_dir_walk_append(nodes, c as int, x.drop_first(), y);
            }
        }
    } else {
        assert(x + y =~= y);
    }
}

/// A child a lookup finds is listed.
proof fn lemma_lookup_listed(nodes: Seq<FsNode>, parent: int, name: Seq<u8>, i: int)
    requires
        lookup_from(nodes, parent, name, i) is Some,
    ensures
        child_names_from(nodes, parent, i).contains(name),
    decreases MAX_CHILDREN - i,
{
    let c = nodes[parent].children@[i];
    let rest = child_names_from(nodes, parent, i + 1);
    assert(child_names_from(nodes, parent, i) == seq![name_of(nodes[c as int])] + rest);
    if name_of(nodes[c as int]) == name {
        assert((seq![name_of(nodes[c as int])] + rest)[0] == name);
    } else {
        lemma_lookup_listed(nodes, parent, name, i + 1);
        let k = choose|k: int| 0 <= k < rest.len() && rest[k] == name;
        assert((seq![name_of(nodes[c as int])] + rest)[k + 1] == name);
    }
}

/// Touching a path twice: once a `touch` succeeded, the parent directory
/// lists the name, and a second `touch` of the same path succeeds and
/// changes nothing. This holds under the conditions of
/// `law_touch_then_found`.
pub proof fn law_touch_twice(before: FileSystem, mid: FileSystem, after: FileSystem, path: Seq<u8>, r: bool)
    requires
        before.wf(),
        touch_effect(before.nodes(), before.count(), path_parts(path), mid.nodes(), mid.count(), true),
        storable_name(path_parts(path).last()),
        dir_walk(before.nodes(), 0, path_parts(path).drop_last()).0 < path_parts(path).len() - 1
            ==> storable_name(path_parts(path)[path_parts(path).len() - 2]),
        mid.wf(),
        touch_effect(mid.nodes(), mid.count(), path_parts(path), after.nodes(), after.count(), r),
    ensures
        walk(mid.nodes(), 0, path_parts(path).drop_last()) matches Some(d) && child_names_from(
            mid.nodes(),
            d as int,
            0,
        ).contains(path_parts(path).last()),
        r,
        after.nodes() == mid.nodes(),
        after.count() == mid.count(),
{
    let a = before.nodes();
    let count = before.count() as int;
    let parts = path_parts(path);
    let n = parts.len() as int;
    let dirs = parts.subrange(0, n - 1);
    let last = parts[n - 1];
    let m = n - 1;
    assert(parts.drop_last() =~= dirs);
    before.lemma_links_below();
    lemma_dir_walk(a, count, 0, dirs);
    let w = dir_walk(a, 0, dirs);
    let b = mid.nodes();
    if w.0 == m {
        let p = w.1;
        if lookup(a, p, last) is None {
            let j = free_slot_from(a[p].children@, 0).unwrap();
            lemma_free_slot(a[p].children@, 0);
            lemma_storable_name(b[count], last);
            lemma_dir_walk_after_add(a, count, b, p, j, 0, dirs);
            lemma_lookup_new(a, count, b, p, j, last, 0);
        }
    } else {
        let p = w.1;
        let dname = dirs[w.0];
        let chosen = choose|mid_nodes: Seq<FsNode>, mid_count: nat, bb: bool|
            #[trigger] node_added(a, count as nat, mid_nodes, mid_count, p, FsNodeKind::Dir, dname, bb) && bb && {
                let cur = match walk(mid_nodes, 0, dirs) {
                    Some(c) => c as int,
                    None => 0,
                };
                file_created(mid_nodes, mid_count, cur, last, b, mid.count(), true)
            };
        let mn = chosen.0;
        let ds = dirs.subrange(0, m - 1);
        assert(ds + seq![dname] =~= dirs);
        assert(seq![dname].drop_first() =~= Seq::<Seq<u8>>::empty());
        assert(seq![dname][0] == dname);
        lemma_dir_walk_append(a, 0, ds, seq![dname]);
        lemma_dir_walk(a, count, 0, ds);
        let p0 = dir_walk(a, 0, ds).1;
        lemma_dir_walk(a, count, p0, seq![dname]);
        assert(dir_walk(a, 0, ds) == (m - 1, p));
        assert(dirs.subrange(0, w.0) =~= ds);
        let j = free_slot_from(a[p].children@, 0).unwrap();
        lemma_free_slot(a[p].children@, 0);
        lemma_storable_name(mn[count], dname);
        lemma_dir_walk_after_add(a, count, mn, p, j, 0, ds);
        lemma_walk_after_add(a, count, mn, p, j, 0, ds);
        lemma_lookup_new(a, count, mn, p, j, dname, 0);
        lemma_dir_walk_append(mn, 0, ds, seq![dname]);
        lemma_walk_append(mn, 0, ds, seq![dname]);
        assert(walk(mn, count, Seq::<Seq<u8>>::empty()) == Some(count as usize));
        assert(walk(mn, 0, dirs) == Some(count as usize));
        assert(dir_walk(mn, count, Seq::<Seq<u8>>::empty()) == (0int, count));
        assert(mn[count].kind == FsNodeKind::Dir);
        assert(dir_walk(mn, p, seq![dname]) == (1int, count));
        assert(dir_walk(mn, 0, dirs) == (m, count));
        lemma_added_links(a, count, mn, p, FsNodeKind::Dir, dname);
        let c1 = count + 1;
        assert(lookup_from(mn, count, last, 0) is None) by {
            assert(mn[count].children@[0] == NO_CHILD);
        }
        assert(free_slot_from(mn[count].children@, 0) == Some(0int)) by {
            assert(mn[count].children@[0] == NO_CHILD);
        }
        lemma_free_slot(mn[count].children@, 0);
        lemma_storable_name(b[c1], last);
        lemma_dir_walk_after_add(mn, c1, b, count, 0, 0, dirs);
        lemma_lookup_new(mn, c1, b, count, 0, last, 0);
    }
    mid.lemma_links_below();
    lemma_dir_walk(b, mid.count() as int, 0, dirs);
    assert(dirs.subrange(0, m) =~= dirs);
    lemma_lookup_listed(b, dir_walk(b, 0, dirs).1, last, 0);
}

/// The slot `lookup_slot_from` finds holds a child of that name, and every
/// slot from `i` up to it is taken.
proof fn lemma_lookup_slot(nodes: Seq<FsNode>, parent: int, name: Seq<u8>, i: int)
    ensures
        lookup_slot_from(nodes, parent, name, i) matches Some(j) ==> {
            &&& i <= j < MAX_CHILDREN
            &&& nodes[parent].children@[j] != NO_CHILD
            &&& name_of(nodes[nodes[parent].children@[j] as int]) == name
            &&& forall|k: int| i <= k < j ==> nodes[parent].children@[k] != NO_CHILD
        },
    decreases MAX_CHILDREN - i,
{
    if 0 <= i < MAX_CHILDREN && nodes[parent].children@[i] != NO_CHILD {
        lemma_lookup_slot(nodes, parent, name, i + 1);
    }
}

/// A listing from slot `i` has an entry for every taken slot up to `j`.
proof fn lemma_names_len(a: Seq<FsNode>, p: int, j: int, i: int)
    requires
        0 <= i <= j < MAX_CHILDREN,
        forall|k: int| i <= k <= j ==> a[p].children@[k] != NO_CHILD,
    ensures
        child_names_from(a, p, i).len() >= j - i + 1,
    decreases j - i,
{
    if i < j {
        lemma_names_len(a, p, j, i + 1);
    }
}

/// Removing child slot `j` (later slots move down one) removes entry
/// `j - i` of the listing from slot `i`, when the slots from `i` up to `j`
/// are taken and no node's name changed.
proof fn lemma_names_removed(a: Seq<FsNode>, b: Seq<FsNode>, p: int, j: int, i: int)
    requires
        0 <= p < a.len(),
        a.len() == b.len(),
        0 <= i <= j < MAX_CHILDREN,
        forall|k: int| i <= k <= j ==> a[p].children@[k] != NO_CHILD,
        b[p].children@ == a[p].children@.remove(j).push(NO_CHILD),
        forall|x: int| 0 <= x < a.len() ==> (#[trigger] b[x]).name == a[x].name,
        forall|k: int| 0 <= k < MAX_CHILDREN ==> #[trigger] a[p].children@[k] == NO_CHILD || a[p].children@[k] < a.len(),
    ensures
        child_names_from(b, p, i) == child_names_from(a, p, i).remove(j - i),
    decreases j - i,
{
    let c = a[p].children@[i];
    assert(c < a.len());
    assert(b[c as int].name == a[c as int].name);
    if i < j {
        assert(b[p].children@[i] == c);
        lemma_names_removed(a, b, p, j, i + 1);
        lemma_names_len(a, p, j, i + 1);
        assert(child_names_from(b, p, i) =~= child_names_from(a, p, i).remove(j - i));
    } else {
        lemma_names_shifted(a, b, p, j, j);
        assert(child_names_from(a, p, i).remove(0) =~= child_names_from(a, p, i + 1));
    }
}

/// From slot `k` on (with `k` at least the removed slot `j`), the listing
/// after the removal is the listing before it from slot `k + 1`.
proof fn lemma_names_shifted(a: Seq<FsNode>, b: Seq<FsNode>, p: int, j: int, k: int)
    requires
        0 <= p < a.len(),
        a.len() == b.len(),
        0 <= j <= k < MAX_CHILDREN,
        b[p].children@ == a[p].children@.remove(j).push(NO_CHILD),
        forall|x: int| 0 <= x < a.len() ==> (#[trigger] b[x]).name == a[x].name,
        forall|s: int| 0 <= s < MAX_CHILDREN ==> #[trigger] a[p].children@[s] == NO_CHILD || a[p].children@[s] < a.len(),
    ensures
        child_names_from(b, p, k) == child_names_from(a, p, k + 1),
    decreases MAX_CHILDREN - k,
{
    if k + 1 < MAX_CHILDREN {
        let c = a[p].children@[k + 1];
        assert(b[p].children@[k] == c);
        if c != NO_CHILD {
            assert(b[c as int].name == a[c as int].name);
        }
        lemma_names_shifted(a, b, p, j, k + 1);
    } else {
        assert(b[p].children@[k] == NO_CHILD);
    }
}

/// `rm` takes exactly the removed entry out of its directory's listing: the
/// other names stay, in their order, and the removed node is marked unused.
pub proof fn law_rm_unlists(before: FileSystem, after: FileSystem, path: Seq<u8>)
    requires
        before.wf(),
        rm_effect(before.nodes(), before.count(), path_parts(path), after.nodes(), after.count(), true),
    ensures
        ({
            let parts = path_parts(path);
            let p = walk(before.nodes(), 0, parts.drop_last()).unwrap() as int;
            let j = lookup_slot_from(before.nodes(), p, parts.last(), 0).unwrap();
            let c = before.nodes()[p].children@[j] as int;
            &&& child_names_from(after.nodes(), p, 0) == child_names_from(before.nodes(), p, 0).remove(j)
            &&& after.nodes()[c].kind == FsNodeKind::Unused
        }),
{
    let a = before.nodes();
    let b = after.nodes();
    let count = before.count() as int;
    let parts = path_parts(path);
    let n = parts.len() as int;
    assert(parts.drop_last() =~= parts.subrange(0, n - 1));
    before.lemma_links_in_range();
    lemma_walk_same_shape(a, a, 0, parts.drop_last());
    let p = walk(a, 0, parts.drop_last()).unwrap() as int;
    lemma_lookup_slot(a, p, parts.last(), 0);
    let j = lookup_slot_from(a, p, parts.last(), 0).unwrap();
    let c = a[p].children@[j] as int;
    assert(node_ok(a[p], MAX_NODES as int));
    assert forall|x: int| 0 <= x < a.len() implies (#[trigger] b[x]).name == a[x].name by {
        if x != p && x != c {
            assert(b[x] == a[x]);
        }
    }
    lemma_names_removed(a, b, p, j, 0);
}

/// Every node has in-range child links and data length.
pub open spec fn node_ok(n: FsNode, limit: int) -> bool {
    &&& n.data_len <= MAX_FILE_SIZE
    &&& forall|j: int|
        0 <= j < MAX_CHILDREN ==> (#[trigger] n.children@[j] == NO_CHILD || n.children@[j] < limit)
}


/// Walks from `cur` through `parts` while each component names a
/// directory: the number of components passed and the directory reached.
pub open spec fn dir_walk(nodes: Seq<FsNode>, cur: int, parts: Seq<Seq<u8>>) -> (int, int)
    decreases parts.len(),
{
    if parts.len() == 0 {
        (0, cur)
    } else {
        match lookup(nodes, cur, parts[0]) {
            Some(c) => if nodes[c as int].kind == FsNodeKind::Dir {
                let r = dir_walk(nodes, c as int, parts.drop_first());
                (r.0 + 1, r.1)
            } else {
                (0, cur)
            },
            None => (0, cur),
        }
    }
}

/// The first empty slot of a child array, searching from slot `i`.
pub open spec fn free_slot_from(c: Seq<usize>, i: int) -> Option<int>
    decreases MAX_CHILDREN - i,
{
    if i < 0 || i >= MAX_CHILDREN {
        None
    } else if c[i] == NO_CHILD {
        Some(i)
    } else {
        free_slot_from(c, i + 1)
    }
}

/// A newly handed-out node of the given kind and name.
pub open spec fn fresh_node(n: FsNode, kind: FsNodeKind, name: Seq<u8>, parent: usize) -> bool {
    &&& n.kind == kind
    &&& n.name@ == name_arr(name)
    &&& n.parent == parent
    &&& n.children@ == Seq::new(MAX_CHILDREN as nat, |i: int| NO_CHILD)
    &&& n.data@ == Seq::new(MAX_FILE_SIZE as nat, |i: int| 0u8)
    &&& n.data_len == 0
}

/// `b` is `a` with child slot `j` set to `c`.
pub open spec fn child_slot_set(a: FsNode, b: FsNode, j: int, c: usize) -> bool {
    &&& b.kind == a.kind
    &&& b.name == a.name
    &&& b.parent == a.parent
    &&& b.children@ == a.children@.update(j, c)
    &&& b.data == a.data
    &&& b.data_len == a.data_len
}

/// The effect of creating a `kind` node named `name` under `parent`: node
/// number `old_count` is handed out; when `parent` has an empty slot the new
/// node is entered there and the result is true, otherwise the node stays
/// unlinked and the result is false.
pub open spec fn node_added(
    old_nodes: Seq<FsNode>,
    old_count: nat,
    new_nodes: Seq<FsNode>,
    new_count: nat,
    parent: int,
    kind: FsNodeKind,
    name: Seq<u8>,
    r: bool,
) -> bool {
    let idx = old_count as int;
    &&& old_count < MAX_NODES
    &&& new_count == old_count + 1
    &&& new_nodes.len() == old_nodes.len()
    &&& match free_slot_from(old_nodes[parent].children@, 0) {
        Some(j) => {
            &&& r
            &&& fresh_node(new_nodes[idx], kind, name, parent as usize)
            &&& child_slot_set(old_nodes[parent], new_nodes[parent], j, idx as usize)
            &&& forall|k: int|
                0 <= k < old_nodes.len() && k != idx && k != parent ==> #[trigger] new_nodes[k]
                    == old_nodes[k]
        },
        None => {
            &&& !r
            &&& fresh_node(new_nodes[idx], kind, name, 0)
            &&& forall|k: int|
                0 <= k < old_nodes.len() && k != idx ==> #[trigger] new_nodes[k] == old_nodes[k]
        },
    }
}

/// The effect of `mkdir` on the components `parts`: true with nothing
/// changed when they all name directories already; otherwise, when every
/// component but the last names a directory and the last is missing, the
/// directory is created there; false with nothing changed in every other case.
pub open spec fn mkdir_effect(
    old_nodes: Seq<FsNode>,
    old_count: nat,
    parts: Seq<Seq<u8>>,
    new_nodes: Seq<FsNode>,
    new_count: nat,
    r: bool,
) -> bool {
    let n = parts.len() as int;
    let w = dir_walk(old_nodes, 0, parts);
    let unchanged = new_nodes == old_nodes && new_count == old_count;
    if w.0 == n {
        r && unchanged
    } else if lookup(old_nodes, w.1, parts[w.0]) is Some {
        !r && unchanged
    } else if w.0 < n - 1 {
        !r && unchanged
    } else if old_count >= MAX_NODES {
        !r && unchanged
    } else {
        node_added(old_nodes, old_count, new_nodes, new_count, w.1, FsNodeKind::Dir, parts[w.0], r)
    }
}

/// Creating file `name` in directory `cur`: true with nothing changed when
/// an entry of that name exists; false when the table is full; otherwise
/// the file node is created (see `node_added`).
pub open spec fn file_created(
    old_nodes: Seq<FsNode>,
    old_count: nat,
    cur: int,
    name: Seq<u8>,
    new_nodes: Seq<FsNode>,
    new_count: nat,
    r: bool,
) -> bool {
    let unchanged = new_nodes == old_nodes && new_count == old_count;
    if lookup(old_nodes, cur, name) is Some {
        r && unchanged
    } else if old_count >= MAX_NODES {
        !r && unchanged
    } else {
        node_added(old_nodes, old_count, new_nodes, new_count, cur, FsNodeKind::File, name, r)
    }
}

/// The effect of `touch` on the components `parts`: the parent directories
/// are followed from the root; when only the last of them is missing it is
/// created first (as `mkdir` would) and the file goes into the directory the
/// parent path then resolves to, or into the root when it resolves to
/// nothing; then the file is created (see `file_created`).
pub open spec fn touch_effect(
    old_nodes: Seq<FsNode>,
    old_count: nat,
    parts: Seq<Seq<u8>>,
    new_nodes: Seq<FsNode>,
    new_count: nat,
    r: bool,
) -> bool {
    let n = parts.len() as int;
    let unchanged = new_nodes == old_nodes && new_count == old_count;
    if n == 0 {
        !r && unchanged
    } else {
        let dirs = parts.subrange(0, n - 1);
        let name = parts[n - 1];
        let m = n - 1;
        let w = dir_walk(old_nodes, 0, dirs);
        if w.0 == m {
            file_created(old_nodes, old_count, w.1, name, new_nodes, new_count, r)
        } else if lookup(old_nodes, w.1, dirs[w.0]) is Some {
            !r && unchanged
        } else if w.0 < m - 1 {
            !r && unchanged
        } else if old_count >= MAX_NODES {
            !r && unchanged
        } else {
            exists|mid_nodes: Seq<FsNode>, mid_count: nat, b: bool|
                #[trigger] node_added(
                    old_nodes,
                    old_count,
                    mid_nodes,
                    mid_count,
                    w.1,
                    FsNodeKind::Dir,
                    dirs[w.0],
                    b,
                ) && if !b {
                    !r && new_nodes == mid_nodes && new_count == mid_count
                } else {
                    let cur = match walk(mid_nodes, 0, dirs) {
                        Some(c) => c as int,
                        None => 0,
                    };
                    file_created(mid_nodes, mid_count, cur, name, new_nodes, new_count, r)
                }
        }
    }
}

/// The slot of the child of `parent` named `name`, searching from slot `i`
/// up to the first empty slot.
pub open spec fn lookup_slot_from(nodes: Seq<FsNode>, parent: int, name: Seq<u8>, i: int) -> Option<int>
    decreases MAX_CHILDREN - i,
{
    if i < 0 || i >= MAX_CHILDREN {
        None
    } else {
        let c = nodes[parent].children@[i];
        if c == NO_CHILD {
            None
        } else if name_of(nodes[c as int]) == name {
            Some(i)
        } else {
            lookup_slot_from(nodes, parent, name, i + 1)
        }
    }
}

/// `b` is `a` with child slot `j` removed: later slots move down one and
/// the last slot becomes empty.
pub open spec fn child_slot_removed(a: FsNode, b: FsNode, j: int) -> bool {
    &&& b.kind == a.kind
    &&& b.name == a.name
    &&& b.parent == a.parent
    &&& b.children@ == a.children@.remove(j).push(NO_CHILD)
    &&& b.data == a.data
    &&& b.data_len == a.data_len
}

/// The effect of `rm`: the entry that the path names is taken out of its
/// directory and its node marked unused, provided the path has a component,
/// its directory part resolves, the entry exists and has no children.
/// Otherwise false and nothing changes.
pub open spec fn rm_effect(
    old_nodes: Seq<FsNode>,
    old_count: nat,
    parts: Seq<Seq<u8>>,
    new_nodes: Seq<FsNode>,
    new_count: nat,
    r: bool,
) -> bool {
    let n = parts.len() as int;
    let unchanged = new_nodes == old_nodes && new_count == old_count;
    if n == 0 {
        !r && unchanged
    } else {
        match walk(old_nodes, 0, parts.subrange(0, n - 1)) {
            None => !r && unchanged,
            Some(p) => match lookup_slot_from(old_nodes, p as int, parts[n - 1], 0) {
                None => !r && unchanged,
                Some(j) => {
                    let c = old_nodes[p as int].children@[j] as int;
                    if old_nodes[c].children@[0] != NO_CHILD {
                        !r && unchanged
                    } else {
                        &&& r
                        &&& new_count == old_count
                        &&& new_nodes.len() == old_nodes.len()
                        &&& c != p
                        &&& child_slot_removed(old_nodes[p as int], new_nodes[p as int], j)
                        &&& new_nodes[c] == (FsNode { kind: FsNodeKind::Unused, ..old_nodes[c] })
                        &&& forall|k: int|
                            0 <= k < old_nodes.len() && k != p && k != c ==> #[trigger] new_nodes[k]
                                == old_nodes[k]
                    }
                },
            },
        }
    }
}

pub struct FileSystem {
    nodes: Vec<FsNode>,
    node_count: usize,
}

impl FsNode {
    /// A node of no kind, with no name, no children and no data.
    pub open spec fn is_empty_node(self) -> bool {
        &&& self.kind == FsNodeKind::Unused
        &&& self.name@ == Seq::new(MAX_NAME as nat, |i: int| 0u8)
        &&& self.parent == 0
        &&& self.children@ == Seq::new(MAX_CHILDREN as nat, |i: int| NO_CHILD)
        &&& self.data@ == Seq::new(MAX_FILE_SIZE as nat, |i: int| 0u8)
        &&& self.data_len == 0
    }

    pub fn empty() -> (r: Self)
        ensures
            r.is_empty_node(),
    {
        let r = Self {
            kind: FsNodeKind::Unused,
            name: [0; MAX_NAME],
            parent: 0,
            children: [NO_CHILD; MAX_CHILDREN],
            data: [0; MAX_FILE_SIZE],
            data_len: 0,
        };
        assert(r.name@ =~= Seq::new(MAX_NAME as nat, |i: int| 0u8));
        assert(r.children@ =~= Seq::new(MAX_CHILDREN as nat, |i: int| NO_CHILD));
        assert(r.data@ =~= Seq::new(MAX_FILE_SIZE as nat, |i: int| 0u8));
        r
    }

    /// The name this node answers to (see `name_of`).
    pub fn name_str(&self) -> (r: Vec<u8>)
        ensures
            r@ == name_of(*self),
    {
        let mut len: usize = 0;
        proof {
            lemma_nul_len_bounds(self.name@, 0);
        }
        while len < MAX_NAME && self.name[len] != 0
            invariant
                len <= MAX_NAME,
                nul_len_from(self.name@, 0) == nul_len_from(self.name@, len as int),
            decreases MAX_NAME - len,
        {
            len = len + 1;
        }
        let raw = copy_range(self.name.as_slice(), 0, len);
        assert(raw@ =~= raw_name(*self));
        if is_utf8(raw.as_slice()) {
            raw
        } else {
            let mut q: Vec<u8> = Vec::new();
            q.push(UNKNOWN_NAME);
            assert(q@ =~= seq![UNKNOWN_NAME]);
            q
        }
    }
}

/// The name array for `s` (see `name_arr`).
pub fn name_to_arr(s: &[u8]) -> (r: [u8; MAX_NAME])
    ensures
        r@ == name_arr(s@),
{
    let mut arr = [0u8; MAX_NAME];
    let mut i: usize = 0;
    while i < s.len() && i < MAX_NAME - 1
        invariant
            i <= s@.len(),
            i <= MAX_NAME - 1,
            arr@.len() == MAX_NAME,
            forall|j: int| 0 <= j < MAX_NAME ==> #[trigger] arr@[j] == if j < i { s@[j] } else { 0u8 },
        decreases MAX_NAME - i,
    {
        arr[i] = s[i];
        i = i + 1;
    }
    assert(arr@ =~= name_arr(s@));
    arr
}

impl FileSystem {
    pub closed spec fn nodes(&self) -> Seq<FsNode> {
        self.nodes@
    }

    /// Number of nodes handed out so far.
    pub closed spec fn count(&self) -> nat {
        self.node_count as nat
    }

    /// The table holds `MAX_NODES` nodes, the root exists, and every child
    /// link of a handed-out node names a handed-out node.
    pub closed spec fn wf(&self) -> bool {
        &&& self.nodes@.len() == MAX_NODES
        &&& 1 <= self.node_count <= MAX_NODES
        &&& forall|i: int| 0 <= i < MAX_NODES ==> node_ok(#[trigger] self.nodes@[i], MAX_NODES as int)
        &&& forall|i: int|
            0 <= i < self.node_count ==> node_ok(#[trigger] self.nodes@[i], self.node_count as int)
    }

    /// A filesystem that holds only the root directory "/".
    pub open spec fn is_fresh(&self) -> bool {
        &&& self.count() == 1
        &&& self.nodes()[0].kind == FsNodeKind::Dir
        &&& self.nodes()[0].name@ == name_arr(seq![crate::text::SLASH])
        &&& self.nodes()[0].parent == 0
        &&& self.nodes()[0].children@ == Seq::new(MAX_CHILDREN as nat, |i: int| NO_CHILD)
        &&& self.nodes()[0].data_len == 0
    }

    /// Resets the table: every node empty, then the root directory created.
    pub fn new() -> (r: Self)
        ensures
            r.wf(),
            r.is_fresh(),
    {
        let mut nodes: Vec<FsNode> = Vec::new();
        let mut i: usize = 0;
        while i < MAX_NODES
            invariant
                i <= MAX_NODES,
                nodes@.len() == i,
                forall|j: int| 0 <= j < i ==> (#[trigger] nodes@[j]).is_empty_node(),
            decreases MAX_NODES - i,
        {
            nodes.push(FsNode::empty());
            i = i + 1;
        }
        let mut fs = FileSystem { nodes, node_count: 0 };
        fs.init_root();
        fs
    }

    /// Forgets every node and creates the root directory again.
    pub fn init(&mut self)
        requires
            old(self).wf(),
        ensures
            final(self).wf(),
            final(self).is_fresh(),
            forall|i: int| 1 <= i < MAX_NODES ==> #[trigger] final(self).nodes()[i] == old(self).nodes()[i],
    {
        self.node_count = 0;
        self.init_root();
    }

    fn init_root(&mut self)
        requires
            old(self).nodes@.len() == MAX_NODES,
            old(self).node_count == 0,
            forall|i: int| 0 <= i < MAX_NODES ==> node_ok(#[trigger] old(self).nodes@[i], MAX_NODES as int),
        ensures
            final(self).wf(),
            final(self).is_fresh(),
            forall|i: int| 1 <= i < MAX_NODES ==> #[trigger] final(self).nodes@[i] == old(self).nodes@[i],
    {
        let mut root = FsNode::empty();
        root.kind = FsNodeKind::Dir;
        let slash = [crate::text::SLASH];
        root.name = name_to_arr(slash.as_slice());
        root.parent = 0;
        self.nodes.set(0, root);
        self.node_count = 1;
        proof {
            assert(slash@ =~= seq![crate::text::SLASH]);
            assert forall|i: int| 0 <= i < MAX_NODES implies node_ok(#[trigger] self.nodes@[i], MAX_NODES as int) by {
                if i == 0 {
                    assert(root.children@[0] == NO_CHILD);
                }
            }
            assert(node_ok(self.nodes@[0], 1));
        }
    }

    pub fn count_nodes(&self) -> (r: usize)
        ensures
            r == self.count(),
    {
        self.node_count
    }

    /// The child of `parent` named `name`.
    fn find_child(&self, parent: usize, name: &[u8]) -> (r: Option<usize>)
        requires
            self.wf(),
            parent < self.count(),
        ensures
            r == lookup(self.nodes(), parent as int, name@),
            r matches Some(c) ==> c < self.count(),
    {
        let mut i: usize = 0;
        while i < MAX_CHILDREN
            invariant
                self.wf(),
                parent < self.count(),
                i <= MAX_CHILDREN,
                lookup(self.nodes(), parent as int, name@) == lookup_from(
                    self.nodes(),
                    parent as int,
                    name@,
                    i as int,
                ),
            decreases MAX_CHILDREN - i,
        {
            let idx = self.nodes[parent].children[i];
            assert(node_ok(self.nodes@[parent as int], self.node_count as int));
            assert(idx == NO_CHILD || idx < self.node_count);
            if idx == NO_CHILD {
                return None;
            }
            let nm = self.nodes[idx].name_str();
            if bytes_eq(nm.as_slice(), name) {
                return Some(idx);
            }
            i = i + 1;
        }
        None
    }

    /// The node that `parts` leads to from the root.
    fn resolve_parts(&self, parts: &Vec<Vec<u8>>) -> (r: Option<usize>)
        requires
            self.wf(),
        ensures
            r == walk(self.nodes(), 0, parts@.map_values(|v: Vec<u8>| v@)),
            r matches Some(c) ==> c < self.count(),
    {
        let ghost ps = parts@.map_values(|v: Vec<u8>| v@);
        let mut cur: usize = 0;
        let mut k: usize = 0;
        assert(ps.skip(0) =~= ps);
        while k < parts.len()
            invariant
                self.wf(),
                k <= parts@.len(),
                ps == parts@.map_values(|v: Vec<u8>| v@),
                cur < self.count(),
                walk(self.nodes(), 0, ps) == walk(self.nodes(), cur as int, ps.skip(k as int)),
            decreases parts@.len() - k,
        {
            assert(ps.skip(k as int).drop_first() =~= ps.skip(k + 1));
            assert(ps.skip(k as int)[0] == parts@[k as int]@);
            match self.find_child(cur, parts[k].as_slice()) {
                Some(c) => {
                    cur = c;
                },
                None => {
                    return None;
                },
            }
            k = k + 1;
        }
        assert(ps.skip(k as int).len() == 0);
        Some(cur)
    }

    /// The node a path names: components are looked up from the root, one
    /// directory level at a time.
    pub fn resolve(&self, path: &[u8]) -> (r: Option<usize>)
        requires
            self.wf(),
        ensures
            r == resolve_spec(self.nodes(), path@),
            r matches Some(c) ==> c < self.count(),
    {
        let parts = split_path(path);
        assert(parts@.map_values(|v: Vec<u8>| v@) =~= path_parts(path@));
        self.resolve_parts(&parts)
    }

    /// Whether the path names a directory.
    pub fn path_is_dir(&self, path: &[u8]) -> (r: bool)
        requires
            self.wf(),
        ensures
            r == (resolve_spec(self.nodes(), path@) matches Some(i) && self.nodes()[i as int].kind
                == FsNodeKind::Dir),
    {
        match self.resolve(path) {
            Some(i) => self.nodes[i].kind == FsNodeKind::Dir,
            None => false,
        }
    }

    /// Replaces the contents of the file that `path` names with the first 256
    /// bytes of `data`. False, and nothing changes, when the path does not
    /// name a file.
    pub fn write_file(&mut self, path: &[u8], data: &[u8]) -> (r: bool)
        requires
            old(self).wf(),
        ensures
            final(self).wf(),
            final(self).count() == old(self).count(),
            r == (resolve_spec(old(self).nodes(), path@) matches Some(i) && old(self).nodes()[i as int].kind
                == FsNodeKind::File),
            r ==> ({
                let i = resolve_spec(old(self).nodes(), path@).unwrap() as int;
                &&& final(self).nodes().len() == old(self).nodes().len()
                &&& data_written(old(self).nodes()[i], final(self).nodes()[i], data@)
                &&& forall|j: int| 0 <= j < MAX_NODES && j != i ==> #[trigger] final(self).nodes()[j]
                    == old(self).nodes()[j]
            }),
            !r ==> final(self).nodes() == old(self).nodes(),
            write_effect(old(self).nodes(), old(self).count(), path@, data@, final(self).nodes(), final(self).count(), r),
    {
        if let Some(idx) = self.resolve(path) {
            if self.nodes[idx].kind == FsNodeKind::File {
                let len = if data.len() < MAX_FILE_SIZE {
                    data.len()
                } else {
                    MAX_FILE_SIZE
                };
                let mut n = self.nodes[idx];
                let ghost old_n = n;
                let mut j: usize = 0;
                while j < len
                    invariant
                        j <= len <= MAX_FILE_SIZE,
                        len <= data@.len(),
                        n.kind == old_n.kind,
                        n.name == old_n.name,
                        n.parent == old_n.parent,
                        n.children == old_n.children,
                        n.data_len == old_n.data_len,
                        n.data@ == data@.subrange(0, j as int) + old_n.data@.subrange(
                            j as int,
                            MAX_FILE_SIZE as int,
                        ),
                    decreases len - j,
                {
                    n.data[j] = data[j];
                    j = j + 1;
                    assert(n.data@ =~= data@.subrange(0, j as int) + old_n.data@.subrange(
                        j as int,
                        MAX_FILE_SIZE as int,
                    ));
                }
                n.data_len = len;
                self.nodes.set(idx, n);
                proof {
                    assert forall|i: int| 0 <= i < self.node_count implies node_ok(
                        #[trigger] self.nodes@[i],
                        self.node_count as int,
                    ) by {
                        if i != idx {
                            assert(node_ok(old(self).nodes@[i], self.node_count as int));
                        } else {
                            assert(node_ok(old_n, self.node_count as int));
                        }
                    }
                    assert forall|i: int| 0 <= i < MAX_NODES implies node_ok(
                        #[trigger] self.nodes@[i],
                        MAX_NODES as int,
                    ) by {
                        if i != idx {
                            assert(node_ok(old(self).nodes@[i], MAX_NODES as int));
                        } else {
                            assert(node_ok(old_n, MAX_NODES as int));
                        }
                    }
                }
                return true;
            }
        }
        false
    }

    /// The contents of the file that `path` names.
    pub fn read_file(&self, path: &[u8]) -> (r: Option<Vec<u8>>)
        requires
            self.wf(),
        ensures
            match read_spec(self.nodes(), path@) {
                Some(d) => r matches Some(v) && v@ == d,
                None => r is None,
            },
    {
        if let Some(idx) = self.resolve(path) {
            if self.nodes[idx].kind == FsNodeKind::File {
                let len = self.nodes[idx].data_len;
                assert(node_ok(self.nodes@[idx as int], MAX_NODES as int));
                return Some(copy_range(self.nodes[idx].data.as_slice(), 0, len));
            }
        }
        None
    }

    /// The names of the entries of the directory `path` names, in slot
    /// order; empty when the path names nothing.
    pub fn list_dir(&self, path: &[u8]) -> (r: Vec<Vec<u8>>)
        requires
            self.wf(),
        ensures
            ({
                let names = match resolve_spec(self.nodes(), path@) {
                    Some(i) => child_names_from(self.nodes(), i as int, 0),
                    None => seq![],
                };
                &&& r@.len() == names.len()
                &&& forall|k: int| 0 <= k < r@.len() ==> #[trigger] r@[k]@ == names[k]
            }),
    {
        let idx = match self.resolve(path) {
            Some(i) => i,
            None => {
                return Vec::new();
            },
        };
        let mut out: Vec<Vec<u8>> = Vec::new();
        let mut i: usize = 0;
        while i < MAX_CHILDREN
            invariant
                self.wf(),
                idx < self.count(),
                resolve_spec(self.nodes(), path@) == Some(idx),
                i <= MAX_CHILDREN,
                out@.map_values(|v: Vec<u8>| v@) + child_names_from(self.nodes(), idx as int, i as int)
                    == child_names_from(self.nodes(), idx as int, 0),
            decreases MAX_CHILDREN - i,
        {
            let c = self.nodes[idx].children[i];
            assert(node_ok(self.nodes@[idx as int], self.node_count as int));
            if c == NO_CHILD {
                proof {
                    assert(child_names_from(self.nodes(), idx as int, i as int) =~= seq![]);
                    assert(out@.map_values(|v: Vec<u8>| v@) + seq![] == child_names_from(self.nodes(), idx as int, 0));
                    Self::lemma_names_out(out@, child_names_from(self.nodes(), idx as int, 0));
                    assert(resolve_spec(self.nodes(), path@) == Some(idx));
                }
                return out;
            }
            let ghost before = out@.map_values(|v: Vec<u8>| v@);
            let nm = self.nodes[c].name_str();
            out.push(nm);
            assert(out@.map_values(|v: Vec<u8>| v@) =~= before.push(name_of(self.nodes@[c as int])));
            assert(before + child_names_from(self.nodes(), idx as int, i as int) =~= before.push(
                name_of(self.nodes@[c as int]),
            ) + child_names_from(self.nodes(), idx as int, i + 1));
            i = i + 1;
        }
        proof {
            assert(child_names_from(self.nodes(), idx as int, i as int) =~= seq![]);
            Self::lemma_names_out(out@, child_names_from(self.nodes(), idx as int, 0));
        }
        out
    }

    proof fn lemma_names_out(out: Seq<Vec<u8>>, names: Seq<Seq<u8>>)
        requires
            out.map_values(|v: Vec<u8>| v@) + seq![] == names,
        ensures
            out.len() == names.len(),
            forall|k: int| 0 <= k < out.len() ==> #[trigger] out[k]@ == names[k],
    {
        assert(out.map_values(|v: Vec<u8>| v@) =~= names);
        assert forall|k: int| 0 <= k < out.len() implies #[trigger] out[k]@ == names[k] by {
            assert(out.map_values(|v: Vec<u8>| v@)[k] == out[k]@);
        }
    }

    /// The contents of the file `path` names, when they are valid UTF-8.
    pub fn cat(&self, path: &[u8]) -> (r: Option<Vec<u8>>)
        requires
            self.wf(),
        ensures
            match read_spec(self.nodes(), path@) {
                Some(d) => if valid_utf8(d) {
                    r matches Some(v) && v@ == d
                } else {
                    r is None
                },
                None => r is None,
            },
    {
        match self.read_file(path) {
            Some(d) => {
                if is_utf8(d.as_slice()) {
                    Some(d)
                } else {
                    None
                }
            },
            None => None,
        }
    }

    /// Hands out the next node, reset to empty; `None` when all are taken.
    fn alloc_node(&mut self) -> (r: Option<usize>)
        requires
            old(self).wf(),
        ensures
            final(self).wf(),
            old(self).count() >= MAX_NODES ==> r is None && final(self).nodes() == old(self).nodes()
                && final(self).count() == old(self).count(),
            old(self).count() < MAX_NODES ==> {
                &&& r == Some(old(self).count() as usize)
                &&& final(self).count() == old(self).count() + 1
                &&& final(self).nodes().len() == MAX_NODES
                &&& final(self).nodes()[old(self).count() as int].is_empty_node()
                &&& forall|k: int|
                    0 <= k < MAX_NODES && k != old(self).count() ==> #[trigger] final(self).nodes()[k]
                        == old(self).nodes()[k]
            },
    {
        if self.node_count >= MAX_NODES {
            return None;
        }
        let idx = self.node_count;
        self.node_count = self.node_count + 1;
        let e = FsNode::empty();
        self.nodes.set(idx, e);
        proof {
            assert forall|i: int| 0 <= i < MAX_NODES implies node_ok(#[trigger] self.nodes@[i], MAX_NODES as int) by {
                if i != idx {
                    assert(node_ok(old(self).nodes@[i], MAX_NODES as int));
                } else {
                    assert(forall|j: int| 0 <= j < MAX_CHILDREN ==> #[trigger] e.children@[j] == NO_CHILD);
                }
            }
            assert forall|i: int| 0 <= i < self.node_count implies node_ok(#[trigger] self.nodes@[i], self.node_count as int) by {
                if i != idx {
                    assert(node_ok(old(self).nodes@[i], old(self).node_count as int));
                } else {
                    assert(forall|j: int| 0 <= j < MAX_CHILDREN ==> #[trigger] e.children@[j] == NO_CHILD);
                }
            }
        }
        Some(idx)
    }

    /// Enters `idx` in the first empty child slot of `parent` and records
    /// `parent` as its parent; false, with nothing changed, when `parent` has
    /// no empty slot.
    fn add_child(&mut self, parent: usize, idx: usize) -> (r: bool)
        requires
            old(self).wf(),
            parent < old(self).count(),
            idx < old(self).count(),
            parent != idx,
        ensures
            final(self).wf(),
            final(self).count() == old(self).count(),
            final(self).nodes().len() == MAX_NODES,
            match free_slot_from(old(self).nodes()[parent as int].children@, 0) {
                Some(j) => {
                    &&& r
                    &&& child_slot_set(old(self).nodes()[parent as int], final(self).nodes()[parent as int], j, idx)
                    &&& final(self).nodes()[idx as int] == (FsNode { parent: parent, ..old(self).nodes()[idx as int] })
                    &&& forall|k: int|
                        0 <= k < MAX_NODES && k != idx && k != parent ==> #[trigger] final(self).nodes()[k]
                            == old(self).nodes()[k]
                },
                None => !r && final(self).nodes() == old(self).nodes(),
            },
    {
        let mut i: usize = 0;
        while i < MAX_CHILDREN
            invariant
                self == old(self),
                self.wf(),
                parent < self.count(),
                idx < self.count(),
                parent != idx,
                i <= MAX_CHILDREN,
                self.nodes@.len() == MAX_NODES,
                free_slot_from(self.nodes@[parent as int].children@, 0) == free_slot_from(
                    self.nodes@[parent as int].children@,
                    i as int,
                ),
            decreases MAX_CHILDREN - i,
        {
            if self.nodes[parent].children[i] == NO_CHILD {
                let mut pn = self.nodes[parent];
                pn.children[i] = idx;
                self.nodes.set(parent, pn);
                let mut cn = self.nodes[idx];
                cn.parent = parent;
                self.nodes.set(idx, cn);
                proof {
                    assert(pn.children@ =~= old(self).nodes@[parent as int].children@.update(i as int, idx));
                    assert forall|k: int| 0 <= k < MAX_NODES implies node_ok(#[trigger] self.nodes@[k], MAX_NODES as int) by {
                        assert(node_ok(old(self).nodes@[k], MAX_NODES as int));
                        if k == parent {
                            assert forall|j: int| 0 <= j < MAX_CHILDREN implies (#[trigger] pn.children@[j] == NO_CHILD || pn.children@[j] < MAX_NODES) by {
                                assert(old(self).nodes@[k].children@[j] == NO_CHILD || old(self).nodes@[k].children@[j] < MAX_NODES);
                            }
                        }
                    }
                    assert forall|k: int| 0 <= k < self.node_count implies node_ok(#[trigger] self.nodes@[k], self.node_count as int) by {
                        assert(node_ok(old(self).nodes@[k], self.node_count as int));
                        if k == parent {
                            assert forall|j: int| 0 <= j < MAX_CHILDREN implies (#[trigger] pn.children@[j] == NO_CHILD || pn.children@[j] < self.node_count) by {
                                assert(old(self).nodes@[k].children@[j] == NO_CHILD || old(self).nodes@[k].children@[j] < self.node_count);
                            }
                        }
                    }
                }
                return true;
            }
            i = i + 1;
        }
        false
    }

    /// Hands out a node of `kind` named `name` and enters it under `parent`
    /// (see `node_added`); false with nothing changed when all nodes are taken.
    fn create_node(&mut self, parent: usize, kind: FsNodeKind, name: &[u8]) -> (r: bool)
        requires
            old(self).wf(),
            parent < old(self).count(),
        ensures
            final(self).wf(),
            if old(self).count() >= MAX_NODES {
                !r && final(self).nodes() == old(self).nodes() && final(self).count() == old(self).count()
            } else {
                node_added(
                    old(self).nodes(),
                    old(self).count(),
                    final(self).nodes(),
                    final(self).count(),
                    parent as int,
                    kind,
                    name@,
                    r,
                )
            },
    {
        let idx = match self.alloc_node() {
            Some(i) => i,
            None => {
                return false;
            },
        };
        let mut n = self.nodes[idx];
        n.kind = kind;
        n.name = name_to_arr(name);
        self.nodes.set(idx, n);
        let ghost mid = self.nodes@;
        proof {
            assert forall|k: int| 0 <= k < MAX_NODES implies node_ok(#[trigger] self.nodes@[k], MAX_NODES as int) by {
                if k == idx {
                    assert(forall|j: int| 0 <= j < MAX_CHILDREN ==> #[trigger] n.children@[j] == NO_CHILD);
                }
            }
            assert forall|k: int| 0 <= k < self.node_count implies node_ok(#[trigger] self.nodes@[k], self.node_count as int) by {
                if k == idx {
                    assert(forall|j: int| 0 <= j < MAX_CHILDREN ==> #[trigger] n.children@[j] == NO_CHILD);
                }
            }
        }
        let r = self.add_child(parent, idx);
        proof {
            assert(mid[parent as int] == old(self).nodes@[parent as int]);
        }
        r
    }

    /// Creates the directory the components name (see `mkdir_effect`).
    fn mkdir_parts(&mut self, parts: &Vec<Vec<u8>>) -> (r: bool)
        requires
            old(self).wf(),
        ensures
            final(self).wf(),
            mkdir_effect(
                old(self).nodes(),
                old(self).count(),
                parts@.map_values(|v: Vec<u8>| v@),
                final(self).nodes(),
                final(self).count(),
                r,
            ),
    {
        let ghost ps = parts@.map_values(|v: Vec<u8>| v@);
        let n = parts.len();
        let mut cur: usize = 0;
        let mut i: usize = 0;
        assert(ps.skip(0) =~= ps);
        while i < n
            invariant
                self == old(self),
                self.wf(),
                n == parts@.len(),
                ps == parts@.map_values(|v: Vec<u8>| v@),
                i <= n,
                cur < self.count(),
                dir_walk(self.nodes(), 0, ps) == (i + dir_walk(self.nodes(), cur as int, ps.skip(i as int)).0,
                    dir_walk(self.nodes(), cur as int, ps.skip(i as int)).1),
            decreases n - i,
        {
            assert(ps.skip(i as int).drop_first() =~= ps.skip(i + 1));
            assert(ps.skip(i as int)[0] == parts@[i as int]@);
            assert(ps[i as int] == parts@[i as int]@);
            match self.find_child(cur, parts[i].as_slice()) {
                Some(idx) => {
                    if self.nodes[idx].kind == FsNodeKind::Dir {
                        cur = idx;
                    } else {
                        return false;
                    }
                },
                None => {
                    if i == n - 1 {
                        return self.create_node(cur, FsNodeKind::Dir, parts[i].as_slice());
                    } else {
                        return false;
                    }
                },
            }
            i = i + 1;
        }
        assert(ps.skip(i as int).len() == 0);
        true
    }

    /// Creates a directory. Every component but the last must name an
    /// existing directory; the last is created when missing. True when the
    /// directory exists afterwards (see `mkdir_effect`).
    pub fn mkdir(&mut self, path: &[u8]) -> (r: bool)
        requires
            old(self).wf(),
        ensures
            final(self).wf(),
            mkdir_effect(
                old(self).nodes(),
                old(self).count(),
                path_parts(path@),
                final(self).nodes(),
                final(self).count(),
                r,
            ),
    {
        let parts = split_path(path);
        assert(parts@.map_values(|v: Vec<u8>| v@) =~= path_parts(path@));
        self.mkdir_parts(&parts)
    }

    /// Creates an empty file (see `touch_effect`).
    pub fn touch(&mut self, path: &[u8]) -> (r: bool)
        requires
            old(self).wf(),
        ensures
            final(self).wf(),
            touch_effect(
                old(self).nodes(),
                old(self).count(),
                path_parts(path@),
                final(self).nodes(),
                final(self).count(),
                r,
            ),
    {
        let mut dirs = split_path(path);
        let ghost parts = path_parts(path@);
        assert(dirs@.map_values(|v: Vec<u8>| v@) =~= parts);
        if dirs.len() == 0 {
            return false;
        }
        let file_name = dirs.pop().unwrap();
        let ghost ds = dirs@.map_values(|v: Vec<u8>| v@);
        assert(ds =~= parts.subrange(0, parts.len() - 1));
        assert(file_name@ == parts[parts.len() - 1]);
        let m = dirs.len();
        let mut cur: usize = 0;
        let mut j: usize = 0;
        let ghost mut made = false;
        let ghost mut mid_nodes = self.nodes();
        let ghost mut mid_count = self.count();
        assert(ds.skip(0) =~= ds);
        while j < m
            invariant
                self.wf(),
                m == dirs@.len(),
                ds == dirs@.map_values(|v: Vec<u8>| v@),
                parts == path_parts(path@),
                parts.len() == m + 1,
                ds == parts.subrange(0, m as int),
                file_name@ == parts[m as int],
                j <= m,
                cur < self.count(),
                !made ==> {
                    &&& self.nodes() == old(self).nodes()
                    &&& self.count() == old(self).count()
                    &&& dir_walk(old(self).nodes(), 0, ds) == (j + dir_walk(old(self).nodes(), cur as int, ds.skip(j as int)).0,
                        dir_walk(old(self).nodes(), cur as int, ds.skip(j as int)).1)
                },
                made ==> {
                    let w = dir_walk(old(self).nodes(), 0, ds);
                    &&& j == m
                    &&& w.0 == m - 1
                    &&& lookup(old(self).nodes(), w.1, ds[w.0]) is None
                    &&& old(self).count() < MAX_NODES
                    &&& node_added(old(self).nodes(), old(self).count(), self.nodes(), self.count(), w.1, FsNodeKind::Dir, ds[w.0], true)
                    &&& cur == match walk(self.nodes(), 0, ds) {
                        Some(c) => c as int,
                        None => 0,
                    }
                },
            decreases m - j,
        {
            assert(ds.skip(j as int).drop_first() =~= ds.skip(j + 1));
            assert(ds.skip(j as int)[0] == dirs@[j as int]@);
            assert(ds[j as int] == dirs@[j as int]@);
            match self.find_child(cur, dirs[j].as_slice()) {
                Some(idx) => {
                    if self.nodes[idx].kind == FsNodeKind::Dir {
                        cur = idx;
                    } else {
                        return false;
                    }
                },
                None => {
                    let ok = self.mkdir_parts(&dirs);
                    if !ok {
                        return false;
                    }
                    proof {
                        made = true;
                    }
                    cur = match self.resolve_parts(&dirs) {
                        Some(c) => c,
                        None => 0,
                    };
                },
            }
            j = j + 1;
        }
        proof {
            if !made {
                assert(ds.skip(j as int).len() == 0);
            }
        }
        if self.find_child(cur, file_name.as_slice()).is_some() {
            return true;
        }
        self.create_node(cur, FsNodeKind::File, file_name.as_slice())
    }

    /// The slot of the child of `parent` named `name`.
    fn find_child_slot(&self, parent: usize, name: &[u8]) -> (r: Option<usize>)
        requires
            self.wf(),
            parent < self.count(),
        ensures
            r matches Some(j) ==> lookup_slot_from(self.nodes(), parent as int, name@, 0) == Some(j as int),
            r is None ==> lookup_slot_from(self.nodes(), parent as int, name@, 0) is None,
            r matches Some(j) ==> j < MAX_CHILDREN && self.nodes()[parent as int].children@[j as int]
                != NO_CHILD && forall|k: int| 0 <= k <= j ==> #[trigger] self.nodes()[parent as int].children@[k]
                != NO_CHILD,
    {
        let mut j: usize = 0;
        while j < MAX_CHILDREN
            invariant
                self.wf(),
                parent < self.count(),
                j <= MAX_CHILDREN,
                forall|k: int| 0 <= k < j ==> #[trigger] self.nodes@[parent as int].children@[k] != NO_CHILD,
                lookup_slot_from(self.nodes@, parent as int, name@, 0) == lookup_slot_from(
                    self.nodes@,
                    parent as int,
                    name@,
                    j as int,
                ),
            decreases MAX_CHILDREN - j,
        {
            let c = self.nodes[parent].children[j];
            assert(node_ok(self.nodes@[parent as int], self.node_count as int));
            if c == NO_CHILD {
                return None;
            }
            let nm = self.nodes[c].name_str();
            if bytes_eq(nm.as_slice(), name) {
                return Some(j);
            }
            j = j + 1;
        }
        None
    }

    /// Removes a file or an empty directory (see `rm_effect`).
    pub fn rm(&mut self, path: &[u8]) -> (r: bool)
        requires
            old(self).wf(),
        ensures
            final(self).wf(),
            rm_effect(
                old(self).nodes(),
                old(self).count(),
                path_parts(path@),
                final(self).nodes(),
                final(self).count(),
                r,
            ),
    {
        let mut dirs = split_path(path);
        let ghost parts = path_parts(path@);
        assert(dirs@.map_values(|v: Vec<u8>| v@) =~= parts);
        if dirs.len() == 0 {
            return false;
        }
        let name = dirs.pop().unwrap();
        assert(dirs@.map_values(|v: Vec<u8>| v@) =~= parts.subrange(0, parts.len() - 1));
        assert(name@ == parts[parts.len() - 1]);
        let p = match self.resolve_parts(&dirs) {
            Some(p) => p,
            None => {
                return false;
            },
        };
        let j = match self.find_child_slot(p, name.as_slice()) {
            Some(j) => j,
            None => {
                return false;
            },
        };
        let c = self.nodes[p].children[j];
        assert(node_ok(self.nodes@[p as int], self.node_count as int));
        proof {
            assert(walk(self.nodes(), 0, parts.subrange(0, parts.len() - 1)) == Some(p));
            assert(lookup_slot_from(self.nodes(), p as int, parts[parts.len() - 1], 0) == Some(j as int));
            assert(self.nodes() == old(self).nodes());
            assert(self.count() == old(self).count());
        }
        if self.nodes[c].children[0] != NO_CHILD {
            return false;
        }
        proof {
            if j > 0 {
                assert(self.nodes@[p as int].children@[0] != NO_CHILD);
            }
            assert(c != p);
        }
        let mut pn = self.nodes[p];
        let ghost old_pc = pn.children@;
        let mut k = j;
        while k + 1 < MAX_CHILDREN
            invariant
                j <= k < MAX_CHILDREN,
                p < MAX_NODES,
                old(self).nodes@.len() == MAX_NODES,
                pn.kind == old(self).nodes@[p as int].kind,
                pn.name == old(self).nodes@[p as int].name,
                pn.parent == old(self).nodes@[p as int].parent,
                pn.data == old(self).nodes@[p as int].data,
                pn.data_len == old(self).nodes@[p as int].data_len,
                old_pc == old(self).nodes@[p as int].children@,
                pn.children@.len() == MAX_CHILDREN,
                forall|q: int| 0 <= q < k ==> #[trigger] pn.children@[q] == old_pc.remove(j as int)[q],
                forall|q: int| k <= q < MAX_CHILDREN ==> #[trigger] pn.children@[q] == old_pc[q],
            decreases MAX_CHILDREN - k,
        {
            pn.children[k] = pn.children[k + 1];
            k = k + 1;
        }
        pn.children[MAX_CHILDREN - 1] = NO_CHILD;
        assert(pn.children@ =~= old_pc.remove(j as int).push(NO_CHILD));
        self.nodes.set(p, pn);
        let mut cn = self.nodes[c];
        cn.kind = FsNodeKind::Unused;
        self.nodes.set(c, cn);
        proof {
            assert forall|q: int| 0 <= q < MAX_NODES implies node_ok(#[trigger] self.nodes@[q], MAX_NODES as int) by {
                assert(node_ok(old(self).nodes@[q], MAX_NODES as int));
                if q == p {
                    assert forall|i: int| 0 <= i < MAX_CHILDREN implies (#[trigger] pn.children@[i] == NO_CHILD || pn.children@[i] < MAX_NODES) by {
                        if i < MAX_CHILDREN - 1 {
                            assert(pn.children@[i] == old_pc[if i < j { i } else { i + 1 }]);
                        }
                    }
                }
            }
            assert forall|q: int| 0 <= q < self.node_count implies node_ok(#[trigger] self.nodes@[q], self.node_count as int) by {
                assert(node_ok(old(self).nodes@[q], self.node_count as int));
                if q == p {
                    assert forall|i: int| 0 <= i < MAX_CHILDREN implies (#[trigger] pn.children@[i] == NO_CHILD || pn.children@[i] < self.node_count) by {
                        if i < MAX_CHILDREN - 1 {
                            assert(pn.children@[i] == old_pc[if i < j { i } else { i + 1 }]);
                        }
                    }
                }
            }
            assert(cn == (FsNode { kind: FsNodeKind::Unused, ..old(self).nodes@[c as int] }));
        }
        true
    }
}


/// Size of one node record in a filesystem image: the node's fields laid
/// out in declaration order with C alignment (kind byte, name, seven bytes
/// of padding, then the 64-bit little-endian parent, children, data and
/// data length).
pub const RECORD_SIZE: usize = 440;
/// A filesystem image starts with the node count as a 64-bit little-endian value.
pub const IMAGE_HEADER: usize = 8;

pub open spec fn kind_byte(k: FsNodeKind) -> u8 {
    match k {
        FsNodeKind::Unused => 0,
        FsNodeKind::File => 1,
        FsNodeKind::Dir => 2,
    }
}

/// The padding bytes of a record, which carry no field.
pub open spec fn is_padding(o: int) -> bool {
    33 <= o < 40
}

/// Byte `o` of the record for node `n`.
pub open spec fn record_byte(n: FsNode, o: int) -> u8 {
    if o == 0 {
        kind_byte(n.kind)
    } else if o < 33 {
        n.name@[o - 1]
    } else if o < 40 {
        0
    } else if o < 48 {
        spec_u64_to_le_bytes(n.parent as u64)[o - 40]
    } else if o < 176 {
        spec_u64_to_le_bytes(n.children@[(o - 48) / 8] as u64)[(o - 48) % 8]
    } else if o < 432 {
        n.data@[o - 176]
    } else {
        spec_u64_to_le_bytes(n.data_len as u64)[o - 432]
    }
}

/// Length of the image of `count` nodes.
pub open spec fn image_len(count: int) -> int {
    IMAGE_HEADER + count * RECORD_SIZE
}

/// Byte `i` of the image of the first `count` nodes.
pub open spec fn image_byte(nodes: Seq<FsNode>, count: int, i: int) -> u8 {
    if i < IMAGE_HEADER {
        spec_u64_to_le_bytes(count as u64)[i]
    } else {
        record_byte(nodes[(i - IMAGE_HEADER) / RECORD_SIZE as int], (i - IMAGE_HEADER) % RECORD_SIZE as int)
    }
}

/// The little-endian 64-bit value stored at `off`.
pub open spec fn field_u64(s: Seq<u8>, off: int) -> u64 {
    spec_u64_from_le_bytes(s.subrange(off, off + 8))
}

/// A stored child link is empty or names one of the first `count` nodes.
pub open spec fn child_ok(c: u64, count: int) -> bool {
    c == NO_CHILD as u64 || c < count
}

/// The record at `off` decodes to a node of a table of `count` nodes.
pub open spec fn record_valid(s: Seq<u8>, off: int, count: int) -> bool {
    &&& s[off] <= 2
    &&& field_u64(s, off + 40) <= usize::MAX
    &&& forall|j: int| 0 <= j < MAX_CHILDREN ==> #[trigger] child_ok(field_u64(s, off + 48 + 8 * j), count)
    &&& field_u64(s, off + 432) <= MAX_FILE_SIZE
}

/// The node count an image announces.
pub open spec fn image_count(s: Seq<u8>) -> int {
    field_u64(s, 0) as int
}

/// The image holds between one and `MAX_NODES` records, each of which decodes.
pub open spec fn image_valid(s: Seq<u8>) -> bool {
    &&& s.len() >= IMAGE_HEADER
    &&& 1 <= image_count(s) <= MAX_NODES
    &&& s.len() >= image_len(image_count(s))
    &&& forall|i: int| 0 <= i < image_count(s) ==> #[trigger] record_valid(s, IMAGE_HEADER + i * RECORD_SIZE, image_count(s))
}

/// Node `n` is what the record at `off` holds (padding aside).
pub open spec fn record_encodes(s: Seq<u8>, off: int, n: FsNode) -> bool {
    forall|o: int| 0 <= o < RECORD_SIZE && !is_padding(o) ==> s[off + o] == #[trigger] record_byte(n, o)
}

proof fn lemma_div_mod_record(k: int, o: int, w: int)
    requires
        k >= 0,
        0 <= o < w,
        w > 0,
    ensures
        (k * w + o) / w == k,
        (k * w + o) % w == o,
{
    vstd::arithmetic::div_mod::lemma_fundamental_div_mod_converse(k * w + o, w, k, o);
}

/// Writes the eight little-endian bytes of `x` at `off`.
fn write_u64_at(buf: &mut [u8], off: usize, x: u64)
    requires
        off + 8 <= old(buf)@.len(),
    ensures
        final(buf)@.len() == old(buf)@.len(),
        forall|i: int|
            0 <= i < old(buf)@.len() ==> #[trigger] final(buf)@[i] == if off <= i < off + 8 {
                spec_u64_to_le_bytes(x)[i - off]
            } else {
                old(buf)@[i]
            },
{
    let b = u64_to_le_bytes(x);
    let n = buf.len();
    let mut k: usize = 0;
    while k < 8
        invariant
            k <= 8,
            n == buf@.len(),
            off + 8 <= buf@.len(),
            b@ == spec_u64_to_le_bytes(x),
            b@.len() == 8,
            buf@.len() == old(buf)@.len(),
            forall|i: int|
                0 <= i < old(buf)@.len() ==> #[trigger] buf@[i] == if off <= i < off + k {
                    spec_u64_to_le_bytes(x)[i - off]
                } else {
                    old(buf)@[i]
                },
        decreases 8 - k,
    {
        buf[off + k] = b[k];
        k = k + 1;
    }
}


/// Writes the record of `n` at `off`.
fn write_record(buf: &mut [u8], off: usize, n: &FsNode)
    requires
        off + RECORD_SIZE <= old(buf)@.len(),
    ensures
        final(buf)@.len() == old(buf)@.len(),
        forall|i: int|
            0 <= i < old(buf)@.len() ==> #[trigger] final(buf)@[i] == if off <= i < off + RECORD_SIZE {
                record_byte(*n, i - off)
            } else {
                old(buf)@[i]
            },
{
    let len = buf.len();
    buf[off] = match n.kind {
        FsNodeKind::Unused => 0u8,
        FsNodeKind::File => 1u8,
        FsNodeKind::Dir => 2u8,
    };
    let mut j: usize = 0;
    while j < MAX_NAME
        invariant
            j <= MAX_NAME,
            len == buf@.len(),
            off + RECORD_SIZE <= len,
            buf@.len() == old(buf)@.len(),
            forall|i: int|
                0 <= i < old(buf)@.len() ==> #[trigger] buf@[i] == if off <= i < off + 1 + j {
                    record_byte(*n, i - off)
                } else {
                    old(buf)@[i]
                },
        decreases MAX_NAME - j,
    {
        buf[off + 1 + j] = n.name[j];
        j = j + 1;
    }
    j = 0;
    while j < 7
        invariant
            j <= 7,
            len == buf@.len(),
            off + RECORD_SIZE <= len,
            buf@.len() == old(buf)@.len(),
            forall|i: int|
                0 <= i < old(buf)@.len() ==> #[trigger] buf@[i] == if off <= i < off + 33 + j {
                    record_byte(*n, i - off)
                } else {
                    old(buf)@[i]
                },
        decreases 7 - j,
    {
        buf[off + 33 + j] = 0;
        j = j + 1;
    }
    write_u64_at(buf, off + 40, n.parent as u64);
    j = 0;
    while j < MAX_CHILDREN
        invariant
            j <= MAX_CHILDREN,
            len == buf@.len(),
            off + RECORD_SIZE <= len,
            buf@.len() == old(buf)@.len(),
            forall|i: int|
                0 <= i < old(buf)@.len() ==> #[trigger] buf@[i] == if off <= i < off + 48 + 8 * j {
                    record_byte(*n, i - off)
                } else {
                    old(buf)@[i]
                },
        decreases MAX_CHILDREN - j,
    {
        let ghost before = buf@;
        write_u64_at(buf, off + 48 + 8 * j, n.children[j] as u64);
        proof {
            assert forall|i: int| 0 <= i < old(buf)@.len() implies #[trigger] buf@[i] == if off <= i < off + 48 + 8 * (j + 1) {
                record_byte(*n, i - off)
            } else {
                old(buf)@[i]
            } by {
                if off + 48 + 8 * j <= i < off + 48 + 8 * (j + 1) {
                    let o = i - off;
                    lemma_div_mod_record(j as int, o - 48 - 8 * j, 8);
                    assert((o - 48) / 8 == j);
                    assert((o - 48) % 8 == o - 48 - 8 * j);
                } else {
                    assert(buf@[i] == before[i]);
                }
            }
        }
        j = j + 1;
    }
    j = 0;
    while j < MAX_FILE_SIZE
        invariant
            j <= MAX_FILE_SIZE,
            len == buf@.len(),
            off + RECORD_SIZE <= len,
            buf@.len() == old(buf)@.len(),
            forall|i: int|
                0 <= i < old(buf)@.len() ==> #[trigger] buf@[i] == if off <= i < off + 176 + j {
                    record_byte(*n, i - off)
                } else {
                    old(buf)@[i]
                },
        decreases MAX_FILE_SIZE - j,
    {
        buf[off + 176 + j] = n.data[j];
        j = j + 1;
    }
    write_u64_at(buf, off + 432, n.data_len as u64);
}

impl FileSystem {
    /// Writes the image of the handed-out nodes (the count, then one record
    /// per node) to the start of `buf` and returns its length; 0, with `buf`
    /// untouched, when the image does not fit.
    pub fn serialize_to(&self, buf: &mut [u8]) -> (r: usize)
        requires
            self.wf(),
        ensures
            final(buf)@.len() == old(buf)@.len(),
            r == if old(buf)@.len() < image_len(self.count() as int) {
                0
            } else {
                image_len(self.count() as int)
            },
            forall|i: int|
                0 <= i < old(buf)@.len() ==> #[trigger] final(buf)@[i] == if i < r {
                    image_byte(self.nodes(), self.count() as int, i)
                } else {
                    old(buf)@[i]
                },
    {
        let count = self.node_count;
        let total = IMAGE_HEADER + count * RECORD_SIZE;
        let len = buf.len();
        if len < total {
            return 0;
        }
        write_u64_at(buf, 0, count as u64);
        let mut k: usize = 0;
        while k < count
            invariant
                self.wf(),
                count == self.node_count,
                total == image_len(count as int),
                k <= count,
                len == buf@.len(),
                total <= len,
                buf@.len() == old(buf)@.len(),
                forall|i: int|
                    0 <= i < old(buf)@.len() ==> #[trigger] buf@[i] == if i < IMAGE_HEADER + k * RECORD_SIZE {
                        image_byte(self.nodes(), count as int, i)
                    } else {
                        old(buf)@[i]
                    },
            decreases count - k,
        {
            let ghost before = buf@;
            let off = IMAGE_HEADER + k * RECORD_SIZE;
            write_record(buf, off, &self.nodes[k]);
            proof {
                assert forall|i: int| 0 <= i < old(buf)@.len() implies #[trigger] buf@[i] == if i < IMAGE_HEADER + (k + 1) * RECORD_SIZE {
                    image_byte(self.nodes(), count as int, i)
                } else {
                    old(buf)@[i]
                } by {
                    if off <= i < off + RECORD_SIZE {
                        lemma_div_mod_record(k as int, i - off, RECORD_SIZE as int);
                    } else {
                        assert(buf@[i] == before[i]);
                    }
                }
            }
            k = k + 1;
        }
        total
    }
}


/// The 64-bit little-endian value stored at `off`.
fn read_u64_at(buf: &[u8], off: usize) -> (r: u64)
    requires
        off + 8 <= buf@.len(),
    ensures
        r == field_u64(buf@, off as int),
{
    let _len = buf.len();
    u64_from_le_bytes(vstd::slice::slice_subrange(buf, off, off + 8))
}

/// Whether the record at `off` decodes to a node of a table of `count` nodes.
fn record_ok(buf: &[u8], off: usize, count: usize) -> (r: bool)
    requires
        off + RECORD_SIZE <= buf@.len(),
    ensures
        r == record_valid(buf@, off as int, count as int),
{
    let len = buf.len();
    if buf[off] > 2 {
        return false;
    }
    if read_u64_at(buf, off + 40) > usize::MAX as u64 {
        return false;
    }
    let mut j: usize = 0;
    while j < MAX_CHILDREN
        invariant
            j <= MAX_CHILDREN,
            len == buf@.len(),
            off + RECORD_SIZE <= buf@.len(),
            forall|q: int| 0 <= q < j ==> #[trigger] child_ok(field_u64(buf@, off + 48 + 8 * q), count as int),
        decreases MAX_CHILDREN - j,
    {
        let c = read_u64_at(buf, off + 48 + 8 * j);
        if !(c == NO_CHILD as u64 || c < count as u64) {
            assert(!child_ok(field_u64(buf@, off + 48 + 8 * j), count as int));
            return false;
        }
        j = j + 1;
    }
    read_u64_at(buf, off + 432) <= MAX_FILE_SIZE as u64
}

proof fn lemma_u64_field(s: Seq<u8>, off: int, x: u64)
    requires
        0 <= off,
        off + 8 <= s.len(),
        x == field_u64(s, off),
    ensures
        forall|k: int| 0 <= k < 8 ==> #[trigger] spec_u64_to_le_bytes(x)[k] == s[off + k],
{
    vstd::bytes::lemma_auto_spec_u64_to_from_le_bytes();
    assert(spec_u64_to_le_bytes(spec_u64_from_le_bytes(s.subrange(off, off + 8))) == s.subrange(off, off + 8));
}

/// Decodes the record at `off`.
fn decode_record(buf: &[u8], off: usize, count: usize) -> (r: FsNode)
    requires
        off + RECORD_SIZE <= buf@.len(),
        record_valid(buf@, off as int, count as int),
    ensures
        record_encodes(buf@, off as int, r),
        node_ok(r, count as int),
{
    let len = buf.len();
    let kb = buf[off];
    let kind = if kb == 0 {
        FsNodeKind::Unused
    } else if kb == 1 {
        FsNodeKind::File
    } else {
        FsNodeKind::Dir
    };
    let mut name = [0u8; MAX_NAME];
    let mut j: usize = 0;
    while j < MAX_NAME
        invariant
            j <= MAX_NAME,
            off + RECORD_SIZE <= buf@.len(),
            len == buf@.len(),
            name@.len() == MAX_NAME,
            forall|q: int| 0 <= q < j ==> #[trigger] name@[q] == buf@[off + 1 + q],
        decreases MAX_NAME - j,
    {
        name[j] = buf[off + 1 + j];
        j = j + 1;
    }
    let p = read_u64_at(buf, off + 40);
    let parent = p as usize;
    let mut children = [NO_CHILD; MAX_CHILDREN];
    j = 0;
    while j < MAX_CHILDREN
        invariant
            j <= MAX_CHILDREN,
            off + RECORD_SIZE <= buf@.len(),
            len == buf@.len(),
            record_valid(buf@, off as int, count as int),
            children@.len() == MAX_CHILDREN,
            forall|q: int|
                0 <= q < j ==> (#[trigger] children@[q]) as u64 == field_u64(buf@, off + 48 + 8 * q) && (
                children@[q] == NO_CHILD || children@[q] < count),
        decreases MAX_CHILDREN - j,
    {
        let c = read_u64_at(buf, off + 48 + 8 * j);
        assert(child_ok(field_u64(buf@, off + 48 + 8 * j), count as int));
        children[j] = c as usize;
        j = j + 1;
    }
    let mut data = [0u8; MAX_FILE_SIZE];
    j = 0;
    while j < MAX_FILE_SIZE
        invariant
            j <= MAX_FILE_SIZE,
            off + RECORD_SIZE <= buf@.len(),
            len == buf@.len(),
            data@.len() == MAX_FILE_SIZE,
            forall|q: int| 0 <= q < j ==> #[trigger] data@[q] == buf@[off + 176 + q],
        decreases MAX_FILE_SIZE - j,
    {
        data[j] = buf[off + 176 + j];
        j = j + 1;
    }
    let data_len = read_u64_at(buf, off + 432) as usize;
    let r = FsNode { kind, name, parent, children, data, data_len };
    proof {
        lemma_u64_field(buf@, off + 40, p);
        lemma_u64_field(buf@, off + 432, data_len as u64);
        assert forall|o: int| 0 <= o < RECORD_SIZE && !is_padding(o) implies buf@[off + o] == #[trigger] record_byte(r, o) by {
            if 48 <= o < 176 {
                let q = (o - 48) / 8;
                lemma_div_mod_record(q, (o - 48) % 8, 8);
                vstd::arithmetic::div_mod::lemma_fundamental_div_mod(o - 48, 8);
                assert(0 <= q < MAX_CHILDREN);
                lemma_u64_field(buf@, off + 48 + 8 * q, children@[q] as u64);
                assert(off + 48 + 8 * q + (o - 48) % 8 == off + o);
            }
        }
        assert forall|q: int| 0 <= q < MAX_CHILDREN implies (#[trigger] r.children@[q] == NO_CHILD || r.children@[q] < count) by {
        }
    }
    r
}

impl FileSystem {
    /// Replaces the first nodes of the table with those of an image and
    /// takes its count. The image is refused (false, nothing changes) unless
    /// it announces between 1 and `MAX_NODES` nodes, holds all their records,
    /// and every record has a known kind, a data length of at most
    /// `MAX_FILE_SIZE` and child links that are empty or name a node of the
    /// image. An image of no nodes is refused too: it would leave a table
    /// without its root directory, which every path resolves from, so the
    /// filesystem keeps what it holds rather than becoming unusable.
    pub fn deserialize_from(&mut self, buf: &[u8]) -> (r: bool)
        requires
            old(self).wf(),
        ensures
            final(self).wf(),
            r == image_valid(buf@),
            r ==> final(self).count() == image_count(buf@) && (forall|i: int|
                0 <= i < image_count(buf@) ==> record_encodes(
                    buf@,
                    IMAGE_HEADER + i * RECORD_SIZE,
                    #[trigger] final(self).nodes()[i],
                )) && (forall|i: int|
                image_count(buf@) <= i < MAX_NODES ==> #[trigger] final(self).nodes()[i] == old(
                    self,
                ).nodes()[i]),
            !r ==> final(self).nodes() == old(self).nodes() && final(self).count() == old(self).count(),
    {
        let len = buf.len();
        if len < IMAGE_HEADER {
            return false;
        }
        let c64 = read_u64_at(buf, 0);
        if c64 < 1 || c64 > MAX_NODES as u64 {
            return false;
        }
        let count = c64 as usize;
        if len < IMAGE_HEADER + count * RECORD_SIZE {
            return false;
        }
        let mut i: usize = 0;
        while i < count
            invariant
                i <= count,
                count as int == image_count(buf@),
                1 <= count <= MAX_NODES,
                len == buf@.len(),
                image_len(count as int) <= len,
                old(self).wf(),
                self.nodes@ == old(self).nodes@,
                self.node_count == old(self).node_count,
                forall|q: int| 0 <= q < i ==> #[trigger] record_valid(buf@, IMAGE_HEADER + q * RECORD_SIZE, count as int),
            decreases count - i,
        {
            if !record_ok(buf, IMAGE_HEADER + i * RECORD_SIZE, count) {
                assert(!record_valid(buf@, IMAGE_HEADER + i * RECORD_SIZE, count as int));
                return false;
            }
            i = i + 1;
        }
        assert(image_valid(buf@));
        i = 0;
        while i < count
            invariant
                i <= count,
                count as int == image_count(buf@),
                1 <= count <= MAX_NODES,
                len == buf@.len(),
                image_len(count as int) <= len,
                image_valid(buf@),
                self.nodes@.len() == MAX_NODES,
                self.node_count == old(self).node_count,
                old(self).wf(),
                forall|q: int| 0 <= q < i ==> record_encodes(buf@, IMAGE_HEADER + q * RECORD_SIZE, #[trigger] self.nodes@[q]) && node_ok(self.nodes@[q], count as int),
                forall|q: int| i <= q < MAX_NODES ==> #[trigger] self.nodes@[q] == old(self).nodes@[q],
            decreases count - i,
        {
            assert(record_valid(buf@, IMAGE_HEADER + i * RECORD_SIZE, count as int));
            let n = decode_record(buf, IMAGE_HEADER + i * RECORD_SIZE, count);
            self.nodes.set(i, n);
            i = i + 1;
        }
        self.node_count = count;
        proof {
            assert forall|q: int| 0 <= q < MAX_NODES implies node_ok(#[trigger] self.nodes@[q], MAX_NODES as int) by {
                if q < count {
                    assert(node_ok(self.nodes@[q], count as int));
                } else {
                    assert(node_ok(old(self).nodes@[q], MAX_NODES as int));
                }
            }
        }
        true
    }
}


proof fn lemma_le_bytes_injective(x: u64, y: u64)
    requires
        forall|k: int| 0 <= k < 8 ==> #[trigger] spec_u64_to_le_bytes(x)[k] == spec_u64_to_le_bytes(y)[k],
    ensures
        x == y,
{
    vstd::bytes::lemma_auto_spec_u64_to_from_le_bytes();
    assert(spec_u64_to_le_bytes(x) =~= spec_u64_to_le_bytes(y));
}

/// Two nodes whose records agree outside the padding are the same node.
proof fn lemma_record_injective(n: FsNode, m: FsNode)
    requires
        forall|o: int| 0 <= o < RECORD_SIZE && !is_padding(o) ==> #[trigger] record_byte(n, o) == record_byte(m, o),
    ensures
        n == m,
{
    assert(record_byte(n, 0) == record_byte(m, 0));
    assert(n.kind == m.kind);
    assert forall|q: int| 0 <= q < MAX_NAME implies n.name@[q] == m.name@[q] by {
        assert(record_byte(n, q + 1) == record_byte(m, q + 1));
    }
    assert(n.name@ =~= m.name@);
    assert forall|k: int| 0 <= k < 8 implies #[trigger] spec_u64_to_le_bytes(n.parent as u64)[k] == spec_u64_to_le_bytes(m.parent as u64)[k] by {
        assert(record_byte(n, 40 + k) == record_byte(m, 40 + k));
    }
    lemma_le_bytes_injective(n.parent as u64, m.parent as u64);
    assert forall|q: int| 0 <= q < MAX_CHILDREN implies n.children@[q] == m.children@[q] by {
        assert forall|k: int| 0 <= k < 8 implies #[trigger] spec_u64_to_le_bytes(n.children@[q] as u64)[k] == spec_u64_to_le_bytes(m.children@[q] as u64)[k] by {
            lemma_div_mod_record(q, k, 8);
            assert(record_byte(n, 48 + 8 * q + k) == record_byte(m, 48 + 8 * q + k));
        }
        lemma_le_bytes_injective(n.children@[q] as u64, m.children@[q] as u64);
    }
    assert(n.children@ =~= m.children@);
    assert forall|q: int| 0 <= q < MAX_FILE_SIZE implies n.data@[q] == m.data@[q] by {
        assert(record_byte(n, 176 + q) == record_byte(m, 176 + q));
    }
    assert(n.data@ =~= m.data@);
    assert forall|k: int| 0 <= k < 8 implies #[trigger] spec_u64_to_le_bytes(n.data_len as u64)[k] == spec_u64_to_le_bytes(m.data_len as u64)[k] by {
        assert(record_byte(n, 432 + k) == record_byte(m, 432 + k));
    }
    lemma_le_bytes_injective(n.data_len as u64, m.data_len as u64);
    vstd::array::axiom_array_ext_equal(n.name, m.name);
    vstd::array::axiom_array_ext_equal(n.children, m.children);
    vstd::array::axiom_array_ext_equal(n.data, m.data);
    assert(n.name == m.name);
    assert(n.children == m.children);
    assert(n.data == m.data);
    assert(n.parent == m.parent);
    assert(n.data_len == m.data_len);
}

/// Deserializing what `serialize_to` wrote gives the table back: the image
/// is accepted, announces the same node count, and each of its records
/// decodes to exactly the node it was written from.
pub proof fn law_image_roundtrip(fs: FileSystem, s: Seq<u8>)
    requires
        fs.wf(),
        s.len() >= image_len(fs.count() as int),
        forall|i: int| 0 <= i < image_len(fs.count() as int) ==> s[i] == #[trigger] image_byte(fs.nodes(), fs.count() as int, i),
    ensures
        image_valid(s),
        image_count(s) == fs.count(),
        forall|i: int, n: FsNode|
            0 <= i < fs.count() && #[trigger] record_encodes(s, IMAGE_HEADER + i * RECORD_SIZE, n) ==> n
                == fs.nodes()[i],
{
    let count = fs.count() as int;
    vstd::bytes::lemma_auto_spec_u64_to_from_le_bytes();
    assert forall|k: int| 0 <= k < 8 implies #[trigger] s.subrange(0, 8)[k] == spec_u64_to_le_bytes(count as u64)[k] by {
        assert(image_byte(fs.nodes(), count, k) == s[k]);
    }
    assert(s.subrange(0, 8) =~= spec_u64_to_le_bytes(count as u64));
    assert(image_count(s) == count);
    assert forall|i: int, o: int| 0 <= i < count && 0 <= o < RECORD_SIZE implies s[IMAGE_HEADER + i * RECORD_SIZE + o] == #[trigger] record_byte(fs.nodes()[i], o) by {
        lemma_div_mod_record(i, o, RECORD_SIZE as int);
        assert(IMAGE_HEADER + i * RECORD_SIZE + o < image_len(count)) by (nonlinear_arith)
            requires 0 <= i < count, 0 <= o < RECORD_SIZE;
        assert(s[IMAGE_HEADER + i * RECORD_SIZE + o] == image_byte(fs.nodes(), count, IMAGE_HEADER + i * RECORD_SIZE + o));
    }
    assert forall|i: int| 0 <= i < count implies #[trigger] record_valid(s, IMAGE_HEADER + i * RECORD_SIZE, count) by {
        let off = IMAGE_HEADER + i * RECORD_SIZE;
        let m = fs.nodes()[i];
        fs.lemma_node_ok(i);
        assert(s[off + 0] == record_byte(m, 0));
        assert forall|k: int| 0 <= k < 8 implies #[trigger] s.subrange(off + 40, off + 48)[k] == spec_u64_to_le_bytes(m.parent as u64)[k] by {
            assert(s[off + (40 + k)] == record_byte(m, 40 + k));
        }
        assert(s.subrange(off + 40, off + 48) =~= spec_u64_to_le_bytes(m.parent as u64));
        assert forall|k: int| 0 <= k < 8 implies #[trigger] s.subrange(off + 432, off + 440)[k] == spec_u64_to_le_bytes(m.data_len as u64)[k] by {
            assert(s[off + (432 + k)] == record_byte(m, 432 + k));
        }
        assert(s.subrange(off + 432, off + 440) =~= spec_u64_to_le_bytes(m.data_len as u64));
        assert forall|j: int| 0 <= j < MAX_CHILDREN implies #[trigger] child_ok(field_u64(s, off + 48 + 8 * j), count) by {
            assert forall|k: int| 0 <= k < 8 implies #[trigger] s.subrange(off + 48 + 8 * j, off + 48 + 8 * j + 8)[k] == spec_u64_to_le_bytes(m.children@[j] as u64)[k] by {
                lemma_div_mod_record(j, k, 8);
                assert(s[off + (48 + 8 * j + k)] == record_byte(m, 48 + 8 * j + k));
            }
            assert(s.subrange(off + 48 + 8 * j, off + 48 + 8 * j + 8) =~= spec_u64_to_le_bytes(m.children@[j] as u64));
            assert(m.children@[j] == NO_CHILD || m.children@[j] < count);
        }
    }
    assert forall|i: int, n: FsNode|
        0 <= i < count && #[trigger] record_encodes(s, IMAGE_HEADER + i * RECORD_SIZE, n) implies n == fs.nodes()[i] by {
        assert forall|o: int| 0 <= o < RECORD_SIZE && !is_padding(o) implies #[trigger] record_byte(n, o) == record_byte(fs.nodes()[i], o) by {
            assert(s[IMAGE_HEADER + i * RECORD_SIZE + o] == record_byte(fs.nodes()[i], o));
        }
        lemma_record_injective(n, fs.nodes()[i]);
    }
}

/// Lookups that only follow links below `c` see the same nodes in two
/// tables that agree below `c`.
proof fn lemma_lookup_prefix(a: Seq<FsNode>, b: Seq<FsNode>, c: int, parent: int, name: Seq<u8>, i: int)
    requires
        c <= a.len(),
        c <= b.len(),
        forall|k: int| 0 <= k < c ==> #[trigger] b[k] == a[k],
        forall|k: int| 0 <= k < c ==> node_ok(#[trigger] a[k], c),
        0 <= parent < c,
    ensures
        lookup_from(a, parent, name, i) == lookup_from(b, parent, name, i),
        lookup_from(a, parent, name, i) matches Some(x) ==> x < c,
    decreases MAX_CHILDREN - i,
{
    if 0 <= i < MAX_CHILDREN {
        assert(node_ok(a[parent], c));
        assert(b[parent] == a[parent]);
        let x = a[parent].children@[i];
        if x != NO_CHILD {
            assert(b[x as int] == a[x as int]);
        }
        lemma_lookup_prefix(a, b, c, parent, name, i + 1);
    }
}

proof fn lemma_walk_prefix(a: Seq<FsNode>, b: Seq<FsNode>, c: int, cur: int, parts: Seq<Seq<u8>>)
    requires
        c <= a.len(),
        c <= b.len(),
        forall|k: int| 0 <= k < c ==> #[trigger] b[k] == a[k],
        forall|k: int| 0 <= k < c ==> node_ok(#[trigger] a[k], c),
        0 <= cur < c,
    ensures
        walk(a, cur, parts) == walk(b, cur, parts),
        walk(a, cur, parts) matches Some(x) ==> x < c,
    decreases parts.len(),
{
    if parts.len() > 0 {
        lemma_lookup_prefix(a, b, c, cur, parts[0], 0);
        if let Some(x) = lookup(a, cur, parts[0]) {
            lemma_walk_prefix(a, b, c, x as int, parts.drop_first());
        }
    }
}

proof fn lemma_names_prefix(a: Seq<FsNode>, b: Seq<FsNode>, c: int, idx: int, i: int)
    requires
        c <= a.len(),
        c <= b.len(),
        forall|k: int| 0 <= k < c ==> #[trigger] b[k] == a[k],
        forall|k: int| 0 <= k < c ==> node_ok(#[trigger] a[k], c),
        0 <= idx < c,
    ensures
        child_names_from(a, idx, i) == child_names_from(b, idx, i),
    decreases MAX_CHILDREN - i,
{
    if 0 <= i < MAX_CHILDREN {
        assert(node_ok(a[idx], c));
        assert(b[idx] == a[idx]);
        let x = a[idx].children@[i];
        if x != NO_CHILD {
            assert(b[x as int] == a[x as int]);
        }
        lemma_names_prefix(a, b, c, idx, i + 1);
    }
}

/// A checkpoint image brings back the filesystem it was taken from: the
/// image `serialize_to` wrote is accepted, and once it is loaded, whatever
/// the table held meanwhile, every path resolves to the same node, reads
/// the same bytes and lists the same names as when the image was taken.
pub proof fn law_image_restores(saved: FileSystem, s: Seq<u8>, after: FileSystem, path: Seq<u8>)
    requires
        saved.wf(),
        s.len() >= image_len(saved.count() as int),
        forall|i: int| 0 <= i < image_len(saved.count() as int) ==> s[i] == #[trigger] image_byte(saved.nodes(), saved.count() as int, i),
        after.wf(),
        image_valid(s) ==> after.count() == image_count(s) && (forall|i: int|
            0 <= i < image_count(s) ==> record_encodes(s, IMAGE_HEADER + i * RECORD_SIZE, #[trigger] after.nodes()[i])),
    ensures
        image_valid(s),
        after.count() == saved.count(),
        resolve_spec(after.nodes(), path) == resolve_spec(saved.nodes(), path),
        read_spec(after.nodes(), path) == read_spec(saved.nodes(), path),
        resolve_spec(saved.nodes(), path) matches Some(i) ==> child_names_from(after.nodes(), i as int, 0)
            == child_names_from(saved.nodes(), i as int, 0),
{
    law_image_roundtrip(saved, s);
    let c = saved.count() as int;
    let a = saved.nodes();
    let b = after.nodes();
    saved.lemma_links_below();
    after.lemma_links_below();
    assert forall|k: int| 0 <= k < c implies #[trigger] b[k] == a[k] by {
        assert(record_encodes(s, IMAGE_HEADER + k * RECORD_SIZE, b[k]));
    }
    lemma_walk_prefix(a, b, c, 0, path_parts(path));
    if let Some(i) = resolve_spec(a, path) {
        assert(b[i as int] == a[i as int]);
        lemma_names_prefix(a, b, c, i as int, 0);
    }
}

impl FileSystem {
    proof fn lemma_links_below(&self)
        requires
            self.wf(),
        ensures
            1 <= self.count() <= MAX_NODES,
            self.nodes().len() == MAX_NODES,
            forall|k: int| 0 <= k < self.count() ==> node_ok(#[trigger] self.nodes()[k], self.count() as int),
    {
    }

    proof fn lemma_links_in_range(&self)
        requires
            self.wf(),
        ensures
            links_in_range(self.nodes()),
            self.nodes().len() == MAX_NODES,
    {
        assert forall|k: int| 0 <= k < self.nodes().len() implies node_ok(
            #[trigger] self.nodes()[k],
            self.nodes().len() as int,
        ) by {
            assert(node_ok(self.nodes@[k], MAX_NODES as int));
        }
    }

    proof fn lemma_node_ok(&self, i: int)
        requires
            self.wf(),
            0 <= i < self.count(),
        ensures
            node_ok(self.nodes()[i], self.count() as int),
    {
    }
}

} // verus!
