//! The traversal engine: a depth-first, pre-order walk of a directory
//! tree that holds every entry against the configured filters and
//! collects the matching paths in discovery order.
//!
//! The tree is walked as data: one [`FsNode`] per entry, children in
//! the order the underlying enumeration returned them.  A symbolic
//! link carries the identity of its target; a link whose identity was
//! already seen in this run is skipped entirely, which is what breaks
//! cycles formed by links pointing back into visited territory.  Links
//! are never descended into: only plain directories recurse.

use vstd::prelude::*;
use crate::args::Args;
use crate::args::ArgsV;
use crate::filter::EntryKind;
use crate::filter::SLASH;
use crate::filter::should_print;
use crate::filter::spec_should_print;

verus! {

/// A value that identifies a filesystem object's storage location
/// (device and inode, or a platform equivalent), used to recognise a
/// symbolic-link target that was seen before.
#[derive(Clone, Copy, PartialEq, Eq, Structural, Debug)]
pub struct Identity {
    pub dev: u64,
    pub ino: u64,
}

/// One entry of the tree under traversal: its name (the final path
/// component only), its classification, the identity of its target
/// when it is a symbolic link, and its children when it is a
/// directory.
pub struct FsNode {
    pub name: Vec<u8>,
    pub kind: EntryKind,
    pub target_id: Identity,
    pub children: Vec<FsNode>,
}

/// One emission of the walk: the path handed out, the classification
/// the entry had when it was held against the filters, and the target
/// identity it carried (meaningful for symbolic links).
pub struct EmitRecord {
    pub path: Seq<u8>,
    pub kind: EntryKind,
    pub target_id: Identity,
}

/// The walk's running state: what has been emitted so far and which
/// link identities have been seen.  The identity set only grows.
pub struct WalkState {
    pub emitted: Seq<EmitRecord>,
    pub visited: Set<Identity>,
}

/// The paths of a run of emissions, in order.
pub open spec fn emitted_paths(s: Seq<EmitRecord>) -> Seq<Seq<u8>> {
    s.map_values(|e: EmitRecord| e.path)
}

/// A child's path: the parent's path, the separator, the child's name.
pub open spec fn child_path(path: Seq<u8>, name: Seq<u8>) -> Seq<u8> {
    path + seq![SLASH] + name
}

/// One traversal step on a child entry: a symbolic link whose target
/// was already seen is skipped outright — not filtered, not descended
/// into; otherwise a fresh link identity is recorded, the entry is
/// held against the filters and emitted on a pass, and a directory is
/// then walked recursively.
pub open spec fn spec_visit_child(c: FsNode, path: Seq<u8>, opts: ArgsV, st: WalkState) -> WalkState
    decreases c, 1int,
{
    let cpath = child_path(path, c.name@);
    if c.kind == EntryKind::Symlink && st.visited.contains(c.target_id) {
        st
    } else {
        let v2 = if c.kind == EntryKind::Symlink {
            st.visited.insert(c.target_id)
        } else {
            st.visited
        };
        let e2 = if spec_should_print(cpath, c.kind, opts) {
            st.emitted.push(EmitRecord { path: cpath, kind: c.kind, target_id: c.target_id })
        } else {
            st.emitted
        };
        let st1 = WalkState { emitted: e2, visited: v2 };
        if c.kind == EntryKind::Dir {
            spec_walk_children(c.children@, cpath, opts, st1)
        } else {
            st1
        }
    }
}

/// The traversal of a directory's children, left to right, threading
/// the state through each step.
pub open spec fn spec_walk_children(
    cs: Seq<FsNode>,
    path: Seq<u8>,
    opts: ArgsV,
    st: WalkState,
) -> WalkState
    decreases cs, 0int,
{
    if cs.len() == 0 {
        st
    } else {
        spec_walk_children(cs.skip(1), path, opts, spec_visit_child(cs[0], path, opts, st))
    }
}

/// The traversal below one node: a directory's children are walked,
/// anything else contributes nothing of its own.
pub open spec fn spec_walk_dir(node: FsNode, path: Seq<u8>, opts: ArgsV, st: WalkState) -> WalkState {
    if node.kind == EntryKind::Dir {
        spec_walk_children(node.children@, path, opts, st)
    } else {
        st
    }
}

/// What a step emits does not depend on what was emitted before it:
/// the state's emission run is only ever appended to, and the identity
/// set evolves independently of it.
proof fn lemma_frame_child(c: FsNode, path: Seq<u8>, opts: ArgsV, e: Seq<EmitRecord>, v: Set<Identity>)
    ensures
        ({
            let full = spec_visit_child(c, path, opts, WalkState { emitted: e, visited: v });
            let base = spec_visit_child(
                c,
                path,
                opts,
                WalkState { emitted: Seq::empty(), visited: v },
            );
            full.emitted == e + base.emitted && full.visited == base.visited
        }),
    decreases c, 1int,
{
    let cpath = child_path(path, c.name@);
    if c.kind == EntryKind::Symlink && v.contains(c.target_id) {
        assert(e + Seq::<EmitRecord>::empty() =~= e);
    } else {
        let v2 = if c.kind == EntryKind::Symlink {
            v.insert(c.target_id)
        } else {
            v
        };
        let printed = spec_should_print(cpath, c.kind, opts);
        let rec = EmitRecord { path: cpath, kind: c.kind, target_id: c.target_id };
        let e2_full = if printed {
            e.push(rec)
        } else {
            e
        };
        let e2_base = if printed {
            Seq::empty().push(rec)
        } else {
            Seq::empty()
        };
        assert(e2_full =~= e + e2_base);
        if c.kind == EntryKind::Dir {
            lemma_frame_children(c.children@, cpath, opts, e2_full, v2);
            lemma_frame_children(c.children@, cpath, opts, e2_base, v2);
            let w = spec_walk_children(
                c.children@,
                cpath,
                opts,
                WalkState { emitted: Seq::empty(), visited: v2 },
            );
            assert((e + e2_base) + w.emitted =~= e + (e2_base + w.emitted));
        } else {
            assert(e2_full == e + e2_base);
        }
    }
}

/// The same independence for a whole run of children.
proof fn lemma_frame_children(
    cs: Seq<FsNode>,
    path: Seq<u8>,
    opts: ArgsV,
    e: Seq<EmitRecord>,
    v: Set<Identity>,
)
    ensures
        ({
            let full = spec_walk_children(cs, path, opts, WalkState { emitted: e, visited: v });
            let base = spec_walk_children(
                cs,
                path,
                opts,
                WalkState { emitted: Seq::empty(), visited: v },
            );
            full.emitted == e + base.emitted && full.visited == base.visited
        }),
    decreases cs, 2int,
{
    if cs.len() == 0 {
        assert(e + Seq::<EmitRecord>::empty() =~= e);
    } else {
        lemma_frame_child(cs[0], path, opts, e, v);
        let st1_base = spec_visit_child(
            cs[0],
            path,
            opts,
            WalkState { emitted: Seq::empty(), visited: v },
        );
        let b1 = st1_base.emitted;
        let v1 = st1_base.visited;
        lemma_frame_children(cs.skip(1), path, opts, e + b1, v1);
        lemma_frame_children(cs.skip(1), path, opts, b1, v1);
        let w = spec_walk_children(
            cs.skip(1),
            path,
            opts,
            WalkState { emitted: Seq::empty(), visited: v1 },
        );
        assert((e + b1) + w.emitted =~= e + (b1 + w.emitted));
    }
}

/// Everything a child step emits, beyond what was already there,
/// passed the filters with the classification it was emitted under.
proof fn lemma_child_emits_matches(c: FsNode, path: Seq<u8>, opts: ArgsV, v: Set<Identity>)
    ensures
        ({
            let base = spec_visit_child(
                c,
                path,
                opts,
                WalkState { emitted: Seq::empty(), visited: v },
            );
            forall|j: int|
                0 <= j < base.emitted.len() ==> spec_should_print(
                    (#[trigger] base.emitted[j]).path,
                    base.emitted[j].kind,
                    opts,
                )
        }),
    decreases c, 1int,
{
    let cpath = child_path(path, c.name@);
    if !(c.kind == EntryKind::Symlink && v.contains(c.target_id)) {
        let v2 = if c.kind == EntryKind::Symlink {
            v.insert(c.target_id)
        } else {
            v
        };
        let printed = spec_should_print(cpath, c.kind, opts);
        let rec = EmitRecord { path: cpath, kind: c.kind, target_id: c.target_id };
        let e2 = if printed {
            Seq::empty().push(rec)
        } else {
            Seq::<EmitRecord>::empty()
        };
        if c.kind == EntryKind::Dir {
            lemma_frame_children(c.children@, cpath, opts, e2, v2);
            lemma_children_emit_matches(c.children@, cpath, opts, v2);
        }
    }
}

/// The same for a whole run of children.
proof fn lemma_children_emit_matches(cs: Seq<FsNode>, path: Seq<u8>, opts: ArgsV, v: Set<Identity>)
    ensures
        ({
            let base = spec_walk_children(
                cs,
                path,
                opts,
                WalkState { emitted: Seq::empty(), visited: v },
            );
            forall|j: int|
                0 <= j < base.emitted.len() ==> spec_should_print(
                    (#[trigger] base.emitted[j]).path,
                    base.emitted[j].kind,
                    opts,
                )
        }),
    decreases cs, 2int,
{
    if cs.len() > 0 {
        lemma_child_emits_matches(cs[0], path, opts, v);
        let st1 = spec_visit_child(
            cs[0],
            path,
            opts,
            WalkState { emitted: Seq::empty(), visited: v },
        );
        lemma_frame_children(cs.skip(1), path, opts, st1.emitted, st1.visited);
        lemma_children_emit_matches(cs.skip(1), path, opts, st1.visited);
    }
}

/// A step never forgets an identity it has seen.
proof fn lemma_child_visited_grows(c: FsNode, path: Seq<u8>, opts: ArgsV, st: WalkState)
    ensures
        st.visited.subset_of(spec_visit_child(c, path, opts, st).visited),
    decreases c, 1int,
{
    let cpath = child_path(path, c.name@);
    if !(c.kind == EntryKind::Symlink && st.visited.contains(c.target_id)) {
        let v2 = if c.kind == EntryKind::Symlink {
            st.visited.insert(c.target_id)
        } else {
            st.visited
        };
        let e2 = if spec_should_print(cpath, c.kind, opts) {
            st.emitted.push(EmitRecord { path: cpath, kind: c.kind, target_id: c.target_id })
        } else {
            st.emitted
        };
        if c.kind == EntryKind::Dir {
            lemma_children_visited_grow(c.children@, cpath, opts, WalkState { emitted: e2, visited: v2 });
        }
    }
}

/// Nor does a run of steps.
proof fn lemma_children_visited_grow(cs: Seq<FsNode>, path: Seq<u8>, opts: ArgsV, st: WalkState)
    ensures
        st.visited.subset_of(spec_walk_children(cs, path, opts, st).visited),
    decreases cs, 2int,
{
    if cs.len() > 0 {
        lemma_child_visited_grows(cs[0], path, opts, st);
        lemma_children_visited_grow(cs.skip(1), path, opts, spec_visit_child(cs[0], path, opts, st));
    }
}

/// The identity set grows monotonically over a traversal: nothing is
/// ever removed from it, so a link identity once seen stays skipped
/// for the rest of the run.
pub proof fn lemma_walk_visited_only_grows(node: FsNode, path: Seq<u8>, opts: ArgsV, st: WalkState)
    ensures
        st.visited.subset_of(spec_walk_dir(node, path, opts, st).visited),
{
    if node.kind == EntryKind::Dir {
        lemma_children_visited_grow(node.children@, path, opts, st);
    }
}

/// The running invariant behind cycle breaking: no two emitted
/// symbolic links share a target identity, and every emitted link's
/// identity is already in the visited set.
spec fn links_listed_once(st: WalkState) -> bool {
    &&& forall|j: int, k: int|
        0 <= j < k < st.emitted.len() && (#[trigger] st.emitted[j]).kind == EntryKind::Symlink
            && (#[trigger] st.emitted[k]).kind == EntryKind::Symlink
            ==> st.emitted[j].target_id != st.emitted[k].target_id
    &&& forall|j: int|
        0 <= j < st.emitted.len() && (#[trigger] st.emitted[j]).kind == EntryKind::Symlink
            ==> st.visited.contains(st.emitted[j].target_id)
}

/// A step preserves the invariant: a link is emitted only when its
/// identity is fresh, and the identity is recorded with the emission.
proof fn lemma_child_links_once(c: FsNode, path: Seq<u8>, opts: ArgsV, st: WalkState)
    requires
        links_listed_once(st),
    ensures
        links_listed_once(spec_visit_child(c, path, opts, st)),
    decreases c, 1int,
{
    let cpath = child_path(path, c.name@);
    if !(c.kind == EntryKind::Symlink && st.visited.contains(c.target_id)) {
        let v2 = if c.kind == EntryKind::Symlink {
            st.visited.insert(c.target_id)
        } else {
            st.visited
        };
        let e2 = if spec_should_print(cpath, c.kind, opts) {
            st.emitted.push(EmitRecord { path: cpath, kind: c.kind, target_id: c.target_id })
        } else {
            st.emitted
        };
        let st1 = WalkState { emitted: e2, visited: v2 };
        assert(links_listed_once(st1));
        if c.kind == EntryKind::Dir {
            lemma_children_links_once(c.children@, cpath, opts, st1);
        }
    }
}

/// And so does a run of steps.
proof fn lemma_children_links_once(cs: Seq<FsNode>, path: Seq<u8>, opts: ArgsV, st: WalkState)
    requires
        links_listed_once(st),
    ensures
        links_listed_once(spec_walk_children(cs, path, opts, st)),
    decreases cs, 2int,
{
    if cs.len() > 0 {
        lemma_child_links_once(cs[0], path, opts, st);
        lemma_children_links_once(cs.skip(1), path, opts, spec_visit_child(cs[0], path, opts, st));
    }
}

/// Cycle breaking, stated in general: within one run the walk lists
/// each symbolic-link identity at most once.  The identity token is
/// recorded at first sighting and every later sighting is skipped, so
/// no two emitted links share a target identity, however many links
/// point back into visited territory.
pub proof fn lemma_walk_lists_each_link_once(
    node: FsNode,
    path: Seq<u8>,
    opts: ArgsV,
    visited: Set<Identity>,
)
    ensures
        ({
            let r = spec_walk_dir(node, path, opts, WalkState { emitted: Seq::empty(), visited });
            forall|j: int, k: int|
                0 <= j < k < r.emitted.len() && (#[trigger] r.emitted[j]).kind
                    == EntryKind::Symlink && (#[trigger] r.emitted[k]).kind == EntryKind::Symlink
                    ==> r.emitted[j].target_id != r.emitted[k].target_id
        }),
{
    let st = WalkState { emitted: Seq::empty(), visited };
    assert(links_listed_once(st));
    if node.kind == EntryKind::Dir {
        lemma_children_links_once(node.children@, path, opts, st);
    }
}

/// The law the walk is built for: a path is emitted only together
/// with a classification that passes the configured type constraint,
/// and only if its final component passes every configured name
/// pattern — [`spec_should_print`] held at the moment of emission.
pub proof fn lemma_walk_emits_only_matches(
    node: FsNode,
    path: Seq<u8>,
    opts: ArgsV,
    visited: Set<Identity>,
)
    ensures
        ({
            let r = spec_walk_dir(node, path, opts, WalkState { emitted: Seq::empty(), visited });
            forall|j: int|
                0 <= j < r.emitted.len() ==> spec_should_print(
                    (#[trigger] r.emitted[j]).path,
                    r.emitted[j].kind,
                    opts,
                )
        }),
{
    if node.kind == EntryKind::Dir {
        lemma_children_emit_matches(node.children@, path, opts, visited);
    }
}

/// Records `id` unless it was seen before, and says whether it was
/// fresh.  The set of recorded identities only ever grows.
pub fn visit_check_insert(visited: &mut Vec<Identity>, id: Identity) -> (fresh: bool)
    ensures
        fresh == !old(visited)@.to_set().contains(id),
        final(visited)@.to_set() == if fresh {
            old(visited)@.to_set().insert(id)
        } else {
            old(visited)@.to_set()
        },
{
    let mut i: usize = 0;
    while i < visited.len()
        invariant
            i <= visited@.len(),
            visited@ == old(visited)@,
            forall|k: int| 0 <= k < i ==> visited@[k] != id,
        decreases visited@.len() - i,
    {
        if visited[i] == id {
            proof {
                assert(visited@.contains(id));
            }
            return false;
        }
        i = i + 1;
    }
    proof {
        assert(!old(visited)@.contains(id));
    }
    visited.push(id);
    proof {
        assert forall|x: Identity|
            visited@.to_set().contains(x) == old(visited)@.to_set().insert(id).contains(x) by {
            if visited@.contains(x) {
                let k = choose|k: int| 0 <= k < visited@.len() && visited@[k] == x;
                if k < old(visited)@.len() {
                    assert(old(visited)@[k] == x);
                }
            }
            if old(visited)@.contains(x) {
                let k = choose|k: int| 0 <= k < old(visited)@.len() && old(visited)@[k] == x;
                assert(visited@[k] == x);
            }
            if x == id {
                assert(visited@[visited@.len() - 1] == x);
            }
        }
        assert(visited@.to_set() =~= old(visited)@.to_set().insert(id));
    }
    true
}

/// Builds `<parent>/<name>` with the platform separator.
pub fn join_path(path: &[u8], name: &[u8]) -> (r: Vec<u8>)
    ensures
        r@ == child_path(path@, name@),
{
    let mut r: Vec<u8> = Vec::new();
    let mut i: usize = 0;
    while i < path.len()
        invariant
            i <= path@.len(),
            r@ =~= path@.take(i as int),
        decreases path@.len() - i,
    {
        r.push(path[i]);
        proof {
            assert(r@ =~= path@.take(i + 1));
        }
        i = i + 1;
    }
    r.push(SLASH);
    let mut j: usize = 0;
    while j < name.len()
        invariant
            j <= name@.len(),
            r@ =~= path@ + seq![SLASH] + name@.take(j as int),
        decreases name@.len() - j,
    {
        r.push(name[j]);
        proof {
            assert(r@ =~= path@ + seq![SLASH] + name@.take(j + 1));
        }
        j = j + 1;
    }
    proof {
        assert(r@ =~= child_path(path@, name@));
    }
    r
}

/// Walks the children of `node` depth first, appending every matching
/// path to `out` in discovery order and recording the symbolic-link
/// identities it saw in `visited`.
pub fn find_recursive(
    node: &FsNode,
    path: &[u8],
    opts: &Args,
    visited: &mut Vec<Identity>,
    out: &mut Vec<Vec<u8>>,
)
    ensures
        ({
            let r = spec_walk_dir(
                *node,
                path@,
                opts@,
                WalkState { emitted: Seq::empty(), visited: old(visited)@.to_set() },
            );
            &&& final(out).deep_view() == old(out).deep_view() + emitted_paths(r.emitted)
            &&& final(visited)@.to_set() == r.visited
        }),
    decreases *node,
{
    let ghost st0 = WalkState { emitted: Seq::empty(), visited: old(visited)@.to_set() };
    if !(node.kind == EntryKind::Dir) {
        proof {
            assert(out.deep_view() =~= old(out).deep_view() + emitted_paths(Seq::empty()));
        }
        return ;
    }
    let ghost total = spec_walk_children(node.children@, path@, opts@, st0);
    let ghost mut gst = st0;
    proof {
        assert(node.children@.skip(0) =~= node.children@);
        assert(emitted_paths(Seq::empty()) =~= Seq::<Seq<u8>>::empty());
        assert(out.deep_view() =~= old(out).deep_view() + emitted_paths(Seq::empty()));
    }
    let mut i: usize = 0;
    while i < node.children.len()
        invariant
            i <= node.children@.len(),
            node.kind == EntryKind::Dir,
            spec_walk_children(node.children@.skip(i as int), path@, opts@, gst) == total,
            out.deep_view() == old(out).deep_view() + emitted_paths(gst.emitted),
            visited@.to_set() == gst.visited,
        decreases node.children@.len() - i,
    {
        let ghost gst_prev = gst;
        let child = &node.children[i];
        let cpath = join_path(path, child.name.as_slice());
        let mut skip_child = false;
        if child.kind == EntryKind::Symlink {
            let fresh = visit_check_insert(visited, child.target_id);
            if !fresh {
                skip_child = true;
            }
        }
        if !skip_child {
            let ghost v2 = gst_prev.visited.union(if child.kind == EntryKind::Symlink {
                set![child.target_id]
            } else {
                Set::empty()
            });
            proof {
                assert(visited@.to_set() =~= v2);
            }
            if should_print(cpath.as_slice(), child.kind, opts) {
                let emitted_path = cpath.clone();
                proof {
                    assert(emitted_path@ == cpath@);
                    assert(emitted_path.deep_view() =~= cpath@);
                }
                let ghost pre_push = out.deep_view();
                out.push(emitted_path);
                proof {
                    let rec = EmitRecord { path: cpath@, kind: child.kind, target_id: child.target_id };
                    assert(out.deep_view() =~= pre_push.push(cpath@));
                    assert(emitted_paths(gst_prev.emitted.push(rec)) =~= emitted_paths(
                        gst_prev.emitted,
                    ).push(cpath@));
                    assert(out.deep_view() =~= old(out).deep_view() + emitted_paths(
                        gst_prev.emitted.push(rec),
                    ));
                }
            }
            if child.kind == EntryKind::Dir {
                let ghost pre_rec_visited = visited@.to_set();
                let ghost e2 = if spec_should_print(cpath@, child.kind, opts@) {
                    gst_prev.emitted.push(EmitRecord { path: cpath@, kind: child.kind, target_id: child.target_id })
                } else {
                    gst_prev.emitted
                };
                find_recursive(child, cpath.as_slice(), opts, visited, out);
                proof {
                    lemma_frame_children(child.children@, cpath@, opts@, e2, pre_rec_visited);
                    let w = spec_walk_children(
                        child.children@,
                        cpath@,
                        opts@,
                        WalkState { emitted: Seq::empty(), visited: pre_rec_visited },
                    );
                    assert(out.deep_view() =~= old(out).deep_view() + (emitted_paths(e2)
                        + emitted_paths(w.emitted)));
                    assert(emitted_paths(e2) + emitted_paths(w.emitted) =~= emitted_paths(
                        e2 + w.emitted,
                    ));
                }
            }
        }
        proof {
            gst = spec_visit_child(node.children@[i as int], path@, opts@, gst_prev);
            assert(node.children@.skip(i as int)[0] == node.children@[i as int]);
            assert(node.children@.skip(i as int).skip(1) =~= node.children@.skip(i + 1));
        }
        i = i + 1;
    }
    proof {
        assert(node.children@.skip(i as int) =~= Seq::<FsNode>::empty());
    }
}

/// Walks a whole tree: the start path itself is held against the
/// filters first — it was not discovered by enumeration — and the
/// descent follows, with an identity set that starts empty and is
/// owned by this one run.
pub fn walk(start_path: &[u8], root: &FsNode, opts: &Args) -> (out: Vec<Vec<u8>>)
    ensures
        ({
            let r = spec_walk_dir(
                *root,
                start_path@,
                opts@,
                WalkState { emitted: Seq::empty(), visited: Set::empty() },
            );
            out.deep_view() == (if spec_should_print(start_path@, root.kind, opts@) {
                seq![start_path@]
            } else {
                Seq::<Seq<u8>>::empty()
            }) + emitted_paths(r.emitted)
        }),
{
    let mut out: Vec<Vec<u8>> = Vec::new();
    if should_print(start_path, root.kind, opts) {
        let mut first: Vec<u8> = Vec::new();
        let mut i: usize = 0;
        while i < start_path.len()
            invariant
                i <= start_path@.len(),
                first@ =~= start_path@.take(i as int),
            decreases start_path@.len() - i,
        {
            first.push(start_path[i]);
            proof {
                assert(first@ =~= start_path@.take(i + 1));
            }
            i = i + 1;
        }
        proof {
            assert(first@ =~= start_path@);
            assert(first.deep_view() =~= start_path@);
        }
        out.push(first);
        proof {
            assert(out.deep_view() =~= seq![start_path@]);
        }
    }
    let ghost head = out.deep_view();
    let mut visited: Vec<Identity> = Vec::new();
    proof {
        assert(visited@.to_set() =~= Set::<Identity>::empty());
    }
    find_recursive(root, start_path, opts, &mut visited, &mut out);
    proof {
        if spec_should_print(start_path@, root.kind, opts@) {
            assert(head =~= seq![start_path@]);
        } else {
            assert(head =~= Seq::<Seq<u8>>::empty());
        }
    }
    out
}

} // verus!
