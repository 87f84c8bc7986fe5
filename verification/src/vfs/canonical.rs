//! What holds of the paths of working directories.
use vstd::prelude::*;

use crate::fs::{name_byte, name_check, Metadata, NodeId, NodeKind};
use crate::text::ascii;

use super::path::{joined, lemma_no_slash, rendered, SLASH};
use super::resolve::{
    change_dir_step, component_end, descend, follow, is_name, origin, require_dir, walk, Target,
    DOT, MAX_PATH_BYTES,
};
use super::{FileSystem, FsError, VfsError};

verus! {

/// What a working directory is: its names are names, none of them stands for the directory itself
/// or its parent, and its path is not too long.
pub open spec fn canonical(cwd: Seq<Seq<u8>>) -> bool {
    &&& forall|i: int|
        0 <= i < cwd.len() ==> name_check(#[trigger] cwd[i]) is Ok && is_name(cwd[i])
    &&& rendered(cwd).len() <= MAX_PATH_BYTES
}

/// What a file system that does not change says of its nodes.
pub struct Tree {
    pub metadata: spec_fn(NodeId) -> Result<Metadata, FsError>,
    pub lookup: spec_fn(NodeId, Seq<u8>) -> Result<NodeId, FsError>,
}

/// As long as a file system is as `keeps` says, looking at it gives the same again, and it stays
/// so.
pub open spec fn steady<F: FileSystem>(keeps: spec_fn(F::Model) -> bool, tree: Tree) -> bool {
    &&& forall|m: F::Model, node: NodeId|
        keeps(m) ==> {
            let seen = #[trigger] F::metadata_step(m, node);
            seen.result == (tree.metadata)(node) && keeps(seen.model)
        }
    &&& forall|m: F::Model, dir: NodeId, name: Seq<u8>|
        keeps(m) ==> {
            let seen = #[trigger] F::lookup_step(m, dir, name);
            seen.result == (tree.lookup)(dir, name) && keeps(seen.model)
        }
}

/// A node is a directory, or why that is not known.
spec fn checked(tree: Tree, node: NodeId) -> Result<(), VfsError> {
    match (tree.metadata)(node) {
        Err(e) => Err(VfsError::Fs(e)),
        Ok(metadata) => if metadata.kind == NodeKind::Directory {
            Ok(())
        } else {
            Err(VfsError::NotDirectory)
        },
    }
}

/// The node that names lead to.
spec fn leads(tree: Tree, components: Seq<Seq<u8>>, from: int, node: NodeId) -> Result<
    NodeId,
    VfsError,
>
    decreases components.len() - from,
{
    if from >= components.len() {
        Ok(node)
    } else {
        match checked(tree, node) {
            Err(e) => Err(e),
            Ok(()) => match (tree.lookup)(node, components[from]) {
                Err(e) => Err(VfsError::Fs(e)),
                Ok(next) => leads(tree, components, from + 1, next),
            },
        }
    }
}

/// A target is the node that its names lead to from the root.
spec fn holds<F: FileSystem>(tree: Tree, target: Target) -> bool {
    leads(tree, target.components, 0, F::root_node()) == Ok::<_, VfsError>(target.node)
}

proof fn lemma_require_dir<F: FileSystem>(
    keeps: spec_fn(F::Model) -> bool,
    tree: Tree,
    m: F::Model,
    node: NodeId,
)
    requires
        steady::<F>(keeps, tree),
        keeps(m),
    ensures
        require_dir::<F>(m, node).result == checked(tree, node),
        keeps(require_dir::<F>(m, node).model),
{
    let seen = F::metadata_step(m, node);
    assert(seen.result == (tree.metadata)(node));
}

proof fn lemma_descend<F: FileSystem>(
    keeps: spec_fn(F::Model) -> bool,
    tree: Tree,
    m: F::Model,
    components: Seq<Seq<u8>>,
    from: int,
    node: NodeId,
)
    requires
        steady::<F>(keeps, tree),
        keeps(m),
    ensures
        descend::<F>(m, components, from, node).result == leads(tree, components, from, node),
        keeps(descend::<F>(m, components, from, node).model),
    decreases components.len() - from,
{
    if from < components.len() {
        lemma_require_dir::<F>(keeps, tree, m, node);
        let entered = require_dir::<F>(m, node);
        if entered.result is Ok {
            let found = F::lookup_step(entered.model, node, components[from]);
            if let Ok(next) = found.result {
                lemma_descend::<F>(keeps, tree, found.model, components, from + 1, next);
            }
        }
    }
}

/// One name more leads one step further.
proof fn lemma_leads_further(
    tree: Tree,
    components: Seq<Seq<u8>>,
    name: Seq<u8>,
    from: int,
    node: NodeId,
)
    requires
        0 <= from <= components.len(),
    ensures
        leads(tree, components.push(name), from, node) == match leads(
            tree,
            components,
            from,
            node,
        ) {
            Err(e) => Err(e),
            Ok(dir) => match checked(tree, dir) {
                Err(e) => Err(e),
                Ok(()) => match (tree.lookup)(dir, name) {
                    Err(e) => Err(VfsError::Fs(e)),
                    Ok(next) => Ok::<_, VfsError>(next),
                },
            },
        },
    decreases components.len() - from,
{
    let longer = components.push(name);
    reveal_with_fuel(leads, 2);
    if from < components.len() {
        assert(longer[from] == components[from]);
        if checked(tree, node) is Ok {
            if let Ok(next) = (tree.lookup)(node, components[from]) {
                lemma_leads_further(tree, components, name, from + 1, next);
            }
        }
    } else {
        assert(longer[from] == name);
    }
}

/// The path of a directory is shorter than those of the directories in it.
proof fn lemma_shorter(cwd: Seq<Seq<u8>>, n: int)
    requires
        0 <= n <= cwd.len(),
    ensures
        joined(cwd.take(n)).len() <= joined(cwd).len(),
        cwd.len() > 0 ==> rendered(cwd.take(n)).len() <= rendered(cwd).len(),
    decreases cwd.len() - n,
{
    if n < cwd.len() {
        lemma_shorter(cwd, n + 1);
        assert(cwd.take(n + 1).drop_last() =~= cwd.take(n));
    } else {
        assert(cwd.take(n) =~= cwd);
    }
}

proof fn lemma_canonical_parent(cwd: Seq<Seq<u8>>)
    requires
        canonical(cwd),
        cwd.len() > 0,
    ensures
        canonical(cwd.drop_last()),
{
    lemma_shorter(cwd, cwd.len() - 1);
    assert(cwd.take(cwd.len() - 1) =~= cwd.drop_last());
}

proof fn lemma_follow_canonical<F: FileSystem>(
    m: F::Model,
    path: Seq<u8>,
    rest: int,
    component: Seq<u8>,
    target: Target,
)
    requires
        canonical(target.components),
    ensures
        follow::<F>(m, path, rest, component, target).result matches Ok(next) ==> canonical(
            next.components,
        ),
{
    if component == seq![DOT, DOT] && target.components.len() > 0 {
        lemma_canonical_parent(target.components);
    }
}

proof fn lemma_walk_canonical<F: FileSystem>(
    m: F::Model,
    path: Seq<u8>,
    at: int,
    target: Target,
)
    requires
        canonical(target.components),
    ensures
        walk::<F>(m, path, at, target).result matches Ok(next) ==> canonical(next.components),
    decreases path.len() + 1 - at,
{
    let end = component_end(path, at);
    if at <= end <= path.len() {
        let component = path.subrange(at, end);
        lemma_follow_canonical::<F>(m, path, end, component, target);
        let followed = follow::<F>(m, path, end, component, target);
        if let Ok(next) = followed.result {
            lemma_walk_canonical::<F>(followed.model, path, end + 1, next);
        }
    }
}

/// The working directory at the start is canonical, and so is each that one is changed to from
/// there on: its path has at most as many bytes as a path may have.
pub proof fn law_working_directories_are_canonical<F: FileSystem>(
    m: F::Model,
    cwd: Seq<Seq<u8>>,
    path: Seq<u8>,
)
    requires
        canonical(cwd),
    ensures
        canonical(Seq::empty()),
        change_dir_step::<F>(m, cwd, path).result matches Ok(changed) ==> canonical(changed)
            && rendered(changed).len() <= MAX_PATH_BYTES,
{
    assert(canonical(Seq::empty()));
    let start = origin::<F>(m, cwd, path);
    if let Ok(target) = start.result {
        lemma_walk_canonical::<F>(start.model, path, 0, target);
    }
}

proof fn lemma_follow_holds<F: FileSystem>(
    keeps: spec_fn(F::Model) -> bool,
    tree: Tree,
    m: F::Model,
    path: Seq<u8>,
    rest: int,
    component: Seq<u8>,
    target: Target,
)
    requires
        steady::<F>(keeps, tree),
        keeps(m),
        holds::<F>(tree, target),
    ensures
        follow::<F>(m, path, rest, component, target).result matches Ok(next) ==> holds::<F>(
            tree,
            next,
        ),
        keeps(follow::<F>(m, path, rest, component, target).model),
{
    lemma_require_dir::<F>(keeps, tree, m, target.node);
    let entered = require_dir::<F>(m, target.node);
    if component == seq![DOT, DOT] {
        if target.components.len() > 0 {
            lemma_descend::<F>(
                keeps,
                tree,
                entered.model,
                target.components.drop_last(),
                0,
                F::root_node(),
            );
        }
    } else {
        lemma_leads_further(tree, target.components, component, 0, F::root_node());
        let found = F::lookup_step(entered.model, target.node, component);
        assert(keeps(found.model));
    }
}

proof fn lemma_walk_holds<F: FileSystem>(
    keeps: spec_fn(F::Model) -> bool,
    tree: Tree,
    m: F::Model,
    path: Seq<u8>,
    at: int,
    target: Target,
)
    requires
        steady::<F>(keeps, tree),
        keeps(m),
        holds::<F>(tree, target),
    ensures
        walk::<F>(m, path, at, target).result matches Ok(next) ==> holds::<F>(tree, next),
        keeps(walk::<F>(m, path, at, target).model),
    decreases path.len() + 1 - at,
{
    let end = component_end(path, at);
    if at <= end <= path.len() {
        let component = path.subrange(at, end);
        lemma_follow_holds::<F>(keeps, tree, m, path, end, component, target);
        let followed = follow::<F>(m, path, end, component, target);
        if let Ok(next) = followed.result {
            lemma_walk_holds::<F>(keeps, tree, followed.model, path, end + 1, next);
        }
    }
}

proof fn lemma_changed_holds<F: FileSystem>(
    keeps: spec_fn(F::Model) -> bool,
    tree: Tree,
    m: F::Model,
    cwd: Seq<Seq<u8>>,
    path: Seq<u8>,
)
    requires
        steady::<F>(keeps, tree),
        keeps(m),
    ensures
        change_dir_step::<F>(m, cwd, path).result matches Ok(changed) ==> (leads(
            tree,
            changed,
            0,
            F::root_node(),
        ) matches Ok(node) && checked(tree, node) is Ok),
{
    lemma_descend::<F>(keeps, tree, m, cwd, 0, F::root_node());
    let start = origin::<F>(m, cwd, path);
    if let Ok(target) = start.result {
        lemma_walk_holds::<F>(keeps, tree, start.model, path, 0, target);
        let walked = walk::<F>(start.model, path, 0, target);
        if let Ok(target) = walked.result {
            lemma_require_dir::<F>(keeps, tree, walked.model, target.node);
            let once = require_dir::<F>(walked.model, target.node);
            lemma_require_dir::<F>(keeps, tree, once.model, target.node);
        }
    }
}

/// A component ends at the next slash or at the end of the path.
proof fn lemma_component_end(path: Seq<u8>, at: int, end: int)
    requires
        0 <= at <= end <= path.len(),
        forall|i: int| at <= i < end ==> #[trigger] path[i] != SLASH,
        end == path.len() || path[end] == SLASH,
    ensures
        component_end(path, at) == end,
    decreases end - at,
{
    if at < end {
        lemma_component_end(path, at + 1, end);
    }
}

/// Where a name stands in a path.
proof fn lemma_name_in_path(cwd: Seq<Seq<u8>>, k: int)
    requires
        0 <= k < cwd.len(),
    ensures
        ({
            let at = joined(cwd.take(k)).len() as int;
            let end = joined(cwd.take(k + 1)).len() as int;
            &&& end == at + 1 + cwd[k].len()
            &&& end <= joined(cwd).len()
            &&& joined(cwd)[at] == SLASH
            &&& joined(cwd).subrange(at + 1, end) == cwd[k]
            &&& k + 1 == cwd.len() ==> end == joined(cwd).len()
            &&& k + 1 < cwd.len() ==> end < joined(cwd).len() && joined(cwd)[end] == SLASH
        }),
    decreases cwd.len(),
{
    let front = cwd.drop_last();
    let whole = joined(cwd);
    assert(cwd.take(k + 1).drop_last() =~= cwd.take(k));
    if k + 1 < cwd.len() {
        lemma_name_in_path(front, k);
        assert(front.take(k) =~= cwd.take(k));
        assert(front.take(k + 1) =~= cwd.take(k + 1));
        let at = joined(cwd.take(k)).len() as int;
        let end = joined(cwd.take(k + 1)).len() as int;
        assert(whole.subrange(at + 1, end) =~= joined(front).subrange(at + 1, end));
        if k + 1 == front.len() {
            assert(whole[end] == SLASH);
        }
    } else {
        assert(cwd.take(k) =~= front);
        assert(cwd.take(k + 1) =~= cwd);
        let at = joined(front).len() as int;
        assert(whole.subrange(at + 1, whole.len() as int) =~= cwd[k]);
    }
}

proof fn lemma_joined_ascii(cwd: Seq<Seq<u8>>)
    requires
        forall|i: int| 0 <= i < cwd.len() ==> name_check(#[trigger] cwd[i]) is Ok,
    ensures
        ascii(joined(cwd)),
    decreases cwd.len(),
{
    if cwd.len() > 0 {
        let front = cwd.drop_last();
        assert forall|i: int| 0 <= i < front.len() implies name_check(#[trigger] front[i]) is Ok by {
            assert(front[i] == cwd[i]);
        }
        lemma_joined_ascii(front);
        let last = cwd[cwd.len() - 1];
        assert(name_check(last) is Ok);
        let n = joined(front).len() as int;
        assert forall|i: int| 0 <= i < joined(cwd).len() implies #[trigger] joined(cwd)[i] < 0x80 by {
            if i < n {
                assert(joined(cwd)[i] == joined(front)[i]);
            } else if i > n {
                assert(joined(cwd)[i] == last[i - n - 1]);
                assert(name_byte(last[i - n - 1]));
            }
        }
    }
}

/// Names that lead somewhere do so from any of the nodes on the way.
proof fn lemma_leads_part(tree: Tree, cwd: Seq<Seq<u8>>, k: int, root: NodeId)
    requires
        0 <= k <= cwd.len(),
        leads(tree, cwd, 0, root) is Ok,
    ensures
        leads(tree, cwd.take(k), 0, root) is Ok,
        k < cwd.len() ==> {
            let node = leads(tree, cwd.take(k), 0, root)->Ok_0;
            &&& checked(tree, node) is Ok
            &&& leads(tree, cwd.take(k + 1), 0, root) is Ok
            &&& (tree.lookup)(node, cwd[k]) == Ok::<_, FsError>(
                leads(tree, cwd.take(k + 1), 0, root)->Ok_0,
            )
        },
    decreases cwd.len() - k,
{
    if k < cwd.len() {
        lemma_leads_part(tree, cwd, k + 1, root);
        lemma_leads_further(tree, cwd.take(k), cwd[k], 0, root);
        assert(cwd.take(k).push(cwd[k]) =~= cwd.take(k + 1));
    } else {
        assert(cwd.take(k) =~= cwd);
    }
}

/// Following the path of a directory from its name `k` on leads to it.
proof fn lemma_walk_back<F: FileSystem>(
    keeps: spec_fn(F::Model) -> bool,
    tree: Tree,
    m: F::Model,
    cwd: Seq<Seq<u8>>,
    k: int,
    target: Target,
)
    requires
        steady::<F>(keeps, tree),
        keeps(m),
        canonical(cwd),
        0 <= k <= cwd.len(),
        cwd.len() > 0,
        leads(tree, cwd, 0, F::root_node()) is Ok,
        target.components == cwd.take(k),
        holds::<F>(tree, target),
    ensures
        ({
            let walked = walk::<F>(m, joined(cwd), joined(cwd.take(k)).len() + 1int, target);
            &&& keeps(walked.model)
            &&& walked.result matches Ok(reached) && reached.components == cwd && holds::<F>(
                tree,
                reached,
            )
        }),
    decreases cwd.len() - k,
{
    let path = joined(cwd);
    let at = joined(cwd.take(k)).len() + 1int;
    if k < cwd.len() {
        let end = joined(cwd.take(k + 1)).len() as int;
        let name = cwd[k];
        lemma_name_in_path(cwd, k);
        assert(name_check(name) is Ok && is_name(name));
        lemma_no_slash(name);
        assert forall|i: int| at <= i < end implies #[trigger] path[i] != SLASH by {
            assert(path.subrange(at, end)[i - at] == name[i - at]);
        }
        lemma_component_end(path, at, end);
        lemma_leads_part(tree, cwd, k, F::root_node());
        lemma_require_dir::<F>(keeps, tree, m, target.node);
        let entered = require_dir::<F>(m, target.node);
        let found = F::lookup_step(entered.model, target.node, name);
        assert(found.result == (tree.lookup)(target.node, name));
        assert(cwd.take(k).push(name) =~= cwd.take(k + 1));
        lemma_shorter(cwd, k + 1);
        let next = Target { node: found.result->Ok_0, components: cwd.take(k + 1) };
        let followed = follow::<F>(m, path, end, name, target);
        assert(followed.result == Ok::<_, VfsError>(next));
        lemma_walk_back::<F>(keeps, tree, followed.model, cwd, k + 1, next);
    } else {
        assert(cwd.take(k) =~= cwd);
        assert(component_end(path, at) == at);
    }
}

/// In a file system that does not change, a working directory's own path leads back to it, from
/// whichever directory.
proof fn lemma_path_leads_back<F: FileSystem>(
    keeps: spec_fn(F::Model) -> bool,
    tree: Tree,
    m: F::Model,
    cwd: Seq<Seq<u8>>,
    other: Seq<Seq<u8>>,
)
    requires
        steady::<F>(keeps, tree),
        keeps(m),
        canonical(cwd),
        leads(tree, cwd, 0, F::root_node()) matches Ok(node) && checked(tree, node) is Ok,
    ensures
        change_dir_step::<F>(m, other, rendered(cwd)).result == Ok::<_, VfsError>(cwd),
        keeps(change_dir_step::<F>(m, other, rendered(cwd)).model),
{
    let path = rendered(cwd);
    let root = Target { node: F::root_node(), components: Seq::empty() };
    let node = leads(tree, cwd, 0, F::root_node())->Ok_0;
    lemma_joined_ascii(cwd);
    if cwd.len() == 0 {
        lemma_component_end(path, 0, 0);
        lemma_component_end(path, 1, 1);
        assert(component_end(path, 2) == 2);
        reveal_with_fuel(walk, 4);
        assert(walk::<F>(m, path, 0, root).result == Ok::<_, VfsError>(root));
        assert(root.components =~= cwd);
    } else {
        lemma_name_in_path(cwd, 0);
        lemma_name_in_path(cwd, cwd.len() - 1);
        assert(cwd.take(0) =~= Seq::empty());
        lemma_component_end(path, 0, 0);
        assert(follow::<F>(m, path, 0, path.subrange(0, 0), root).result == Ok::<_, VfsError>(root));
        assert(walk::<F>(m, path, 0, root) == walk::<F>(m, path, 1, root));
        lemma_walk_back::<F>(keeps, tree, m, cwd, 0, root);
        let last = cwd[cwd.len() - 1];
        assert(name_check(last) is Ok);
        lemma_no_slash(last);
        assert(path.last() == last.last()) by {
            assert(path.subrange(path.len() - last.len(), path.len() as int) == last);
            assert(last[last.len() - 1] == path[path.len() - 1]);
        }
    }
    let walked = walk::<F>(m, path, 0, root);
    lemma_require_dir::<F>(keeps, tree, walked.model, node);
    let once = require_dir::<F>(walked.model, node);
    lemma_require_dir::<F>(keeps, tree, once.model, node);
}

/// In a file system that does not change, changing to the path of a directory that one changed to
/// gives the same directory, whichever directory one is in.
pub proof fn law_a_path_leads_back<F: FileSystem>(
    keeps: spec_fn(F::Model) -> bool,
    tree: Tree,
    m: F::Model,
    cwd: Seq<Seq<u8>>,
    path: Seq<u8>,
    later: F::Model,
    other: Seq<Seq<u8>>,
)
    requires
        steady::<F>(keeps, tree),
        keeps(m),
        keeps(later),
        canonical(cwd),
        change_dir_step::<F>(m, cwd, path).result is Ok,
    ensures
        ({
            let changed = change_dir_step::<F>(m, cwd, path).result->Ok_0;
            let back = change_dir_step::<F>(later, other, rendered(changed));
            back.result == Ok::<_, VfsError>(changed) && keeps(back.model)
        }),
{
    law_working_directories_are_canonical::<F>(m, cwd, path);
    lemma_changed_holds::<F>(keeps, tree, m, cwd, path);
    let changed = change_dir_step::<F>(m, cwd, path).result->Ok_0;
    lemma_path_leads_back::<F>(keeps, tree, later, changed, other);
}

/// Where the root is a directory, its path leads to it.
pub proof fn law_the_root_path_leads_to_the_root<F: FileSystem>(
    keeps: spec_fn(F::Model) -> bool,
    tree: Tree,
    m: F::Model,
    other: Seq<Seq<u8>>,
)
    requires
        steady::<F>(keeps, tree),
        keeps(m),
        (tree.metadata)(F::root_node()) matches Ok(metadata) && metadata.kind
            == NodeKind::Directory,
    ensures
        change_dir_step::<F>(m, other, rendered(Seq::empty())).result == Ok::<_, VfsError>(
            Seq::<Seq<u8>>::empty(),
        ),
{
    lemma_path_leads_back::<F>(keeps, tree, m, Seq::empty(), other);
}

} // verus!
