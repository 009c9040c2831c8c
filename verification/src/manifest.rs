//! Manifest tree builder: turns a flat listing of files and directories
//! into a single root hash.
//!
//! Directory nodes are created for every directory path, children are
//! attached to their parents in listing order (a placeholder parent is
//! created when a path's parent was never listed itself), file children
//! carry the object hash of their content, and a directory's hash is the
//! digest of its children's `"<hash> <name>"` lines, resolved bottom-up.
//! The manifest root hash is the hash of the top node. Resolution is
//! keyed by each node's full path, so two directories that share a bare
//! name never exchange hashes; with unique directory names this yields
//! the same hashes as a lookup by bare name would.

use vstd::prelude::*;

verus! {

use crate::error::VelesError;
use crate::objects::{object_id, sha256, store_after_put, to_hex, ObjectStore};
use vstd::string::StrSliceExecFns;
use vstd::string::StringExecFns;
use vstd::utf8::encode_utf8;

/// One listed path: its components, whether it is a directory, and the
/// file content when it is a file.
pub struct ManifestEntry {
    pub path: Vec<String>,
    pub is_dir: bool,
    pub content: Vec<u8>,
}

/// The character sequences of a path's components.
pub open spec fn pathv(s: Seq<String>) -> Seq<Seq<char>> {
    Seq::new(s.len(), |i: int| s[i]@)
}

/// A child entry of a tree node: its name, and its hash when it is a
/// file (a directory child is resolved later).
#[verifier::ext_equal]
pub struct ChildV {
    pub name: Seq<char>,
    pub hash: Option<Seq<char>>,
}

/// A tree node: the path that names it and its attached children.
#[verifier::ext_equal]
pub struct NodeV {
    pub path: Seq<Seq<char>>,
    pub children: Seq<ChildV>,
}

/// A child entry of the executable tree.
pub struct Child {
    pub name: String,
    pub hash: Option<String>,
}

/// A node of the executable tree.
pub struct Node {
    pub path: Vec<String>,
    pub children: Vec<Child>,
}

/// The spec view of an executable child list.
pub open spec fn children_view(s: Seq<Child>) -> Seq<ChildV> {
    Seq::new(
        s.len(),
        |i: int|
            ChildV {
                name: s[i].name@,
                hash: match s[i].hash {
                    Option::Some(h) => Some(h@),
                    Option::None => None,
                },
            },
    )
}

/// The spec view of an executable node list.
pub open spec fn nodes_view(s: Seq<Node>) -> Seq<NodeV> {
    Seq::new(s.len(), |i: int| NodeV { path: pathv(s[i].path@), children: children_view(s[i].children@) })
}

/// The first node named by `path`, or `-1`.
pub open spec fn find_node(nodes: Seq<NodeV>, path: Seq<Seq<char>>) -> int
    decreases nodes.len(),
{
    if nodes.len() == 0 {
        -1
    } else if nodes.first().path == path {
        0
    } else {
        let r = find_node(nodes.drop_first(), path);
        if r < 0 {
            -1
        } else {
            r + 1
        }
    }
}

/// What `find_node` returns: the first node of that path, or `-1`.
pub proof fn lemma_find_node_spec(nodes: Seq<NodeV>, path: Seq<Seq<char>>)
    ensures
        find_node(nodes, path) < 0 ==> forall|j: int| 0 <= j < nodes.len() ==> nodes[j].path != path,
        find_node(nodes, path) >= 0 ==> 0 <= find_node(nodes, path) < nodes.len() && nodes[find_node(
            nodes,
            path,
        )].path == path,
    decreases nodes.len(),
{
    if nodes.len() > 0 && nodes.first().path != path {
        lemma_find_node_spec(nodes.drop_first(), path);
        if find_node(nodes.drop_first(), path) < 0 {
            assert forall|j: int| 0 <= j < nodes.len() implies nodes[j].path != path by {
                if j > 0 {
                    assert(nodes.drop_first()[j - 1].path != path);
                }
            }
        }
    }
}

/// A node at `i` with no earlier node of the same path is the one
/// `find_node` names.
pub proof fn lemma_find_node_first(nodes: Seq<NodeV>, path: Seq<Seq<char>>, i: int)
    requires
        0 <= i < nodes.len(),
        nodes[i].path == path,
        forall|j: int| 0 <= j < i ==> nodes[j].path != path,
    ensures
        find_node(nodes, path) == i,
    decreases nodes.len(),
{
    if i > 0 {
        assert forall|j: int| 0 <= j < i - 1 implies nodes.drop_first()[j].path != path by {
            assert(nodes[j + 1].path != path);
        }
        assert(nodes.drop_first()[i - 1].path == path);
        lemma_find_node_first(nodes.drop_first(), path, i - 1);
    }
}

/// The longest path any node carries.
pub open spec fn max_depth(nodes: Seq<NodeV>) -> int
    decreases nodes.len(),
{
    if nodes.len() == 0 {
        0
    } else {
        let rest = max_depth(nodes.drop_last());
        if nodes.last().path.len() as int > rest {
            nodes.last().path.len() as int
        } else {
            rest
        }
    }
}

/// No node's path is longer than `max_depth`, and the depth is never
/// negative.
pub proof fn lemma_max_depth(nodes: Seq<NodeV>)
    ensures
        max_depth(nodes) >= 0,
        forall|i: int| 0 <= i < nodes.len() ==> (#[trigger] nodes[i].path).len() <= max_depth(
            nodes,
        ),
    decreases nodes.len(),
{
    if nodes.len() > 0 {
        lemma_max_depth(nodes.drop_last());
        assert forall|i: int| 0 <= i < nodes.len() implies (#[trigger] nodes[i].path).len()
            <= max_depth(nodes) by {
            if i < nodes.len() - 1 {
                assert(nodes.drop_last()[i] == nodes[i]);
            }
        }
    }
}

/// The resolved hash of the node named by `path`: the 40-character hash
/// of its children's text, or empty when no node carries that path.
pub open spec fn node_hash(nodes: Seq<NodeV>, path: Seq<Seq<char>>) -> Seq<char>
    decreases max_depth(nodes) + 1 - path.len(), 1int, 0int,
{
    if path.len() > max_depth(nodes) {
        Seq::empty()
    } else {
        let i = find_node(nodes, path);
        if i < 0 {
            Seq::empty()
        } else {
            object_id(encode_utf8(children_text(nodes, path, nodes[i].children)))
        }
    }
}

/// The concatenated `"<hash> <name>"` lines of a node's children, in
/// attachment order.
pub open spec fn children_text(nodes: Seq<NodeV>, path: Seq<Seq<char>>, children: Seq<ChildV>) -> Seq<
    char,
>
    decreases max_depth(nodes) + 1 - path.len(), 0int, children.len(),
{
    if children.len() == 0 {
        Seq::empty()
    } else {
        children_text(nodes, path, children.drop_last()) + child_line(nodes, path, children.last())
    }
}

/// One child's line: its hash (a file's own, or the resolved hash of
/// the subdirectory), a space, its name, a newline.
pub open spec fn child_line(nodes: Seq<NodeV>, path: Seq<Seq<char>>, c: ChildV) -> Seq<char>
    decreases max_depth(nodes) + 1 - path.len(), 0int, 0int,
{
    (match c.hash {
        Option::Some(h) => h,
        Option::None => if path.len() + 1 > max_depth(nodes) {
            Seq::empty()
        } else {
            node_hash(nodes, path.push(c.name))
        },
    }) + seq![' '] + c.name + seq!['\n']
}

/// The node list before any entry is processed: only the root node.
pub open spec fn root_nodes() -> Seq<NodeV> {
    seq![NodeV { path: Seq::empty(), children: Seq::empty() }]
}

/// The child entry an entry attaches to its parent.
pub open spec fn entry_child(e: ManifestEntry) -> ChildV {
    ChildV {
        name: pathv(e.path@).last(),
        hash: if e.is_dir {
            None
        } else {
            Some(object_id(e.content@))
        },
    }
}

/// First pass: a node for every directory path, in listing order.
pub open spec fn add_dir_nodes(nodes: Seq<NodeV>, entries: Seq<ManifestEntry>) -> Seq<NodeV>
    decreases entries.len(),
{
    if entries.len() == 0 {
        nodes
    } else {
        let prev = add_dir_nodes(nodes, entries.drop_last());
        let e = entries.last();
        if e.is_dir && find_node(prev, pathv(e.path@)) < 0 {
            prev.push(NodeV { path: pathv(e.path@), children: Seq::empty() })
        } else {
            prev
        }
    }
}

/// Second pass: every entry attached as a child of its parent, with a
/// placeholder parent node created when the parent was never listed.
pub open spec fn attach_children(nodes: Seq<NodeV>, entries: Seq<ManifestEntry>) -> Seq<NodeV>
    decreases entries.len(),
{
    if entries.len() == 0 {
        nodes
    } else {
        let prev = attach_children(nodes, entries.drop_last());
        let e = entries.last();
        if pathv(e.path@).len() == 0 {
            prev
        } else {
            let parent = pathv(e.path@).drop_last();
            let pi = find_node(prev, parent);
            if pi < 0 {
                prev.push(NodeV { path: parent, children: seq![entry_child(e)] })
            } else {
                prev.update(
                    pi,
                    NodeV { path: parent, children: prev[pi].children.push(entry_child(e)) },
                )
            }
        }
    }
}

/// The finished tree the listing builds.
pub open spec fn build_nodes(entries: Seq<ManifestEntry>) -> Seq<NodeV> {
    attach_children(add_dir_nodes(root_nodes(), entries), entries)
}

/// The manifest root hash of a listing: the resolved hash of the top
/// node of the tree it builds.
pub open spec fn manifest_root(entries: Seq<ManifestEntry>) -> Seq<char> {
    node_hash(build_nodes(entries), Seq::empty())
}

/// The object store after every file of the listing is stored.
pub open spec fn objects_after(
    v: Map<Seq<char>, Seq<u8>>,
    entries: Seq<ManifestEntry>,
) -> Map<Seq<char>, Seq<u8>>
    decreases entries.len(),
{
    if entries.len() == 0 {
        v
    } else {
        let prev = objects_after(v, entries.drop_last());
        if entries.last().is_dir || pathv(entries.last().path@).len() == 0 {
            prev
        } else {
            store_after_put(prev, entries.last().content@)
        }
    }
}

/// Manifest determinism: the root hash is a function of the listing
/// alone, so the same listing in the same order always yields the same
/// root hash.
pub proof fn lemma_manifest_deterministic(e1: Seq<ManifestEntry>, e2: Seq<ManifestEntry>)
    requires
        e1 == e2,
    ensures
        manifest_root(e1) == manifest_root(e2),
{
}

/// Compares two paths component by component.
fn path_eq(a: &Vec<String>, b: &Vec<String>) -> (r: bool)
    ensures
        r == (pathv(a@) == pathv(b@)),
{
    if a.len() != b.len() {
        proof {
            assert(pathv(a@).len() != pathv(b@).len());
        }
        return false;
    }
    let n: usize = a.len();
    let mut i: usize = 0;
    while i < n
        invariant
            n == a@.len() && n == b@.len(),
            i <= n,
            forall|j: int| 0 <= j < i ==> pathv(a@)[j] == pathv(b@)[j],
        decreases n - i,
    {
        if !a[i].eq(&b[i]) {
            proof {
                assert(pathv(a@)[i as int] != pathv(b@)[i as int]);
            }
            return false;
        }
        i = i + 1;
    }
    proof {
        assert(pathv(a@) =~= pathv(b@));
    }
    true
}

/// Looks a path up among the nodes; the first node wins.
fn find_node_exec(nodes: &Vec<Node>, path: &Vec<String>) -> (r: Option<usize>)
    ensures
        r matches Some(i) ==> find_node(nodes_view(nodes@), pathv(path@)) == i as int && i
            < nodes@.len(),
        r is None ==> find_node(nodes_view(nodes@), pathv(path@)) < 0,
{
    let n: usize = nodes.len();
    let mut i: usize = 0;
    while i < n
        invariant
            n == nodes@.len(),
            i <= n,
            forall|j: int| 0 <= j < i ==> nodes_view(nodes@)[j].path != pathv(path@),
        decreases n - i,
    {
        if path_eq(&nodes[i].path, path) {
            proof {
                assert(nodes_view(nodes@)[i as int].path == pathv(path@));
                lemma_find_node_first(nodes_view(nodes@), pathv(path@), i as int);
            }
            return Some(i);
        }
        i = i + 1;
    }
    proof {
        lemma_find_node_spec(nodes_view(nodes@), pathv(path@));
        if find_node(nodes_view(nodes@), pathv(path@)) >= 0 {
            assert(nodes_view(nodes@)[find_node(nodes_view(nodes@), pathv(path@))].path == pathv(
                path@,
            ));
        }
    }
    None
}

/// The path without its last component.
fn parent_of(path: &Vec<String>) -> (r: Vec<String>)
    requires
        path@.len() >= 1,
    ensures
        pathv(r@) == pathv(path@).drop_last(),
{
    let n: usize = path.len() - 1;
    let mut out: Vec<String> = Vec::new();
    let mut i: usize = 0;
    while i < n
        invariant
            n == path@.len() - 1,
            i <= n,
            out@.len() == i,
            forall|j: int| 0 <= j < i ==> out@[j]@ == path@[j]@,
        decreases n - i,
    {
        out.push(path[i].clone());
        i = i + 1;
    }
    proof {
        assert(pathv(out@) =~= pathv(path@).drop_last());
    }
    out
}

/// The longest path among the nodes.
fn max_depth_exec(nodes: &Vec<Node>) -> (r: usize)
    ensures
        r as int == max_depth(nodes_view(nodes@)),
{
    let n: usize = nodes.len();
    let mut best: usize = 0;
    let mut i: usize = 0;
    proof {
        assert(nodes_view(nodes@).take(0) =~= Seq::<NodeV>::empty());
    }
    while i < n
        invariant
            n == nodes@.len(),
            i <= n,
            best as int == max_depth(nodes_view(nodes@).take(i as int)),
        decreases n - i,
    {
        let d: usize = nodes[i].path.len();
        proof {
            let nv = nodes_view(nodes@);
            assert(nv.take(i + 1).drop_last() =~= nv.take(i as int));
            assert(nv.take(i + 1).last() == nv[i as int]);
            assert(nv[i as int].path.len() == d);
        }
        if d > best {
            best = d;
        }
        i = i + 1;
    }
    proof {
        assert(nodes_view(nodes@).take(n as int) =~= nodes_view(nodes@));
    }
    best
}

/// Resolves the hash of the node named by `path`, bottom-up: a file
/// child contributes its own hash, a directory child the resolved hash
/// of its node, and the node's hash is the 40-character digest of the
/// concatenated child lines.
fn resolve_node(nodes: &Vec<Node>, path: &Vec<String>, max_d: usize) -> (r: String)
    requires
        max_d as int == max_depth(nodes_view(nodes@)),
    ensures
        r@ == node_hash(nodes_view(nodes@), pathv(path@)),
    decreases max_d + 1 - path@.len(),
{
    let ghost nv = nodes_view(nodes@);
    let ghost pv = pathv(path@);
    if path.len() > max_d {
        return String::new();
    }
    let i: usize = match find_node_exec(nodes, path) {
        Option::Some(i) => i,
        Option::None => {
            return String::new();
        },
    };
    let node = &nodes[i];
    let m: usize = node.children.len();
    let mut content = String::new();
    proof {
        reveal_strlit(" ");
        reveal_strlit("\n");
        assert(nv[i as int].children.take(0) =~= Seq::<ChildV>::empty());
    }
    let mut j: usize = 0;
    while j < m
        invariant
            nv == nodes_view(nodes@),
            pv == pathv(path@),
            max_d as int == max_depth(nv),
            pv.len() <= max_d,
            0 <= i < nodes@.len(),
            find_node(nv, pv) == i as int,
            m == nv[i as int].children.len(),
            j <= m,
            content@ == children_text(nv, pv, nv[i as int].children.take(j as int)),
            " "@ == seq![' '],
            "\n"@ == seq!['\n'],
        decreases m - j,
    {
        let child = &nodes[i].children[j];
        let child_hash: String = match &child.hash {
            Option::Some(h) => h.clone(),
            Option::None => {
                let mut child_path: Vec<String> = Vec::new();
                let pl: usize = path.len();
                let mut k: usize = 0;
                while k < pl
                    invariant
                        pl == path@.len(),
                        k <= pl,
                        child_path@.len() == k,
                        forall|t: int| 0 <= t < k ==> child_path@[t]@ == path@[t]@,
                    decreases pl - k,
                {
                    child_path.push(path[k].clone());
                    k = k + 1;
                }
                child_path.push(child.name.clone());
                proof {
                    assert(pathv(child_path@) =~= pv.push(nv[i as int].children[j as int].name));
                    lemma_max_depth(nv);
                }
                resolve_node(nodes, &child_path, max_d)
            },
        };
        content.append(child_hash.as_str());
        content.append(" ");
        content.append(child.name.as_str());
        content.append("\n");
        proof {
            let cs = nv[i as int].children;
            assert(cs.take(j + 1).drop_last() =~= cs.take(j as int));
            assert(cs.take(j + 1).last() == cs[j as int]);
            assert(child_hash@ == match cs[j as int].hash {
                Option::Some(h) => h,
                Option::None => node_hash(nv, pv.push(cs[j as int].name)),
            });
            if cs[j as int].hash is None && pv.len() + 1 > max_depth(nv) {
                assert(node_hash(nv, pv.push(cs[j as int].name)) == Seq::<char>::empty());
            }
            assert(child_line(nv, pv, cs[j as int]) =~= child_hash@ + seq![' '] + cs[j as int].name
                + seq!['\n']);
            assert(children_text(nv, pv, cs.take(j + 1)) =~= children_text(
                nv,
                pv,
                cs.take(j as int),
            ) + child_line(nv, pv, cs[j as int]));
            assert(content@ =~= children_text(nv, pv, cs.take(j + 1)));
        }
        j = j + 1;
    }
    proof {
        assert(nv[i as int].children.take(m as int) =~= nv[i as int].children);
    }
    let digest: Vec<u8> = sha256(content.as_str().as_bytes());
    let hex_text: String = to_hex(digest.as_slice());
    proof {
        assert(hex_text@.len() == 64);
    }
    let result: String = hex_text.as_str().substring_char(0, 40).to_owned();
    proof {
        assert(result@ =~= object_id(encode_utf8(content@)));
    }
    result
}

/// Builds the manifest of a listing: stores every file's content in the
/// object store, builds the tree, resolves every directory hash bottom
/// up, and returns the root hash.
pub fn manifest(entries: &Vec<ManifestEntry>, store: &mut ObjectStore) -> (r: Result<
    String,
    VelesError,
>)
    requires
        old(store).wf(),
    ensures
        r is Ok,
        final(store).wf(),
        final(store)@ == objects_after(old(store)@, entries@),
        r matches Ok(root) ==> root@ == manifest_root(entries@),
{
    let mut nodes: Vec<Node> = Vec::new();
    nodes.push(Node { path: Vec::new(), children: Vec::new() });
    proof {
        assert(nodes_view(nodes@) =~~= root_nodes());
        assert(pathv(Seq::<String>::empty()) =~= Seq::<Seq<char>>::empty());
        assert(children_view(Seq::<Child>::empty()) =~= Seq::<ChildV>::empty());
        assert(nodes_view(nodes@)[0].path =~= root_nodes()[0].path);
        assert(nodes_view(nodes@)[0].children =~= root_nodes()[0].children);
    }
    let n: usize = entries.len();
    // First pass: a node for every directory path.
    let mut i: usize = 0;
    proof {
        assert(entries@.take(0) =~= Seq::<ManifestEntry>::empty());
    }
    while i < n
        invariant
            n == entries@.len(),
            i <= n,
            nodes_view(nodes@) == add_dir_nodes(root_nodes(), entries@.take(i as int)),
        decreases n - i,
    {
        let ghost before = nodes_view(nodes@);
        proof {
            assert(entries@.take(i + 1).drop_last() =~= entries@.take(i as int));
            assert(entries@.take(i + 1).last() == entries@[i as int]);
        }
        if entries[i].is_dir {
            match find_node_exec(&nodes, &entries[i].path) {
                Option::Some(_) => (),
                Option::None => {
                    let mut path_copy: Vec<String> = Vec::new();
                    let pl: usize = entries[i].path.len();
                    let mut k: usize = 0;
                    while k < pl
                        invariant
                            0 <= i < entries@.len(),
                            pl == entries@[i as int].path@.len(),
                            k <= pl,
                            path_copy@.len() == k,
                            forall|t: int|
                                0 <= t < k ==> path_copy@[t]@ == entries@[i as int].path@[t]@,
                        decreases pl - k,
                    {
                        path_copy.push(entries[i].path[k].clone());
                        k = k + 1;
                    }
                    proof {
                        assert(pathv(path_copy@) =~= pathv(entries@[i as int].path@));
                    }
                    nodes.push(Node { path: path_copy, children: Vec::new() });
                    proof {
                        assert(nodes_view(nodes@) =~~= before.push(
                            NodeV {
                                path: pathv(entries@[i as int].path@),
                                children: Seq::empty(),
                            },
                        ));
                        assert(children_view(Seq::<Child>::empty()) =~= Seq::<ChildV>::empty());
                        assert(nodes_view(nodes@)[before.len() as int].children =~= Seq::<
                            ChildV,
                        >::empty());
                        assert(nodes_view(nodes@) =~~= add_dir_nodes(
                            root_nodes(),
                            entries@.take(i + 1),
                        ));
                    }
                },
            }
        }
        i = i + 1;
    }
    proof {
        assert(entries@.take(n as int) =~= entries@);
    }
    let ghost base_nodes = nodes_view(nodes@);
    // Second pass: attach each entry to its parent.
    let mut i2: usize = 0;
    proof {
        assert(entries@.take(0) =~= Seq::<ManifestEntry>::empty());
    }
    while i2 < n
        invariant
            n == entries@.len(),
            i2 <= n,
            base_nodes == add_dir_nodes(root_nodes(), entries@),
            nodes_view(nodes@) == attach_children(base_nodes, entries@.take(i2 as int)),
            store.wf(),
            store@ == objects_after(old(store)@, entries@.take(i2 as int)),
        decreases n - i2,
    {
        let ghost before = nodes_view(nodes@);
        proof {
            assert(entries@.take(i2 + 1).drop_last() =~= entries@.take(i2 as int));
            assert(entries@.take(i2 + 1).last() == entries@[i2 as int]);
        }
        if entries[i2].path.len() == 0 {
            i2 = i2 + 1;
            continue ;
        }
        let name: String = {
            let p = &entries[i2].path;
            p[p.len() - 1].clone()
        };
        let child_hash: Option<String> = if entries[i2].is_dir {
            None
        } else {
            Some(store.put_object(entries[i2].content.as_slice()))
        };
        let child = Child { name, hash: child_hash };
        proof {
            assert(children_view(seq![child])[0] == entry_child(entries@[i2 as int]));
        }
        let parent: Vec<String> = parent_of(&entries[i2].path);
        match find_node_exec(&nodes, &parent) {
            Option::Some(pi) => {
                nodes[pi].children.push(child);
                proof {
                    let e = entries@[i2 as int];
                    let parent_v = pathv(e.path@).drop_last();
                    lemma_find_node_spec(before, parent_v);
                    assert(before[pi as int].path == parent_v);
                    assert(children_view(nodes@[pi as int].children@) =~~= before[pi as int]
                        .children.push(entry_child(e)));
                    assert(nodes_view(nodes@) =~~= before.update(
                        pi as int,
                        NodeV {
                            path: parent_v,
                            children: before[pi as int].children.push(entry_child(e)),
                        },
                    ));
                }
            },
            Option::None => {
                let mut children: Vec<Child> = Vec::new();
                children.push(child);
                nodes.push(Node { path: parent, children });
                proof {
                    let e = entries@[i2 as int];
                    let parent_v = pathv(e.path@).drop_last();
                    assert(nodes_view(nodes@) =~~= before.push(
                        NodeV { path: parent_v, children: seq![entry_child(e)] },
                    ));
                }
            },
        }
        proof {
            assert(nodes_view(nodes@) =~~= attach_children(base_nodes, entries@.take(i2 + 1)));
        }
        i2 = i2 + 1;
    }
    proof {
        assert(entries@.take(n as int) =~= entries@);
    }
    // Resolve every directory hash bottom-up from the root.
    let max_d: usize = max_depth_exec(&nodes);
    let root_path: Vec<String> = Vec::new();
    let root = resolve_node(&nodes, &root_path, max_d);
    proof {
        assert(pathv(root_path@) =~= Seq::<Seq<char>>::empty());
    }
    Ok(root)
}

} // verus!
