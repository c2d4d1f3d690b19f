//! The content-addressed tree model: nested directory structure whose
//! file contents are blob references and whose subdirectories are tree
//! references, resolved through a forest.

use vstd::prelude::*;

use crate::error::Error;
use crate::hashing::ObjectId;
use crate::strutil;

verus! {

/// A node's filesystem metadata, held as plain values.
#[derive(Clone, Copy, Debug, PartialEq, Eq, Structural)]
pub struct Metadata {
    pub uid: u32,
    pub gid: u32,
    pub mode: u32,
    pub modify_time: i64,
    pub access_time: i64,
    pub extra: u64,
}

/// The kind of a tree node.
#[derive(Clone, Copy, Debug, PartialEq, Eq, Structural)]
pub enum NodeType {
    File,
    Directory,
    Symlink,
}

/// What a node holds: blob references for a file, a target for a
/// symlink, or a subtree reference for a directory.
#[derive(Debug)]
pub enum NodeContents {
    File { chunks: Vec<ObjectId> },
    Symlink { target: String },
    Directory { subtree: ObjectId },
}

/// A tree node: its kind is carried by its contents.
#[derive(Debug)]
pub struct Node {
    pub metadata: Metadata,
    pub contents: NodeContents,
}

/// The mathematical value of [`NodeContents`].
pub enum ContentsV {
    File { chunks: Seq<Seq<char>> },
    Symlink { target: Seq<char> },
    Directory { subtree: Seq<char> },
}

/// The mathematical value of [`Node`].
pub struct NodeV {
    pub metadata: Metadata,
    pub contents: ContentsV,
}

/// The renderings of a sequence of identifiers.
pub open spec fn ids_view(s: Seq<ObjectId>) -> Seq<Seq<char>> {
    s.map_values(|c: ObjectId| c@)
}

impl View for NodeContents {
    type V = ContentsV;

    open spec fn view(&self) -> ContentsV {
        match self {
            NodeContents::File { chunks } => ContentsV::File { chunks: ids_view(chunks@) },
            NodeContents::Symlink { target } => ContentsV::Symlink { target: target@ },
            NodeContents::Directory { subtree } => ContentsV::Directory { subtree: subtree@ },
        }
    }
}

impl View for Node {
    type V = NodeV;

    open spec fn view(&self) -> NodeV {
        NodeV { metadata: self.metadata, contents: self.contents@ }
    }
}

/// The kind a node's contents give it.
pub open spec fn kind_of(n: NodeV) -> NodeType {
    match n.contents {
        ContentsV::File { .. } => NodeType::File,
        ContentsV::Symlink { .. } => NodeType::Symlink,
        ContentsV::Directory { .. } => NodeType::Directory,
    }
}

impl Node {
    /// This node's kind.
    pub fn kind(&self) -> (r: NodeType)
        ensures
            r == kind_of(self@),
    {
        match &self.contents {
            NodeContents::File { .. } => NodeType::File,
            NodeContents::Symlink { .. } => NodeType::Symlink,
            NodeContents::Directory { .. } => NodeType::Directory,
        }
    }

    pub fn clone_node(&self) -> (r: Node)
        ensures
            r@ == self@,
    {
        let contents = match &self.contents {
            NodeContents::File { chunks } => {
                let n = chunks.len();
                let mut copied: Vec<ObjectId> = Vec::new();
                let mut i: usize = 0;
                while i < n
                    invariant
                        n == chunks@.len(),
                        i <= n,
                        copied@.len() == i,
                        forall|j: int| 0 <= j < i ==> #[trigger] copied@[j]@ == chunks@[j]@,
                    decreases n - i,
                {
                    copied.push(chunks[i].clone_id());
                    i += 1;
                }
                let copied_contents = NodeContents::File { chunks: copied };
                proof {
                    assert(ids_view(copied@) =~= ids_view(chunks@)) by {
                        assert(forall|j: int|
                            0 <= j < n ==> ids_view(copied@)[j] == #[trigger] copied@[j]@);
                        assert(forall|j: int|
                            0 <= j < n ==> ids_view(chunks@)[j] == #[trigger] chunks@[j]@);
                    }
                }
                copied_contents
            },
            NodeContents::Symlink { target } => NodeContents::Symlink { target: target.clone() },
            NodeContents::Directory { subtree } => NodeContents::Directory {
                subtree: subtree.clone_id(),
            },
        };
        Node { metadata: self.metadata, contents }
    }

    /// Whether this node holds the same contents as another.
    pub fn contents_eq(&self, other: &Node) -> (r: bool)
        ensures
            r == (self@.contents == other@.contents),
    {
        match &self.contents {
            NodeContents::File { chunks: a } => match &other.contents {
                NodeContents::File { chunks: b } => {
                    let n = a.len();
                    if b.len() != n {
                        proof {
                            assert(ids_view(a@).len() == a@.len());
                            assert(ids_view(b@).len() == b@.len());
                            assert(self@.contents != other@.contents);
                        }
                        return false;
                    }
                    let mut i: usize = 0;
                    while i < n
                        invariant
                            n == a@.len(),
                            n == b@.len(),
                            i <= n,
                            self@.contents == (ContentsV::File { chunks: ids_view(a@) }),
                            other@.contents == (ContentsV::File { chunks: ids_view(b@) }),
                            forall|j: int| 0 <= j < i ==> #[trigger] a@[j]@ == b@[j]@,
                        decreases n - i,
                    {
                        if !a[i].eq_id(&b[i]) {
                            proof {
                                assert(ids_view(a@)[i as int] == a@[i as int]@);
                                assert(ids_view(b@)[i as int] == b@[i as int]@);
                                assert(ids_view(a@) != ids_view(b@));
                                assert(self@.contents != other@.contents);
                            }
                            return false;
                        }
                        i += 1;
                    }
                    proof {
                        assert forall|j: int| 0 <= j < n implies ids_view(a@)[j] == ids_view(
                            b@,
                        )[j] by {
                            assert(ids_view(a@)[j] == a@[j]@);
                            assert(ids_view(b@)[j] == b@[j]@);
                        }
                        assert(ids_view(a@) =~= ids_view(b@));
                        assert(self@.contents == other@.contents);
                    }
                    true
                },
                _ => false,
            },
            NodeContents::Symlink { target: a } => match &other.contents {
                NodeContents::Symlink { target: b } => strutil::str_eq(a.as_str(), b.as_str()),
                _ => false,
            },
            NodeContents::Directory { subtree: a } => match &other.contents {
                NodeContents::Directory { subtree: b } => a.eq_id(b),
                _ => false,
            },
        }
    }

    /// The subtree a directory node references.
    pub fn subtree(&self) -> (r: Option<&ObjectId>)
        ensures
            match self@.contents {
                ContentsV::Directory { subtree } => r is Some && r->0@ == subtree,
                _ => r is None,
            },
    {
        match &self.contents {
            NodeContents::Directory { subtree } => Some(subtree),
            _ => None,
        }
    }

    /// Whether this node carries the same metadata as another.
    pub fn metadata_eq(&self, other: &Node) -> (r: bool)
        ensures
            r == (self@.metadata == other@.metadata),
    {
        self.metadata == other.metadata
    }
}

/// The category character shown for a metadata difference: ownership,
/// permissions, modify time, access time, or other metadata, checked in
/// that order; `None` when the metadata agree.
pub open spec fn meta_diff_char_spec(a: Metadata, b: Metadata) -> Option<char> {
    if a.uid != b.uid || a.gid != b.gid {
        Some('O')
    } else if a.mode != b.mode {
        Some('P')
    } else if a.modify_time != b.modify_time {
        Some('T')
    } else if a.access_time != b.access_time {
        Some('A')
    } else if a.extra != b.extra {
        Some('M')
    } else {
        None
    }
}

/// The category of the difference between two nodes' metadata.
pub fn meta_diff_char(a: &Metadata, b: &Metadata) -> (r: Option<char>)
    ensures
        r == meta_diff_char_spec(*a, *b),
{
    if a.uid != b.uid || a.gid != b.gid {
        Some('O')
    } else if a.mode != b.mode {
        Some('P')
    } else if a.modify_time != b.modify_time {
        Some('T')
    } else if a.access_time != b.access_time {
        Some('A')
    } else if a.extra != b.extra {
        Some('M')
    } else {
        None
    }
}

/// The mathematical value of a tree: its entries, sorted by name.
pub type TreeV = Seq<(Seq<char>, NodeV)>;

/// The mathematical value of a forest: trees by identifier, each tree's
/// subtrees standing earlier than the tree itself.
pub type ForestV = Seq<(Seq<char>, TreeV)>;

/// Entry names strictly ascend.
pub open spec fn tree_sorted(t: TreeV) -> bool {
    forall|i: int, j: int| 0 <= i < j < t.len() ==> strutil::lex_lt(t[i].0, t[j].0)
}

/// The first position holding the tree `id`, or `-1`.
pub open spec fn rank_of(f: ForestV, id: Seq<char>) -> int
    decreases f.len(),
{
    if f.len() == 0 {
        -1int
    } else if f[0].0 == id {
        0int
    } else {
        let r = rank_of(f.drop_first(), id);
        if r < 0 {
            -1int
        } else {
            r + 1
        }
    }
}

pub proof fn lemma_rank_of(f: ForestV, id: Seq<char>)
    ensures
        rank_of(f, id) >= 0 ==> rank_of(f, id) < f.len() && f[rank_of(f, id)].0 == id,
        rank_of(f, id) < 0 ==> forall|i: int| 0 <= i < f.len() ==> f[i].0 != id,
    decreases f.len(),
{
    if f.len() > 0 && f[0].0 != id {
        lemma_rank_of(f.drop_first(), id);
        assert(forall|i: int| 1 <= i < f.len() ==> #[trigger] f[i] == f.drop_first()[i - 1]);
    }
}

pub proof fn lemma_rank_of_push(f: ForestV, id: Seq<char>, e: (Seq<char>, TreeV))
    ensures
        id != e.0 ==> rank_of(f.push(e), id) == if rank_of(f, id) >= 0 {
            rank_of(f, id)
        } else {
            -1int
        },
        id == e.0 && rank_of(f, id) < 0 ==> rank_of(f.push(e), id) == f.len(),
        id == e.0 && rank_of(f, id) >= 0 ==> rank_of(f.push(e), id) == rank_of(f, id),
    decreases f.len(),
{
    if f.len() == 0 {
        assert(f.push(e)[0] == e);
        assert(f.push(e).drop_first() =~= Seq::<(Seq<char>, TreeV)>::empty());
        assert(rank_of(f, id) == -1);
        if id == e.0 {
            assert(rank_of(f.push(e), id) == 0);
        } else {
            assert(rank_of(Seq::<(Seq<char>, TreeV)>::empty(), id) == -1);
            assert(rank_of(f.push(e), id) == -1);
        }
    } else {
        assert(f.push(e)[0] == f[0]);
        assert(f.push(e).drop_first() =~= f.drop_first().push(e));
        assert(f.push(e).drop_first() == f.drop_first().push(e));
        lemma_rank_of_push(f.drop_first(), id, e);
        assert(rank_of(f.push(e).drop_first(), id) == rank_of(f.drop_first().push(e), id));
    }
}

/// A directory node's subtree stands in the forest before position `r`.
pub open spec fn node_refs_below(n: NodeV, f: ForestV, r: int) -> bool {
    match n.contents {
        ContentsV::Directory { subtree } => 0 <= rank_of(f, subtree) < r,
        _ => true,
    }
}

/// Every directory entry of the tree refers below position `r`.
pub open spec fn tree_refs_below(t: TreeV, f: ForestV, r: int) -> bool {
    forall|i: int| 0 <= i < t.len() ==> node_refs_below(#[trigger] t[i].1, f, r)
}

/// A well-formed forest: distinct identifiers, sorted trees, and every
/// tree's subtrees standing strictly before it.
pub open spec fn forest_wf(f: ForestV) -> bool {
    &&& forall|i: int, j: int| 0 <= i < j < f.len() ==> f[i].0 != f[j].0
    &&& forall|i: int| 0 <= i < f.len() ==> tree_sorted(#[trigger] f[i].1)
    &&& forall|i: int| 0 <= i < f.len() ==> tree_refs_below(#[trigger] f[i].1, f, i)
}

/// A tree: a mapping from path component to node, kept sorted by name.
#[derive(Debug)]
pub struct Tree {
    entries: Vec<(String, Node)>,
}

impl View for Tree {
    type V = TreeV;

    closed spec fn view(&self) -> TreeV {
        self.entries@.map_values(|p: (String, Node)| (p.0@, p.1@))
    }
}

impl Tree {
    pub fn new() -> (r: Tree)
        ensures
            r@ == Seq::<(Seq<char>, NodeV)>::empty(),
            tree_sorted(r@),
    {
        let r = Tree { entries: Vec::new() };
        proof {
            assert(r@ =~= Seq::<(Seq<char>, NodeV)>::empty());
        }
        r
    }

    pub fn len(&self) -> (r: usize)
        ensures
            r == self@.len(),
    {
        self.entries.len()
    }

    /// The entry at the given position.
    pub fn entry(&self, i: usize) -> (r: (&String, &Node))
        requires
            i < self@.len(),
        ensures
            r.0@ == self@[i as int].0,
            r.1@ == self@[i as int].1,
    {
        let e = &self.entries[i];
        (&e.0, &e.1)
    }

    /// Add an entry under a name the tree does not hold yet, keeping the
    /// entries sorted.
    pub fn insert(&mut self, name: &str, node: Node)
        requires
            tree_sorted(old(self)@),
            forall|i: int| 0 <= i < old(self)@.len() ==> old(self)@[i].0 != name@,
        ensures
            tree_sorted(final(self)@),
            final(self)@.len() == old(self)@.len() + 1,
            exists|i: int|
                0 <= i < final(self)@.len() && final(self)@[i] == (name@, node@)
                    && final(self)@ == old(self)@.insert(i, (name@, node@)),
    {
        let n = self.entries.len();
        let mut i: usize = 0;
        while i < n
            invariant_except_break
                n == self.entries@.len(),
                i <= n,
                forall|j: int| 0 <= j < i ==> strutil::lex_lt(#[trigger] self@[j].0, name@),
            ensures
                n == self.entries@.len(),
                i <= n,
                forall|j: int| 0 <= j < i ==> strutil::lex_lt(#[trigger] self@[j].0, name@),
                i < n ==> !strutil::lex_lt(self@[i as int].0, name@),
            decreases n - i,
        {
            if !strutil::str_lt(self.entries[i].0.as_str(), name) {
                break;
            }
            i += 1;
        }
        let ghost pre = self@;
        proof {
            if (i as int) < pre.len() {
                strutil::lemma_lex_trichotomy(pre[i as int].0, name@);
                assert(strutil::lex_lt(name@, pre[i as int].0));
            }
        }
        self.entries.insert(i, (name.to_owned(), node));
        proof {
            assert(self@ =~= pre.insert(i as int, (name@, node@)));
            assert(self@[i as int] == (name@, node@));
            assert forall|a: int, b: int|
                0 <= a < b < self@.len() implies strutil::lex_lt(self@[a].0, self@[b].0) by {
                if b < i as int {
                    assert(self@[a] == pre[a] && self@[b] == pre[b]);
                } else if b == i as int {
                    assert(self@[a] == pre[a]);
                } else if a < i as int {
                    assert(self@[a] == pre[a] && self@[b] == pre[b - 1]);
                    if b - 1 == i as int {
                        assert(strutil::lex_lt(pre[a].0, name@));
                        assert(strutil::lex_lt(name@, pre[i as int].0));
                        strutil::lemma_lex_transitive(pre[a].0, name@, pre[i as int].0);
                    }
                } else if a == i as int {
                    assert(self@[b] == pre[b - 1]);
                    assert(strutil::lex_lt(name@, pre[i as int].0));
                    if b - 1 > i as int {
                        assert(strutil::lex_lt(pre[i as int].0, pre[b - 1].0));
                        strutil::lemma_lex_transitive(name@, pre[i as int].0, pre[b - 1].0);
                    }
                } else {
                    assert(self@[a] == pre[a - 1] && self@[b] == pre[b - 1]);
                }
            }
        }
    }
}

/// A forest: a lookup from tree identifier to tree contents, built
/// bottom-up so that subtrees always precede the trees that hold them.
#[derive(Debug)]
pub struct Forest {
    trees: Vec<(ObjectId, Tree)>,
}

impl View for Forest {
    type V = ForestV;

    closed spec fn view(&self) -> ForestV {
        self.trees@.map_values(|p: (ObjectId, Tree)| (p.0@, p.1@))
    }
}

impl Forest {
    pub open spec fn wf(&self) -> bool {
        forest_wf(self@)
    }

    pub fn new() -> (r: Forest)
        ensures
            r@ == Seq::<(Seq<char>, TreeV)>::empty(),
            r.wf(),
    {
        let r = Forest { trees: Vec::new() };
        proof {
            assert(r@ =~= Seq::<(Seq<char>, TreeV)>::empty());
        }
        r
    }

    /// Look a tree up by its identifier.
    pub fn get(&self, id: &ObjectId) -> (r: Option<&Tree>)
        ensures
            match r {
                Some(t) => rank_of(self@, id@) >= 0 && t@ == self@[rank_of(self@, id@)].1,
                None => rank_of(self@, id@) < 0,
            },
    {
        let n = self.trees.len();
        let mut i: usize = 0;
        while i < n
            invariant
                n == self.trees@.len(),
                i <= n,
                forall|j: int| 0 <= j < i ==> self@[j].0 != id@,
            decreases n - i,
        {
            if self.trees[i].0.eq_id(id) {
                proof {
                    lemma_rank_first(self@, id@, i as int);
                }
                return Some(&self.trees[i].1);
            }
            i += 1;
        }
        proof {
            lemma_rank_of(self@, id@);
        }
        None
    }

    /// Add a tree under a fresh identifier. Every subtree a directory
    /// entry of the tree references must already stand in the forest;
    /// a dangling reference is a fatal programming error.
    pub fn insert(&mut self, id: ObjectId, tree: Tree) -> (r: Result<(), Error>)
        requires
            old(self).wf(),
            tree_sorted(tree@),
            rank_of(old(self)@, id@) < 0,
        ensures
            match r {
                Ok(()) => final(self)@ == old(self)@.push((id@, tree@)) && final(self).wf(),
                Err(e) => e == Error::Fatal && final(self)@ == old(self)@ && !(forall|i: int|
                    0 <= i < tree@.len() ==> node_refs_below(
                        #[trigger] tree@[i].1,
                        old(self)@,
                        old(self)@.len() as int,
                    )),
            },
    {
        let n = tree.entries.len();
        let mut i: usize = 0;
        while i < n
            invariant
                n == tree@.len(),
                i <= n,
                self@ == old(self)@,
                forall|j: int|
                    0 <= j < i ==> node_refs_below(#[trigger] tree@[j].1, self@, self@.len() as int),
            decreases n - i,
        {
            let present = match &tree.entries[i].1.contents {
                NodeContents::Directory { subtree } => self.get(subtree).is_some(),
                _ => true,
            };
            proof {
                lemma_rank_of(self@, match tree@[i as int].1.contents {
                    ContentsV::Directory { subtree } => subtree,
                    _ => Seq::empty(),
                });
            }
            if !present {
                return Err(Error::Fatal);
            }
            i += 1;
        }
        let ghost pre = self@;
        self.trees.push((id, tree));
        proof {
            assert(self@ =~= pre.push((id@, tree@)));
            assert forall|a: int, b: int| 0 <= a < b < self@.len() implies self@[a].0
                != self@[b].0 by {
                if b < pre.len() {
                    assert(self@[a] == pre[a] && self@[b] == pre[b]);
                } else {
                    assert(self@[b].0 == id@);
                    assert(self@[a] == pre[a]);
                    lemma_rank_of(pre, id@);
                }
            }
            assert forall|a: int| 0 <= a < self@.len() implies tree_sorted(#[trigger] self@[a].1)
                && tree_refs_below(self@[a].1, self@, a) by {
                if a < pre.len() {
                    assert(self@[a] == pre[a]);
                    assert(tree_refs_below(pre[a].1, pre, a));
                    assert forall|e: int|
                        0 <= e < self@[a].1.len() implies node_refs_below(
                        #[trigger] self@[a].1[e].1,
                        self@,
                        a,
                    ) by {
                        assert(node_refs_below(pre[a].1[e].1, pre, a));
                        match pre[a].1[e].1.contents {
                            ContentsV::Directory { subtree } => {
                                lemma_rank_of_push(pre, subtree, (id@, tree@));
                            },
                            _ => {},
                        }
                    }
                } else {
                    assert(self@[a] == (id@, tree@));
                    assert forall|e: int|
                        0 <= e < tree@.len() implies node_refs_below(
                        #[trigger] tree@[e].1,
                        self@,
                        a,
                    ) by {
                        assert(node_refs_below(tree@[e].1, pre, pre.len() as int));
                        match tree@[e].1.contents {
                            ContentsV::Directory { subtree } => {
                                lemma_rank_of_push(pre, subtree, (id@, tree@));
                            },
                            _ => {},
                        }
                    }
                }
            }
        }
        Ok(())
    }
}

proof fn lemma_rank_first(f: ForestV, id: Seq<char>, i: int)
    requires
        0 <= i < f.len(),
        f[i].0 == id,
        forall|j: int| 0 <= j < i ==> f[j].0 != id,
    ensures
        rank_of(f, id) == i,
    decreases f.len(),
{
    if i > 0 {
        assert(forall|j: int| 1 <= j < f.len() ==> #[trigger] f[j] == f.drop_first()[j - 1]);
        lemma_rank_first(f.drop_first(), id, i - 1);
    }
}

} // verus!
