//! Diffs two content-addressed trees and runs a set of callbacks for
//! each difference, in sorted path order.

use vstd::prelude::*;

use crate::error::Error;
use crate::hashing::ObjectId;
use crate::strutil;
use crate::tree::{
    forest_wf, kind_of, rank_of, tree_refs_below, ContentsV, Forest, ForestV, Node, NodeType,
    NodeV, Tree, TreeV,
};

verus! {

/// One structural difference between two trees, at a joined path.
pub enum Event {
    Added { path: Seq<char>, node: NodeV },
    Removed { path: Seq<char>, node: NodeV },
    ContentsChanged { path: Seq<char>, old_node: NodeV, new_node: NodeV },
    MetadataChanged { path: Seq<char>, old_node: NodeV, new_node: NodeV },
    NothingChanged { path: Seq<char>, node: NodeV },
    TypeChanged { path: Seq<char>, old_node: NodeV, new_node: NodeV },
}

/// A path component appended to a path prefix.
pub open spec fn joined(prefix: Seq<char>, name: Seq<char>) -> Seq<char> {
    if prefix.len() == 0 {
        name
    } else {
        prefix + seq!['/'] + name
    }
}

/// Append a path component to a path prefix.
pub fn join_path(prefix: &str, name: &str) -> (r: String)
    ensures
        r@ == joined(prefix@, name@),
{
    if prefix.unicode_len() == 0 {
        name.to_owned()
    } else {
        proof {
            reveal_strlit("/");
            assert("/"@ =~= seq!['/']);
        }
        let mut s = strutil::concat_strs(prefix, "/");
        s.append(name);
        s
    }
}

/// How far down a forest a node's subtree reference reaches: one past
/// the rank of the subtree for a directory, and zero for other kinds.
pub open spec fn sub_rank(f: ForestV, n: NodeV) -> int {
    match n.contents {
        ContentsV::Directory { subtree } => rank_of(f, subtree) + 1,
        _ => 0int,
    }
}

/// Whether a node's subtree reference, if any, resolves in the forest.
pub open spec fn node_resolves(n: NodeV, f: ForestV) -> bool {
    match n.contents {
        ContentsV::Directory { subtree } => rank_of(f, subtree) >= 0,
        _ => true,
    }
}

/// Whether both trees of a comparison are in place.
pub open spec fn diff_pre(f1: ForestV, id1: Seq<char>, f2: ForestV, id2: Seq<char>) -> bool {
    &&& forest_wf(f1)
    &&& forest_wf(f2)
    &&& rank_of(f1, id1) >= 0
    &&& rank_of(f2, id2) >= 0
}

/// Whether two entry runs may be compared below the given ranks.
pub open spec fn entries_pre(
    f1: ForestV,
    t1: TreeV,
    f2: ForestV,
    t2: TreeV,
    r1: int,
    r2: int,
) -> bool {
    &&& forest_wf(f1)
    &&& forest_wf(f2)
    &&& 0 <= r1
    &&& 0 <= r2
    &&& tree_refs_below(t1, f1, r1)
    &&& tree_refs_below(t2, f2, r2)
}

/// Whether two nodes may be compared.
pub open spec fn pair_pre(f1: ForestV, n1: NodeV, f2: ForestV, n2: NodeV) -> bool {
    &&& forest_wf(f1)
    &&& forest_wf(f2)
    &&& node_resolves(n1, f1)
    &&& node_resolves(n2, f2)
}

/// The events comparing the trees under `id1` and `id2` emits, in sorted
/// path order, type changes standing as single events.
pub open spec fn diff_events(
    f1: ForestV,
    id1: Seq<char>,
    f2: ForestV,
    id2: Seq<char>,
    prefix: Seq<char>,
) -> Seq<Event>
    decreases rank_of(f1, id1) + rank_of(f2, id2), 2int, 0int,
{
    if diff_pre(f1, id1, f2, id2) {
        let r1 = rank_of(f1, id1);
        let r2 = rank_of(f2, id2);
        entries_events(f1, f1[r1].1, f2, f2[r2].1, prefix, r1, r2)
    } else {
        Seq::empty()
    }
}

/// The events comparing two sorted entry runs emits.
pub open spec fn entries_events(
    f1: ForestV,
    t1: TreeV,
    f2: ForestV,
    t2: TreeV,
    prefix: Seq<char>,
    r1: int,
    r2: int,
) -> Seq<Event>
    decreases r1 + r2, 1int, t1.len() + t2.len(),
    via entries_events_decreases
{
    if entries_pre(f1, t1, f2, t2, r1, r2) {
        if t1.len() == 0 && t2.len() == 0 {
            Seq::empty()
        } else if t1.len() == 0 {
            seq![Event::Added { path: joined(prefix, t2[0].0), node: t2[0].1 }] + entries_events(
                f1,
                t1,
                f2,
                t2.drop_first(),
                prefix,
                r1,
                r2,
            )
        } else if t2.len() == 0 {
            seq![Event::Removed { path: joined(prefix, t1[0].0), node: t1[0].1 }]
                + entries_events(f1, t1.drop_first(), f2, t2, prefix, r1, r2)
        } else if t1[0].0 == t2[0].0 {
            pair_events(f1, t1[0].1, f2, t2[0].1, joined(prefix, t1[0].0)) + entries_events(
                f1,
                t1.drop_first(),
                f2,
                t2.drop_first(),
                prefix,
                r1,
                r2,
            )
        } else if strutil::lex_lt(t1[0].0, t2[0].0) {
            seq![Event::Removed { path: joined(prefix, t1[0].0), node: t1[0].1 }]
                + entries_events(f1, t1.drop_first(), f2, t2, prefix, r1, r2)
        } else {
            seq![Event::Added { path: joined(prefix, t2[0].0), node: t2[0].1 }] + entries_events(
                f1,
                t1,
                f2,
                t2.drop_first(),
                prefix,
                r1,
                r2,
            )
        }
    } else {
        Seq::empty()
    }
}

#[via_fn]
proof fn entries_events_decreases(
    f1: ForestV,
    t1: TreeV,
    f2: ForestV,
    t2: TreeV,
    prefix: Seq<char>,
    r1: int,
    r2: int,
) {
    if entries_pre(f1, t1, f2, t2, r1, r2) && t1.len() > 0 && t2.len() > 0 {
        assert(crate::tree::node_refs_below(t1[0].1, f1, r1));
        assert(crate::tree::node_refs_below(t2[0].1, f2, r2));
        assert(sub_rank(f1, t1[0].1) <= r1);
        assert(sub_rank(f2, t2[0].1) <= r2);
    }
}

/// The events comparing two nodes that share a name emits.
pub open spec fn pair_events(
    f1: ForestV,
    n1: NodeV,
    f2: ForestV,
    n2: NodeV,
    path: Seq<char>,
) -> Seq<Event>
    decreases sub_rank(f1, n1) + sub_rank(f2, n2), 0int, 0int,
{
    if pair_pre(f1, n1, f2, n2) {
        if kind_of(n1) == kind_of(n2) && kind_of(n1) != NodeType::Directory {
            if n1.contents != n2.contents {
                seq![Event::ContentsChanged { path, old_node: n1, new_node: n2 }]
            } else if n1.metadata != n2.metadata {
                seq![Event::MetadataChanged { path, old_node: n1, new_node: n2 }]
            } else {
                seq![Event::NothingChanged { path, node: n2 }]
            }
        } else if kind_of(n1) == NodeType::Directory && kind_of(n2) == NodeType::Directory {
            if n1.contents != n2.contents {
                let s1 = match n1.contents {
                    ContentsV::Directory { subtree } => subtree,
                    _ => Seq::empty(),
                };
                let s2 = match n2.contents {
                    ContentsV::Directory { subtree } => subtree,
                    _ => Seq::empty(),
                };
                diff_events(f1, s1, f2, s2, path) + if n1.metadata != n2.metadata {
                    seq![Event::MetadataChanged { path, old_node: n1, new_node: n2 }]
                } else {
                    Seq::empty()
                }
            } else if n1.metadata != n2.metadata {
                seq![Event::MetadataChanged { path, old_node: n1, new_node: n2 }]
            } else {
                seq![Event::NothingChanged { path, node: n1 }]
            }
        } else {
            seq![Event::TypeChanged { path, old_node: n1, new_node: n2 }]
        }
    } else {
        Seq::empty()
    }
}

/// A type change decomposed the way the default callback handles it:
/// the old node removed, then the new node added.
pub open spec fn expand_event(e: Event) -> Seq<Event> {
    match e {
        Event::TypeChanged { path, old_node, new_node } => seq![
            Event::Removed { path, node: old_node },
            Event::Added { path, node: new_node },
        ],
        _ => seq![e],
    }
}

/// The event stream as callbacks see it: type changes decomposed.
pub open spec fn expand(es: Seq<Event>) -> Seq<Event>
    decreases es.len(),
{
    if es.len() == 0 {
        Seq::empty()
    } else {
        expand_event(es[0]) + expand(es.drop_first())
    }
}

pub proof fn lemma_expand_concat(a: Seq<Event>, b: Seq<Event>)
    ensures
        expand(a + b) == expand(a) + expand(b),
    decreases a.len(),
{
    if a.len() == 0 {
        assert(a + b =~= b);
        assert(expand(a) + expand(b) =~= expand(b));
    } else {
        assert((a + b)[0] == a[0]);
        assert((a + b).drop_first() =~= a.drop_first() + b);
        lemma_expand_concat(a.drop_first(), b);
        assert(expand_event(a[0]) + (expand(a.drop_first()) + expand(b)) =~= (expand_event(a[0])
            + expand(a.drop_first())) + expand(b));
    }
}

pub proof fn lemma_expand_single(e: Event)
    ensures
        expand(seq![e]) == expand_event(e),
{
    assert(seq![e][0] == e);
    assert(seq![e].drop_first() =~= Seq::<Event>::empty());
    assert(expand(Seq::<Event>::empty()) =~= Seq::<Event>::empty());
    assert(expand_event(e) + Seq::<Event>::empty() =~= expand_event(e));
}

pub proof fn lemma_expand_one(es: Seq<Event>)
    requires
        es.len() == 1,
        !(es[0] is TypeChanged),
    ensures
        expand(es) == es,
{
    assert(es.drop_first() =~= Seq::<Event>::empty());
    assert(expand(Seq::<Event>::empty()) =~= Seq::<Event>::empty());
    assert(expand_event(es[0]) == seq![es[0]]);
    assert(expand_event(es[0]) + Seq::<Event>::empty() =~= expand_event(es[0]));
    assert(seq![es[0]] =~= es);
}

/// What each difference is handed to. Implementations log every call:
/// their event view grows by exactly the reported event.
pub trait Callbacks: Sized {
    /// The events reported so far.
    spec fn events(&self) -> Seq<Event>;

    /// A tree node with the given path was added.
    fn node_added(&mut self, node_path: &str, new_node: &Node, forest: &Forest) -> (r: Result<
        (),
        Error,
    >)
        ensures
            r is Ok ==> final(self).events() == old(self).events().push(
                Event::Added { path: node_path@, node: new_node@ },
            ),
    ;

    /// A tree node at the given path was removed.
    fn node_removed(&mut self, node_path: &str, old_node: &Node, forest: &Forest) -> (r: Result<
        (),
        Error,
    >)
        ensures
            r is Ok ==> final(self).events() == old(self).events().push(
                Event::Removed { path: node_path@, node: old_node@ },
            ),
    ;

    /// The contents of a file or symlink changed (not called on
    /// directories). Presume metadata also changed.
    fn contents_changed(&mut self, node_path: &str, old_node: &Node, new_node: &Node) -> (r:
        Result<(), Error>)
        ensures
            r is Ok ==> final(self).events() == old(self).events().push(
                Event::ContentsChanged { path: node_path@, old_node: old_node@, new_node: new_node@ },
            ),
    ;

    /// A node's metadata was changed.
    fn metadata_changed(&mut self, node_path: &str, old_node: &Node, new_node: &Node) -> (r:
        Result<(), Error>)
        ensures
            r is Ok ==> final(self).events() == old(self).events().push(
                Event::MetadataChanged { path: node_path@, old_node: old_node@, new_node: new_node@ },
            ),
    ;

    /// A node didn't change.
    fn nothing_changed(&mut self, node_path: &str, node: &Node) -> (r: Result<(), Error>)
        ensures
            r is Ok ==> final(self).events() == old(self).events().push(
                Event::NothingChanged { path: node_path@, node: node@ },
            ),
    ;

    /// Called when the type of a node changed. For most consumers this
    /// can be modeled as removing the old node and adding the new one,
    /// so that is the default behavior.
    fn type_changed(
        &mut self,
        node_path: &str,
        old_node: &Node,
        old_forest: &Forest,
        new_node: &Node,
        new_forest: &Forest,
    ) -> (r: Result<(), Error>)
        ensures
            r is Ok ==> final(self).events() == old(self).events().push(
                Event::Removed { path: node_path@, node: old_node@ },
            ).push(Event::Added { path: node_path@, node: new_node@ }),
    {
        let res = self.node_removed(node_path, old_node, old_forest);
        if let Err(e) = res {
            return Err(e);
        }
        let res = self.node_added(node_path, new_node, new_forest);
        if let Err(e) = res {
            return Err(e);
        }
        Ok(())
    }
}

/// Compare the trees under two identifiers, reporting every difference
/// to the callbacks in sorted path order. On success the callbacks have
/// seen exactly the comparison's event stream, type changes decomposed.
pub fn compare_trees<C: Callbacks>(
    id1: &ObjectId,
    forest1: &Forest,
    id2: &ObjectId,
    forest2: &Forest,
    tree_path: &str,
    callbacks: &mut C,
) -> (r: Result<(), Error>)
    requires
        forest1.wf(),
        forest2.wf(),
        rank_of(forest1@, id1@) >= 0,
        rank_of(forest2@, id2@) >= 0,
    ensures
        r is Ok ==> final(callbacks).events() == old(callbacks).events() + expand(
            diff_events(forest1@, id1@, forest2@, id2@, tree_path@),
        ),
    decreases 3 * (rank_of(forest1@, id1@) + rank_of(forest2@, id2@)) + 2,
{
    let ghost r1 = rank_of(forest1@, id1@);
    let ghost r2 = rank_of(forest2@, id2@);
    let tree1 = match forest1.get(id1) {
        Some(t) => t,
        None => {
            return Err(Error::Fatal);
        },
    };
    let tree2 = match forest2.get(id2) {
        Some(t) => t,
        None => {
            return Err(Error::Fatal);
        },
    };
    let ghost t1v = tree1@;
    let ghost t2v = tree2@;
    let n1 = tree1.len();
    let n2 = tree2.len();
    let mut i: usize = 0;
    let mut j: usize = 0;
    proof {
        assert(t1v.skip(0) =~= t1v);
        assert(t2v.skip(0) =~= t2v);
        crate::tree::lemma_rank_of(forest1@, id1@);
        crate::tree::lemma_rank_of(forest2@, id2@);
        assert(t1v == forest1@[r1].1);
        assert(t2v == forest2@[r2].1);
        assert(tree_refs_below(forest1@[r1].1, forest1@, r1));
        assert(tree_refs_below(forest2@[r2].1, forest2@, r2));
    }
    loop
        invariant
            forest1.wf(),
            forest2.wf(),
            rank_of(forest1@, id1@) == r1,
            rank_of(forest2@, id2@) == r2,
            0 <= r1 < forest1@.len(),
            0 <= r2 < forest2@.len(),
            t1v == forest1@[r1].1,
            t2v == forest2@[r2].1,
            tree1@ == t1v,
            tree2@ == t2v,
            n1 == t1v.len(),
            n2 == t2v.len(),
            i <= n1,
            j <= n2,
            tree_refs_below(t1v, forest1@, r1),
            tree_refs_below(t2v, forest2@, r2),
            old(callbacks).events() + expand(
                entries_events(forest1@, t1v, forest2@, t2v, tree_path@, r1, r2),
            ) == callbacks.events() + expand(
                entries_events(
                    forest1@,
                    t1v.skip(i as int),
                    forest2@,
                    t2v.skip(j as int),
                    tree_path@,
                    r1,
                    r2,
                ),
            ),
        ensures
            i == n1,
            j == n2,
            old(callbacks).events() + expand(
                entries_events(forest1@, t1v, forest2@, t2v, tree_path@, r1, r2),
            ) == callbacks.events() + expand(
                entries_events(
                    forest1@,
                    t1v.skip(i as int),
                    forest2@,
                    t2v.skip(j as int),
                    tree_path@,
                    r1,
                    r2,
                ),
            ),
        decreases n1 - i + n2 - j,
    {
        let ghost rest1 = t1v.skip(i as int);
        let ghost rest2 = t2v.skip(j as int);
        proof {
            lemma_refs_below_skip(t1v, forest1@, r1, i as int);
            lemma_refs_below_skip(t2v, forest2@, r2, j as int);
            assert(entries_pre(forest1@, rest1, forest2@, rest2, r1, r2));
        }
        if i == n1 && j == n2 {
            break;
        }
        let step_left = if i == n1 {
            false
        } else if j == n2 {
            true
        } else {
            let name1 = tree1.entry(i).0;
            let name2 = tree2.entry(j).0;
            if strutil::str_eq(name1.as_str(), name2.as_str()) {
                // equal heads: compare the nodes, then advance both
                let (name, node1) = tree1.entry(i);
                let node2 = tree2.entry(j).1;
                let node_path = join_path(tree_path, name.as_str());
                proof {
                    assert(rest1[0] == t1v[i as int]);
                    assert(rest2[0] == t2v[j as int]);
                    assert(node_resolves(t1v[i as int].1, forest1@));
                    assert(node_resolves(t2v[j as int].1, forest2@));
                    assert(sub_rank(forest1@, t1v[i as int].1) <= r1);
                    assert(sub_rank(forest2@, t2v[j as int].1) <= r2);
                }
                let res = compare_nodes(node1, forest1, node2, forest2, node_path.as_str(), callbacks);
                if let Err(e) = res {
                    return Err(e);
                }
                proof {
                    assert(rest1.drop_first() =~= t1v.skip(i as int + 1));
                    assert(rest2.drop_first() =~= t2v.skip(j as int + 1));
                    lemma_expand_concat(
                        pair_events(
                            forest1@,
                            rest1[0].1,
                            forest2@,
                            rest2[0].1,
                            joined(tree_path@, rest1[0].0),
                        ),
                        entries_events(
                            forest1@,
                            rest1.drop_first(),
                            forest2@,
                            rest2.drop_first(),
                            tree_path@,
                            r1,
                            r2,
                        ),
                    );
                }
                i += 1;
                j += 1;
                continue;
            }
            strutil::str_lt(name1.as_str(), name2.as_str())
        };
        if step_left {
            // the left head is only on the left: removed
            let (name, node) = tree1.entry(i);
            let node_path = join_path(tree_path, name.as_str());
            let res = callbacks.node_removed(node_path.as_str(), node, forest1);
            if let Err(e) = res {
                return Err(e);
            }
            proof {
                assert(rest1[0] == t1v[i as int]);
                assert(rest1.drop_first() =~= t1v.skip(i as int + 1));
                let ev = Event::Removed {
                    path: joined(tree_path@, rest1[0].0),
                    node: rest1[0].1,
                };
                lemma_expand_single(ev);
                lemma_expand_concat(
                    seq![ev],
                    entries_events(
                        forest1@,
                        rest1.drop_first(),
                        forest2@,
                        rest2,
                        tree_path@,
                        r1,
                        r2,
                    ),
                );
            }
            i += 1;
        } else {
            // the right head is only on the right: added
            let (name, node) = tree2.entry(j);
            let node_path = join_path(tree_path, name.as_str());
            let res = callbacks.node_added(node_path.as_str(), node, forest2);
            if let Err(e) = res {
                return Err(e);
            }
            proof {
                assert(rest2[0] == t2v[j as int]);
                assert(rest2.drop_first() =~= t2v.skip(j as int + 1));
                if i < n1 {
                    assert(!strutil::lex_lt(rest1[0].0, rest2[0].0) && rest1[0].0 != rest2[0].0);
                    strutil::lemma_lex_trichotomy(rest1[0].0, rest2[0].0);
                }
                let ev = Event::Added { path: joined(tree_path@, rest2[0].0), node: rest2[0].1 };
                lemma_expand_single(ev);
                lemma_expand_concat(
                    seq![ev],
                    entries_events(
                        forest1@,
                        rest1,
                        forest2@,
                        rest2.drop_first(),
                        tree_path@,
                        r1,
                        r2,
                    ),
                );
            }
            j += 1;
        }
    }
    proof {
        assert(t1v.skip(n1 as int) =~= Seq::<(Seq<char>, NodeV)>::empty());
        assert(t2v.skip(n2 as int) =~= Seq::<(Seq<char>, NodeV)>::empty());
        assert(expand(
            entries_events(
                forest1@,
                t1v.skip(n1 as int),
                forest2@,
                t2v.skip(n2 as int),
                tree_path@,
                r1,
                r2,
            ),
        ) =~= Seq::<Event>::empty());
        assert(callbacks.events() + Seq::<Event>::empty() =~= callbacks.events());
        assert(callbacks.events() =~= old(callbacks).events() + expand(
            entries_events(forest1@, t1v, forest2@, t2v, tree_path@, r1, r2),
        ));
    }
    Ok(())
}

/// Compare two nodes that stand at the same path, reporting what
/// changed; directories with differing subtrees recurse first and
/// report their metadata change second.
pub fn compare_nodes<C: Callbacks>(
    node1: &Node,
    forest1: &Forest,
    node2: &Node,
    forest2: &Forest,
    path: &str,
    callbacks: &mut C,
) -> (r: Result<(), Error>)
    requires
        forest1.wf(),
        forest2.wf(),
        node_resolves(node1@, forest1@),
        node_resolves(node2@, forest2@),
    ensures
        r is Ok ==> final(callbacks).events() == old(callbacks).events() + expand(
            pair_events(forest1@, node1@, forest2@, node2@, path@),
        ),
    decreases 3 * (sub_rank(forest1@, node1@) + sub_rank(forest2@, node2@)) + 1,
{
    let ghost pe = pair_events(forest1@, node1@, forest2@, node2@, path@);
    let k1 = node1.kind();
    let k2 = node2.kind();
    if k1 == k2 && !matches!(k1, NodeType::Directory) {
        let res = if !node1.contents_eq(node2) {
            callbacks.contents_changed(path, node1, node2)
        } else if !node1.metadata_eq(node2) {
            callbacks.metadata_changed(path, node1, node2)
        } else {
            callbacks.nothing_changed(path, node2)
        };
        proof {
            if res is Ok {
                lemma_expand_one(pe);
                assert(old(callbacks).events() + pe =~= old(callbacks).events().push(pe[0]));
                assert(callbacks.events() == old(callbacks).events() + expand(pe));
            }
        }
        res
    } else if matches!(k1, NodeType::Directory) && matches!(k2, NodeType::Directory) {
        let mut changed = false;
        if !node1.contents_eq(node2) {
            let s1 = match node1.subtree() {
                Some(s) => s,
                None => {
                    return Err(Error::Fatal);
                },
            };
            let s2 = match node2.subtree() {
                Some(s) => s,
                None => {
                    return Err(Error::Fatal);
                },
            };
            let res = compare_trees(s1, forest1, s2, forest2, path, callbacks);
            if let Err(e) = res {
                return Err(e);
            }
            changed = true;
        }
        let ghost mid = callbacks.events();
        if !node1.metadata_eq(node2) {
            let res = callbacks.metadata_changed(path, node1, node2);
            if let Err(e) = res {
                return Err(e);
            }
            changed = true;
        }
        if !changed {
            let res = callbacks.nothing_changed(path, node1);
            if let Err(e) = res {
                return Err(e);
            }
        }
        proof {
            let meta_part: Seq<Event> = if node1@.metadata != node2@.metadata {
                seq![
                    Event::MetadataChanged {
                        path: path@,
                        old_node: node1@,
                        new_node: node2@,
                    },
                ]
            } else {
                Seq::empty()
            };
            if node1@.contents != node2@.contents {
                let s1 = match node1@.contents {
                    ContentsV::Directory { subtree } => subtree,
                    _ => Seq::empty(),
                };
                let s2 = match node2@.contents {
                    ContentsV::Directory { subtree } => subtree,
                    _ => Seq::empty(),
                };
                assert(pe == diff_events(forest1@, s1, forest2@, s2, path@) + meta_part);
                lemma_expand_concat(diff_events(forest1@, s1, forest2@, s2, path@), meta_part);
                if node1@.metadata != node2@.metadata {
                    lemma_expand_one(meta_part);
                    assert(callbacks.events() == mid.push(meta_part[0]));
                    assert(callbacks.events() =~= old(callbacks).events() + expand(pe));
                } else {
                    assert(expand(meta_part) =~= Seq::<Event>::empty());
                    assert(callbacks.events() =~= old(callbacks).events() + expand(pe));
                }
            } else {
                lemma_expand_one(pe);
                assert(old(callbacks).events() + pe =~= old(callbacks).events().push(pe[0]));
                assert(callbacks.events() == old(callbacks).events() + expand(pe));
            }
        }
        Ok(())
    } else {
        let res = callbacks.type_changed(path, node1, forest1, node2, forest2);
        proof {
            if res is Ok {
                lemma_expand_single(pe[0]);
                assert(pe =~= seq![pe[0]]);
                assert(expand(pe) == expand_event(pe[0]));
                assert(callbacks.events() =~= old(callbacks).events() + expand(pe));
            }
        }
        res
    }
}

proof fn lemma_refs_below_skip(t: TreeV, f: ForestV, r: int, k: int)
    requires
        tree_refs_below(t, f, r),
        0 <= k <= t.len(),
    ensures
        tree_refs_below(t.skip(k), f, r),
{
    assert forall|i: int|
        0 <= i < t.skip(k).len() implies crate::tree::node_refs_below(
        #[trigger] t.skip(k)[i].1,
        f,
        r,
    ) by {
        assert(t.skip(k)[i] == t[k + i]);
        assert(crate::tree::node_refs_below(t[k + i].1, f, r));
    }
}

/// Whether every event of a stream reports no change.
pub open spec fn all_nothing(es: Seq<Event>) -> bool {
    forall|i: int| 0 <= i < es.len() ==> es[i] is NothingChanged
}

/// Comparing a tree against itself emits only `NothingChanged` events.
pub proof fn lemma_diff_reflexive(f: ForestV, id: Seq<char>, prefix: Seq<char>)
    requires
        forest_wf(f),
        rank_of(f, id) >= 0,
    ensures
        all_nothing(diff_events(f, id, f, id, prefix)),
{
    let r = rank_of(f, id);
    crate::tree::lemma_rank_of(f, id);
    assert(tree_refs_below(f[r].1, f, r));
    lemma_entries_reflexive(f, f[r].1, prefix, r);
}

proof fn lemma_entries_reflexive(f: ForestV, t: TreeV, prefix: Seq<char>, r: int)
    requires
        entries_pre(f, t, f, t, r, r),
    ensures
        all_nothing(entries_events(f, t, f, t, prefix, r, r)),
    decreases t.len(),
{
    if t.len() > 0 {
        let n = t[0].1;
        let path = joined(prefix, t[0].0);
        assert(crate::tree::node_refs_below(t[0].1, f, r));
        let pe = pair_events(f, n, f, n, path);
        assert(pe.len() == 1 && pe[0] is NothingChanged);
        assert(t.drop_first() =~= t.skip(1));
        lemma_refs_below_skip(t, f, r, 1);
        lemma_entries_reflexive(f, t.drop_first(), prefix, r);
        let rest = entries_events(f, t.drop_first(), f, t.drop_first(), prefix, r, r);
        assert(entries_events(f, t, f, t, prefix, r, r) == pe + rest);
        assert forall|i: int|
            0 <= i < (pe + rest).len() implies (pe + rest)[i] is NothingChanged by {
            if i >= 1 {
                assert((pe + rest)[i] == rest[i - 1]);
            }
        }
    }
}

/// An event as the reversed comparison reports it: additions and
/// removals trade places, and old and new nodes swap.
pub open spec fn flip(e: Event) -> Event {
    match e {
        Event::Added { path, node } => Event::Removed { path, node },
        Event::Removed { path, node } => Event::Added { path, node },
        Event::ContentsChanged { path, old_node, new_node } => Event::ContentsChanged {
            path,
            old_node: new_node,
            new_node: old_node,
        },
        Event::MetadataChanged { path, old_node, new_node } => Event::MetadataChanged {
            path,
            old_node: new_node,
            new_node: old_node,
        },
        Event::NothingChanged { path, node } => Event::NothingChanged { path, node },
        Event::TypeChanged { path, old_node, new_node } => Event::TypeChanged {
            path,
            old_node: new_node,
            new_node: old_node,
        },
    }
}

/// A stream of events, each flipped.
pub open spec fn flip_all(es: Seq<Event>) -> Seq<Event> {
    es.map_values(|e: Event| flip(e))
}

proof fn lemma_flip_all_concat(a: Seq<Event>, b: Seq<Event>)
    ensures
        flip_all(a + b) == flip_all(a) + flip_all(b),
{
    assert forall|i: int|
        0 <= i < (a + b).len() implies flip_all(a + b)[i] == (flip_all(a) + flip_all(b))[i] by {
        if i < a.len() {
            assert((a + b)[i] == a[i]);
        } else {
            assert((a + b)[i] == b[i - a.len()]);
        }
    }
    assert(flip_all(a + b) =~= flip_all(a) + flip_all(b));
}

proof fn lemma_flip_all_single(e: Event)
    ensures
        flip_all(seq![e]) == seq![flip(e)],
{
    assert(flip_all(seq![e])[0] == flip(seq![e][0]));
    assert(seq![e][0] == e);
    assert(flip_all(seq![e]) =~= seq![flip(e)]);
}

proof fn lemma_flip_all_empty()
    ensures
        flip_all(Seq::<Event>::empty()) == Seq::<Event>::empty(),
{
    assert(flip_all(Seq::<Event>::empty()) =~= Seq::<Event>::empty());
}

/// Diff is symmetric in structure: the events of comparing `b` to `a`
/// are those of comparing `a` to `b`, each with additions and removals
/// traded and old and new sides swapped, in the same order.
pub proof fn lemma_diff_symmetric(
    f1: ForestV,
    id1: Seq<char>,
    f2: ForestV,
    id2: Seq<char>,
    prefix: Seq<char>,
)
    requires
        forest_wf(f1),
        forest_wf(f2),
        rank_of(f1, id1) >= 0,
        rank_of(f2, id2) >= 0,
    ensures
        diff_events(f2, id2, f1, id1, prefix) == flip_all(
            diff_events(f1, id1, f2, id2, prefix),
        ),
    decreases rank_of(f1, id1) + rank_of(f2, id2), 2int, 0int,
{
    let r1 = rank_of(f1, id1);
    let r2 = rank_of(f2, id2);
    crate::tree::lemma_rank_of(f1, id1);
    crate::tree::lemma_rank_of(f2, id2);
    assert(tree_refs_below(f1[r1].1, f1, r1));
    assert(tree_refs_below(f2[r2].1, f2, r2));
    lemma_entries_symmetric(f1, f1[r1].1, f2, f2[r2].1, prefix, r1, r2);
}

proof fn lemma_entries_symmetric(
    f1: ForestV,
    t1: TreeV,
    f2: ForestV,
    t2: TreeV,
    prefix: Seq<char>,
    r1: int,
    r2: int,
)
    requires
        entries_pre(f1, t1, f2, t2, r1, r2),
    ensures
        entries_events(f2, t2, f1, t1, prefix, r2, r1) == flip_all(
            entries_events(f1, t1, f2, t2, prefix, r1, r2),
        ),
    decreases r1 + r2, 1int, t1.len() + t2.len(),
{
    assert(entries_pre(f2, t2, f1, t1, r2, r1));
    let fwd = entries_events(f1, t1, f2, t2, prefix, r1, r2);
    let rev = entries_events(f2, t2, f1, t1, prefix, r2, r1);
    if t1.len() == 0 && t2.len() == 0 {
        lemma_flip_all_empty();
    } else if t1.len() == 0 {
        assert(t2.drop_first() =~= t2.skip(1));
        lemma_refs_below_skip(t2, f2, r2, 1);
        lemma_entries_symmetric(f1, t1, f2, t2.drop_first(), prefix, r1, r2);
        let e = Event::Added { path: joined(prefix, t2[0].0), node: t2[0].1 };
        lemma_flip_all_concat(seq![e], entries_events(f1, t1, f2, t2.drop_first(), prefix, r1, r2));
        lemma_flip_all_single(e);
    } else if t2.len() == 0 {
        assert(t1.drop_first() =~= t1.skip(1));
        lemma_refs_below_skip(t1, f1, r1, 1);
        lemma_entries_symmetric(f1, t1.drop_first(), f2, t2, prefix, r1, r2);
        let e = Event::Removed { path: joined(prefix, t1[0].0), node: t1[0].1 };
        lemma_flip_all_concat(seq![e], entries_events(f1, t1.drop_first(), f2, t2, prefix, r1, r2));
        lemma_flip_all_single(e);
    } else if t1[0].0 == t2[0].0 {
        assert(t1.drop_first() =~= t1.skip(1));
        assert(t2.drop_first() =~= t2.skip(1));
        lemma_refs_below_skip(t1, f1, r1, 1);
        lemma_refs_below_skip(t2, f2, r2, 1);
        assert(crate::tree::node_refs_below(t1[0].1, f1, r1));
        assert(crate::tree::node_refs_below(t2[0].1, f2, r2));
        lemma_pair_symmetric(f1, t1[0].1, f2, t2[0].1, joined(prefix, t1[0].0));
        lemma_entries_symmetric(f1, t1.drop_first(), f2, t2.drop_first(), prefix, r1, r2);
        lemma_flip_all_concat(
            pair_events(f1, t1[0].1, f2, t2[0].1, joined(prefix, t1[0].0)),
            entries_events(f1, t1.drop_first(), f2, t2.drop_first(), prefix, r1, r2),
        );
    } else if strutil::lex_lt(t1[0].0, t2[0].0) {
        strutil::lemma_lex_asymmetric(t1[0].0, t2[0].0);
        assert(t1.drop_first() =~= t1.skip(1));
        lemma_refs_below_skip(t1, f1, r1, 1);
        lemma_entries_symmetric(f1, t1.drop_first(), f2, t2, prefix, r1, r2);
        let e = Event::Removed { path: joined(prefix, t1[0].0), node: t1[0].1 };
        lemma_flip_all_concat(seq![e], entries_events(f1, t1.drop_first(), f2, t2, prefix, r1, r2));
        lemma_flip_all_single(e);
    } else {
        strutil::lemma_lex_trichotomy(t1[0].0, t2[0].0);
        assert(strutil::lex_lt(t2[0].0, t1[0].0));
        strutil::lemma_lex_asymmetric(t2[0].0, t1[0].0);
        assert(t2.drop_first() =~= t2.skip(1));
        lemma_refs_below_skip(t2, f2, r2, 1);
        lemma_entries_symmetric(f1, t1, f2, t2.drop_first(), prefix, r1, r2);
        let e = Event::Added { path: joined(prefix, t2[0].0), node: t2[0].1 };
        lemma_flip_all_concat(seq![e], entries_events(f1, t1, f2, t2.drop_first(), prefix, r1, r2));
        lemma_flip_all_single(e);
    }
}

proof fn lemma_pair_symmetric(f1: ForestV, n1: NodeV, f2: ForestV, n2: NodeV, path: Seq<char>)
    requires
        pair_pre(f1, n1, f2, n2),
    ensures
        pair_events(f2, n2, f1, n1, path) == flip_all(pair_events(f1, n1, f2, n2, path)),
    decreases sub_rank(f1, n1) + sub_rank(f2, n2), 0int, 0int,
{
    assert(pair_pre(f2, n2, f1, n1));
    let fwd = pair_events(f1, n1, f2, n2, path);
    let rev = pair_events(f2, n2, f1, n1, path);
    if kind_of(n1) == kind_of(n2) && kind_of(n1) != NodeType::Directory {
        if n1.contents == n2.contents && n1.metadata == n2.metadata {
            assert(n1 == n2);
        }
        lemma_flip_all_single(fwd[0]);
        assert(fwd =~= seq![fwd[0]]);
        assert(rev =~= flip_all(fwd));
    } else if kind_of(n1) == NodeType::Directory && kind_of(n2) == NodeType::Directory {
        if n1.contents != n2.contents {
            let s1 = match n1.contents {
                ContentsV::Directory { subtree } => subtree,
                _ => Seq::empty(),
            };
            let s2 = match n2.contents {
                ContentsV::Directory { subtree } => subtree,
                _ => Seq::empty(),
            };
            lemma_diff_symmetric(f1, s1, f2, s2, path);
            let meta_fwd: Seq<Event> = if n1.metadata != n2.metadata {
                seq![
                    Event::MetadataChanged { path, old_node: n1, new_node: n2 },
                ]
            } else {
                Seq::empty()
            };
            let meta_rev: Seq<Event> = if n1.metadata != n2.metadata {
                seq![
                    Event::MetadataChanged { path, old_node: n2, new_node: n1 },
                ]
            } else {
                Seq::empty()
            };
            lemma_flip_all_concat(diff_events(f1, s1, f2, s2, path), meta_fwd);
            if n1.metadata != n2.metadata {
                lemma_flip_all_single(meta_fwd[0]);
                assert(meta_fwd =~= seq![meta_fwd[0]]);
                assert(flip_all(meta_fwd) =~= meta_rev);
            } else {
                lemma_flip_all_empty();
            }
            assert(rev =~= flip_all(fwd));
        } else {
            if n1.metadata == n2.metadata {
                assert(n1 == n2);
            }
            lemma_flip_all_single(fwd[0]);
            assert(fwd =~= seq![fwd[0]]);
            assert(rev =~= flip_all(fwd));
        }
    } else {
        lemma_flip_all_single(fwd[0]);
        assert(fwd =~= seq![fwd[0]]);
        assert(rev =~= flip_all(fwd));
    }
}

/// Provide an empty forest and an ID for the empty tree it holds.
/// Useful for comparisons to nothing (e.g., the first snapshot's diff).
/// The identifier is the canonical rendering under which the empty tree
/// stands.
pub fn null_forest() -> (r: (ObjectId, Forest))
    ensures
        r.0.wf(),
        r.0@ == seq!['n', 'u', 'l', 'l', 't', 'r', 'e', 'e'],
        r.1.wf(),
        r.1@.len() == 1,
        rank_of(r.1@, r.0@) == 0,
        r.1@[0].0 == r.0@,
        r.1@[0].1 == Seq::<(Seq<char>, NodeV)>::empty(),
{
    proof {
        reveal_strlit("nulltree");
        assert("nulltree"@ =~= seq!['n', 'u', 'l', 'l', 't', 'r', 'e', 'e']);
        assert(crate::hashing::valid_id("nulltree"@));
    }
    let id = ObjectId::from_valid("nulltree");
    let empty_tree = Tree::new();
    let mut empty_forest = Forest::new();
    let id2 = id.clone_id();
    let res = empty_forest.insert(id, empty_tree);
    proof {
        crate::tree::lemma_rank_of(empty_forest@, id2@);
        assert(res is Ok);
        assert(empty_forest@[0].0 == id2@);
        assert(rank_of(empty_forest@, id2@) == 0);
    }
    (id2, empty_forest)
}

/// What a recorder keeps of one reported difference.
#[derive(Clone, Copy, Debug, PartialEq, Eq, Structural)]
pub enum EventKind {
    Added,
    Removed,
    ContentsChanged,
    MetadataChanged,
    NothingChanged,
}

/// One logged difference: its kind, joined path, and the nodes involved.
pub struct RecordedEvent {
    pub kind: EventKind,
    pub path: String,
    pub old_node: Option<Node>,
    pub new_node: Option<Node>,
}

/// The event a log entry stands for.
pub open spec fn rec_event(r: RecordedEvent) -> Event {
    match r.kind {
        EventKind::Added => Event::Added { path: r.path@, node: (r.new_node->0)@ },
        EventKind::Removed => Event::Removed { path: r.path@, node: (r.old_node->0)@ },
        EventKind::ContentsChanged => Event::ContentsChanged {
            path: r.path@,
            old_node: (r.old_node->0)@,
            new_node: (r.new_node->0)@,
        },
        EventKind::MetadataChanged => Event::MetadataChanged {
            path: r.path@,
            old_node: (r.old_node->0)@,
            new_node: (r.new_node->0)@,
        },
        EventKind::NothingChanged => Event::NothingChanged {
            path: r.path@,
            node: (r.new_node->0)@,
        },
    }
}

/// The events a log stands for.
pub open spec fn log_events(s: Seq<RecordedEvent>) -> Seq<Event> {
    s.map_values(|r: RecordedEvent| rec_event(r))
}

proof fn lemma_log_events_push(s: Seq<RecordedEvent>, r: RecordedEvent)
    ensures
        log_events(s.push(r)) == log_events(s).push(rec_event(r)),
{
    assert forall|i: int|
        0 <= i < s.len() + 1 implies log_events(s.push(r))[i] == log_events(s).push(
        rec_event(r),
    )[i] by {
        if i < s.len() {
            assert(s.push(r)[i] == s[i]);
        } else {
            assert(s.push(r)[i] == r);
        }
    }
    assert(log_events(s.push(r)) =~= log_events(s).push(rec_event(r)));
}

/// A callback consumer that records every reported difference.
pub struct DiffRecorder {
    log: Vec<RecordedEvent>,
}

impl DiffRecorder {
    pub fn new() -> (r: DiffRecorder)
        ensures
            r.events() == Seq::<Event>::empty(),
            r.log_view().len() == 0,
    {
        let r = DiffRecorder { log: Vec::new() };
        proof {
            assert(log_events(r.log@) =~= Seq::<Event>::empty());
        }
        r
    }

    pub closed spec fn log_view(&self) -> Seq<RecordedEvent> {
        self.log@
    }

    /// The differences recorded so far, in report order.
    pub fn recorded(&self) -> (r: &Vec<RecordedEvent>)
        ensures
            r@ == self.log_view(),
            log_events(r@) == self.events(),
    {
        &self.log
    }
}

impl Callbacks for DiffRecorder {
    closed spec fn events(&self) -> Seq<Event> {
        log_events(self.log@)
    }

    fn node_added(&mut self, node_path: &str, new_node: &Node, forest: &Forest) -> (r: Result<
        (),
        Error,
    >) {
        let entry = RecordedEvent {
            kind: EventKind::Added,
            path: node_path.to_owned(),
            old_node: None,
            new_node: Some(new_node.clone_node()),
        };
        let ghost pre = self.log@;
        let ghost ev = rec_event(entry);
        self.log.push(entry);
        proof {
            lemma_log_events_push(pre, self.log@.last());
        }
        Ok(())
    }

    fn node_removed(&mut self, node_path: &str, old_node: &Node, forest: &Forest) -> (r: Result<
        (),
        Error,
    >) {
        let entry = RecordedEvent {
            kind: EventKind::Removed,
            path: node_path.to_owned(),
            old_node: Some(old_node.clone_node()),
            new_node: None,
        };
        let ghost pre = self.log@;
        self.log.push(entry);
        proof {
            lemma_log_events_push(pre, self.log@.last());
        }
        Ok(())
    }

    fn contents_changed(&mut self, node_path: &str, old_node: &Node, new_node: &Node) -> (r:
        Result<(), Error>) {
        let entry = RecordedEvent {
            kind: EventKind::ContentsChanged,
            path: node_path.to_owned(),
            old_node: Some(old_node.clone_node()),
            new_node: Some(new_node.clone_node()),
        };
        let ghost pre = self.log@;
        self.log.push(entry);
        proof {
            lemma_log_events_push(pre, self.log@.last());
        }
        Ok(())
    }

    fn metadata_changed(&mut self, node_path: &str, old_node: &Node, new_node: &Node) -> (r:
        Result<(), Error>) {
        let entry = RecordedEvent {
            kind: EventKind::MetadataChanged,
            path: node_path.to_owned(),
            old_node: Some(old_node.clone_node()),
            new_node: Some(new_node.clone_node()),
        };
        let ghost pre = self.log@;
        self.log.push(entry);
        proof {
            lemma_log_events_push(pre, self.log@.last());
        }
        Ok(())
    }

    fn nothing_changed(&mut self, node_path: &str, node: &Node) -> (r: Result<(), Error>) {
        let entry = RecordedEvent {
            kind: EventKind::NothingChanged,
            path: node_path.to_owned(),
            old_node: None,
            new_node: Some(node.clone_node()),
        };
        let ghost pre = self.log@;
        self.log.push(entry);
        proof {
            lemma_log_events_push(pre, self.log@.last());
        }
        Ok(())
    }
}

impl RecordedEvent {
    /// Whether this entry reports the given kind at the given path.
    pub fn is_kind_at(&self, kind: EventKind, path: &str) -> (r: bool)
        ensures
            r == (self.kind == kind && self.path@ == path@),
    {
        let same_kind = match (&self.kind, &kind) {
            (EventKind::Added, EventKind::Added) => true,
            (EventKind::Removed, EventKind::Removed) => true,
            (EventKind::ContentsChanged, EventKind::ContentsChanged) => true,
            (EventKind::MetadataChanged, EventKind::MetadataChanged) => true,
            (EventKind::NothingChanged, EventKind::NothingChanged) => true,
            _ => false,
        };
        proof {
            assert(same_kind == (self.kind == kind));
        }
        same_kind && strutil::str_eq(self.path.as_str(), path)
    }
}

/// The ` -> target` tail shown for a symlink node, empty otherwise.
pub open spec fn node_suffix(n: Option<Node>) -> Seq<char> {
    match n {
        Some(node) => match node@.contents {
            ContentsV::Symlink { target } => seq![' ', '-', '>', ' '] + target,
            _ => Seq::empty(),
        },
        None => Seq::empty(),
    }
}

/// The lines one logged difference prints: `+` and `-` lines carry the
/// node (symlinks with their target), a changed file is a `C` line, a
/// changed symlink is shown as its removal and addition, and a metadata
/// change is a category-letter line when metadata printing is on.
pub open spec fn render_entry(r: RecordedEvent, metadata: bool) -> Seq<Seq<char>> {
    match r.kind {
        EventKind::Added => seq![seq!['+', ' '] + r.path@ + node_suffix(r.new_node)],
        EventKind::Removed => seq![seq!['-', ' '] + r.path@ + node_suffix(r.old_node)],
        EventKind::ContentsChanged => match r.old_node {
            Some(o) => if o@.contents is Symlink {
                seq![
                    seq!['-', ' '] + r.path@ + node_suffix(r.old_node),
                    seq!['+', ' '] + r.path@ + node_suffix(r.new_node),
                ]
            } else {
                seq![seq!['C', ' '] + r.path@]
            },
            None => seq![seq!['C', ' '] + r.path@],
        },
        EventKind::MetadataChanged => if metadata {
            match (r.old_node, r.new_node) {
                (Some(a), Some(b)) => match crate::tree::meta_diff_char_spec(
                    a@.metadata,
                    b@.metadata,
                ) {
                    Some(c) => seq![seq![c, ' '] + r.path@],
                    None => Seq::empty(),
                },
                _ => Seq::empty(),
            }
        } else {
            Seq::empty()
        },
        EventKind::NothingChanged => Seq::empty(),
    }
}

/// The lines a whole log prints, in order.
pub open spec fn render_log(s: Seq<RecordedEvent>, metadata: bool) -> Seq<Seq<char>>
    decreases s.len(),
{
    if s.len() == 0 {
        Seq::empty()
    } else {
        render_log(s.drop_last(), metadata) + render_entry(s.last(), metadata)
    }
}

/// The views of a run of rendered lines.
pub open spec fn strings_view(s: Seq<String>) -> Seq<Seq<char>> {
    s.map_values(|l: String| l@)
}

fn render_suffix(n: &Option<Node>) -> (r: String)
    ensures
        r@ == node_suffix(*n),
{
    proof {
        reveal_strlit(" -> ");
        assert(" -> "@ =~= seq![' ', '-', '>', ' ']);
    }
    match n {
        Some(node) => match &node.contents {
            crate::tree::NodeContents::Symlink { target } => strutil::concat_strs(
                " -> ",
                target.as_str(),
            ),
            _ => String::new(),
        },
        None => String::new(),
    }
}

fn render_entry_lines(r: &RecordedEvent, metadata: bool) -> (out: Vec<String>)
    ensures
        strings_view(out@) == render_entry(*r, metadata),
{
    proof {
        reveal_strlit("+ ");
        reveal_strlit("- ");
        reveal_strlit("C ");
        assert("+ "@ =~= seq!['+', ' ']);
        assert("- "@ =~= seq!['-', ' ']);
        assert("C "@ =~= seq!['C', ' ']);
    }
    let mut out: Vec<String> = Vec::new();
    match &r.kind {
        EventKind::Added => {
            let mut line = strutil::concat_strs("+ ", r.path.as_str());
            let suffix = render_suffix(&r.new_node);
            line.append(suffix.as_str());
            out.push(line);
        },
        EventKind::Removed => {
            let mut line = strutil::concat_strs("- ", r.path.as_str());
            let suffix = render_suffix(&r.old_node);
            line.append(suffix.as_str());
            out.push(line);
        },
        EventKind::ContentsChanged => {
            let symlink = match &r.old_node {
                Some(o) => matches!(o.kind(), crate::tree::NodeType::Symlink),
                None => false,
            };
            if symlink {
                let mut gone = strutil::concat_strs("- ", r.path.as_str());
                let old_suffix = render_suffix(&r.old_node);
                gone.append(old_suffix.as_str());
                out.push(gone);
                let mut came = strutil::concat_strs("+ ", r.path.as_str());
                let new_suffix = render_suffix(&r.new_node);
                came.append(new_suffix.as_str());
                out.push(came);
            } else {
                out.push(strutil::concat_strs("C ", r.path.as_str()));
            }
        },
        EventKind::MetadataChanged => {
            if metadata {
                if let (Some(a), Some(b)) = (&r.old_node, &r.new_node) {
                    if let Some(c) = crate::tree::meta_diff_char(&a.metadata, &b.metadata) {
                        let mut line = String::new();
                        strutil::push_char(&mut line, c);
                        strutil::push_char(&mut line, ' ');
                        line.append(r.path.as_str());
                        proof {
                            assert(line@ =~= seq![c, ' '] + r.path@);
                        }
                        out.push(line);
                    }
                }
            }
        },
        EventKind::NothingChanged => {},
    }
    proof {
        assert(strings_view(out@) =~= render_entry(*r, metadata)) by {
            assert(forall|i: int|
                0 <= i < out@.len() ==> strings_view(out@)[i] == #[trigger] out@[i]@);
        }
    }
    out
}

/// A callback consumer that renders each difference the way the diff
/// listing shows it, one marker character and a path per line.
pub struct PrintDiffs {
    /// Whether metadata changes are printed.
    pub metadata: bool,
    log: Vec<RecordedEvent>,
}

impl Default for PrintDiffs {
    /// A printer that leaves metadata changes out.
    fn default() -> (r: Self)
        ensures
            !r.metadata_view(),
            r.events() == Seq::<Event>::empty(),
    {
        let r = PrintDiffs { metadata: false, log: Vec::new() };
        proof {
            assert(log_events(r.log@) =~= Seq::<Event>::empty());
        }
        r
    }
}

impl PrintDiffs {
    pub fn new(metadata: bool) -> (r: PrintDiffs)
        ensures
            r.metadata_view() == metadata,
            r.events() == Seq::<Event>::empty(),
            r.log_view().len() == 0,
    {
        let r = PrintDiffs { metadata, log: Vec::new() };
        proof {
            assert(log_events(r.log@) =~= Seq::<Event>::empty());
        }
        r
    }

    pub closed spec fn log_view(&self) -> Seq<RecordedEvent> {
        self.log@
    }

    /// Whether metadata changes are printed.
    pub closed spec fn metadata_view(&self) -> bool {
        self.metadata
    }

    /// The rendered diff listing for everything reported so far.
    pub fn lines(&self) -> (r: Vec<String>)
        ensures
            strings_view(r@) == render_log(self.log_view(), self.metadata_view()),
    {
        let n = self.log.len();
        let mut r: Vec<String> = Vec::new();
        let mut i: usize = 0;
        proof {
            assert(strings_view(r@) =~= Seq::<Seq<char>>::empty());
            assert(render_log(self.log@.take(0), self.metadata) =~= Seq::<Seq<char>>::empty())
                by {
                assert(self.log@.take(0) =~= Seq::<RecordedEvent>::empty());
            }
        }
        while i < n
            invariant
                n == self.log@.len(),
                i <= n,
                strings_view(r@) == render_log(self.log@.take(i as int), self.metadata),
            decreases n - i,
        {
            let ghost pre = r@;
            let mut entry_lines = render_entry_lines(&self.log[i], self.metadata);
            r.append(&mut entry_lines);
            proof {
                assert(self.log@.take(i as int + 1).drop_last() =~= self.log@.take(i as int));
                assert(self.log@.take(i as int + 1).last() == self.log@[i as int]);
                assert(strings_view(r@) =~= strings_view(pre) + render_entry(
                    self.log@[i as int],
                    self.metadata,
                )) by {
                    assert(forall|a: int|
                        0 <= a < r@.len() ==> strings_view(r@)[a] == #[trigger] r@[a]@);
                    assert(forall|a: int|
                        0 <= a < pre.len() ==> strings_view(pre)[a] == #[trigger] pre[a]@);
                }
            }
            i += 1;
        }
        proof {
            assert(self.log@.take(n as int) =~= self.log@);
        }
        r
    }
}

impl Callbacks for PrintDiffs {
    closed spec fn events(&self) -> Seq<Event> {
        log_events(self.log@)
    }

    fn node_added(&mut self, node_path: &str, new_node: &Node, forest: &Forest) -> (r: Result<
        (),
        Error,
    >) {
        let entry = RecordedEvent {
            kind: EventKind::Added,
            path: node_path.to_owned(),
            old_node: None,
            new_node: Some(new_node.clone_node()),
        };
        let ghost pre = self.log@;
        self.log.push(entry);
        proof {
            lemma_log_events_push(pre, self.log@.last());
        }
        Ok(())
    }

    fn node_removed(&mut self, node_path: &str, old_node: &Node, forest: &Forest) -> (r: Result<
        (),
        Error,
    >) {
        let entry = RecordedEvent {
            kind: EventKind::Removed,
            path: node_path.to_owned(),
            old_node: Some(old_node.clone_node()),
            new_node: None,
        };
        let ghost pre = self.log@;
        self.log.push(entry);
        proof {
            lemma_log_events_push(pre, self.log@.last());
        }
        Ok(())
    }

    fn contents_changed(&mut self, node_path: &str, old_node: &Node, new_node: &Node) -> (r:
        Result<(), Error>) {
        let entry = RecordedEvent {
            kind: EventKind::ContentsChanged,
            path: node_path.to_owned(),
            old_node: Some(old_node.clone_node()),
            new_node: Some(new_node.clone_node()),
        };
        let ghost pre = self.log@;
        self.log.push(entry);
        proof {
            lemma_log_events_push(pre, self.log@.last());
        }
        Ok(())
    }

    fn metadata_changed(&mut self, node_path: &str, old_node: &Node, new_node: &Node) -> (r:
        Result<(), Error>) {
        let entry = RecordedEvent {
            kind: EventKind::MetadataChanged,
            path: node_path.to_owned(),
            old_node: Some(old_node.clone_node()),
            new_node: Some(new_node.clone_node()),
        };
        let ghost pre = self.log@;
        self.log.push(entry);
        proof {
            lemma_log_events_push(pre, self.log@.last());
        }
        Ok(())
    }

    fn nothing_changed(&mut self, node_path: &str, node: &Node) -> (r: Result<(), Error>) {
        let entry = RecordedEvent {
            kind: EventKind::NothingChanged,
            path: node_path.to_owned(),
            old_node: None,
            new_node: Some(node.clone_node()),
        };
        let ghost pre = self.log@;
        self.log.push(entry);
        proof {
            lemma_log_events_push(pre, self.log@.last());
        }
        Ok(())
    }
}

} // verus!
