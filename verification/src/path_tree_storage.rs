//! The hierarchical path tree.
//!
//! An insert-only trie over path segments. Each node owns a mapping from
//! the next segment name to a child node and, when it stands for an actual
//! asset, a single identifier. Intermediate segments are materialized
//! lazily while a path is inserted.

use crate::ansi::ansi_blue;
use crate::ansi::ansi_green;
use crate::ansi::ansi_grey;
use crate::ansi::ansi_red;
use crate::ansi::ansi_reset;
use crate::ansi::ansi_white;
use crate::asset_path::spec_strip_meta;
use crate::asset_path::strip_meta_path;
use crate::uuid::Uuid;
use crate::uuid::spec_render_uuid;
use crate::uuid_storage::EntryView;
use crate::uuid_storage::UuidStorage;
use crate::uuid_storage::ledger_get;
use vstd::prelude::*;
use vstd::string::*;

verus! {

/// The tree's fatal failure: two identifiers assigned to one node.
#[derive(Clone, Copy, Debug, PartialEq, Eq, Structural)]
pub enum TreeError {
    /// A second identifier was assigned to the same path within one tree, a
    /// breach of the caller-side invariant that the ledger's conflict guard
    /// upholds.
    DuplicateAssignment,
}

/// One path segment: an optional identifier (present on nodes that stand
/// for an actual asset) and the children keyed by segment name.
pub struct TreeNode {
    pub uuid: Option<Uuid>,
    pub entries: Vec<(String, TreeNode)>,
}

/// The mathematical content of one tree node.
pub struct TreeView {
    pub uuid: Option<Seq<u8>>,
    pub entries: Seq<(Seq<char>, TreeView)>,
}

/// The mathematical content of a node.
pub open spec fn node_view(n: TreeNode) -> TreeView
    decreases n,
    via node_view_decreases
{
    TreeView {
        uuid: match n.uuid {
            Some(u) => Some(u@),
            None => None,
        },
        entries: Seq::new(
            n.entries@.len(),
            |i: int|
                if 0 <= i < n.entries@.len() {
                    (n.entries@[i].0@, node_view(n.entries@[i].1))
                } else {
                    (Seq::empty(), TreeView { uuid: None, entries: Seq::empty() })
                },
        ),
    }
}

#[via_fn]
proof fn node_view_decreases(n: TreeNode) {
    broadcast use vstd::std_specs::vec::axiom_vec_decreases_to_view;
    broadcast use vstd::seq::axiom_seq_index_decreases;

    assert forall|i: int| 0 <= i < n.entries@.len() implies (decreases_to!(n
        => n.entries@[i].1)) by {
        assert(decreases_to!(n => n.entries));
        assert(decreases_to!(n.entries => n.entries@));
        assert(decreases_to!(n.entries@ => n.entries@[i]));
        assert(decreases_to!(n.entries@[i] => n.entries@[i].1));
    }
}

/// The mathematical content of a list of named children.
pub open spec fn entries_view(es: Seq<(String, TreeNode)>) -> Seq<(Seq<char>, TreeView)> {
    Seq::new(es.len(), |i: int| (es[i].0@, node_view(es[i].1)))
}

/// The first child stored under `name`.
pub open spec fn spec_child(es: Seq<(Seq<char>, TreeView)>, name: Seq<char>) -> Option<TreeView>
    decreases es.len(),
{
    if es.len() == 0 {
        None
    } else if es[0].0 == name {
        Some(es[0].1)
    } else {
        spec_child(es.drop_first(), name)
    }
}

/// The identifier stored at the end of `path`, walking from the children
/// list `es`.
pub open spec fn spec_uuid_at(es: Seq<(Seq<char>, TreeView)>, path: Seq<Seq<char>>) -> Option<
    Seq<u8>,
>
    decreases path.len(),
{
    if path.len() == 0 {
        None
    } else {
        match spec_child(es, path[0]) {
            None => None,
            Some(c) => if path.len() == 1 {
                c.uuid
            } else {
                spec_uuid_at(c.entries, path.drop_first())
            },
        }
    }
}

/// A fresh chain of nodes for the segments of `rest`, carrying `id` on the
/// final node.
pub open spec fn spec_new_chain(rest: Seq<Seq<char>>, id: Seq<u8>) -> TreeView
    decreases rest.len(),
{
    if rest.len() == 0 {
        TreeView { uuid: Some(id), entries: Seq::empty() }
    } else {
        TreeView {
            uuid: None,
            entries: seq![(rest[0], spec_new_chain(rest.drop_first(), id))],
        }
    }
}

/// The children list after inserting `id` at `path`: the walk follows the
/// first child matching each segment, materializes missing segments, and
/// sets the identifier on the final segment's node.
pub open spec fn spec_insert_entries(
    es: Seq<(Seq<char>, TreeView)>,
    path: Seq<Seq<char>>,
    id: Seq<u8>,
) -> Seq<(Seq<char>, TreeView)>
    decreases path.len(), es.len() + 1,
{
    if path.len() == 0 {
        es
    } else if es.len() == 0 {
        es.push((path[0], spec_new_chain(path.drop_first(), id)))
    } else if es[0].0 == path[0] {
        seq![(es[0].0, spec_insert_node(es[0].1, path.drop_first(), id))] + es.drop_first()
    } else {
        seq![es[0]] + spec_insert_entries(es.drop_first(), path, id)
    }
}

/// The node `t` after inserting `id` at the end of the remaining segments.
pub open spec fn spec_insert_node(t: TreeView, rest: Seq<Seq<char>>, id: Seq<u8>) -> TreeView
    decreases rest.len() + 1, 0nat,
{
    if rest.len() == 0 {
        TreeView { uuid: Some(id), entries: t.entries }
    } else {
        TreeView { uuid: t.uuid, entries: spec_insert_entries(t.entries, rest, id) }
    }
}

/// Walking a freshly materialized chain of segments finds the identifier
/// on its final node.
proof fn lemma_chain_uuid_at(path: Seq<Seq<char>>, id: Seq<u8>)
    requires
        path.len() > 0,
    ensures
        spec_uuid_at(seq![(path[0], spec_new_chain(path.drop_first(), id))], path) == Some(id),
    decreases path.len(),
{
    let es = seq![(path[0], spec_new_chain(path.drop_first(), id))];
    assert(spec_child(es, path[0]) == Some(spec_new_chain(path.drop_first(), id)));
    if path.len() > 1 {
        let rest = path.drop_first();
        lemma_chain_uuid_at(rest, id);
        assert(spec_new_chain(rest, id).entries == seq![
            (rest[0], spec_new_chain(rest.drop_first(), id)),
        ]);
    }
}

/// Inserting a path attaches the identifier to that path's terminal
/// segment: the walk that follows finds exactly it.
pub proof fn lemma_insert_sets_uuid(es: Seq<(Seq<char>, TreeView)>, path: Seq<Seq<char>>, id: Seq<
    u8,
>)
    requires
        path.len() > 0,
    ensures
        spec_uuid_at(spec_insert_entries(es, path, id), path) == Some(id),
    decreases path.len(), es.len(),
{
    let result = spec_insert_entries(es, path, id);
    if es.len() == 0 {
        assert(result =~= seq![(path[0], spec_new_chain(path.drop_first(), id))]);
        lemma_chain_uuid_at(path, id);
    } else if es[0].0 == path[0] {
        let node2 = spec_insert_node(es[0].1, path.drop_first(), id);
        assert(result == seq![(es[0].0, node2)] + es.drop_first());
        assert(result[0] == (path[0], node2));
        assert(spec_child(result, path[0]) == Some(node2));
        if path.len() > 1 {
            lemma_insert_sets_uuid(es[0].1.entries, path.drop_first(), id);
        }
    } else {
        lemma_insert_sets_uuid(es.drop_first(), path, id);
        assert(result == seq![es[0]] + spec_insert_entries(es.drop_first(), path, id));
        assert(result[0] == es[0]);
        assert(result.drop_first() =~= spec_insert_entries(es.drop_first(), path, id));
        assert(spec_child(result, path[0]) == spec_child(result.drop_first(), path[0]));
    }
}

/// Two paths with the same head and the same tail are the same path.
proof fn lemma_same_head_tail(q: Seq<Seq<char>>, path: Seq<Seq<char>>)
    requires
        q.len() > 0,
        path.len() > 0,
        q[0] == path[0],
        q.drop_first() =~= path.drop_first(),
    ensures
        q == path,
{
    assert(q.drop_first().len() == q.len() - 1);
    assert(path.drop_first().len() == path.len() - 1);
    assert(q.len() == path.len());
    assert forall|i: int| 0 <= i < q.len() implies q[i] == path[i] by {
        if i > 0 {
            assert(q[i] == q.drop_first()[i - 1]);
            assert(path[i] == path.drop_first()[i - 1]);
        }
    }
    assert(q =~= path);
}

/// Inserting one path never disturbs the identifier stored at any other
/// path.
pub proof fn lemma_insert_frames_others(
    es: Seq<(Seq<char>, TreeView)>,
    path: Seq<Seq<char>>,
    id: Seq<u8>,
    q: Seq<Seq<char>>,
)
    requires
        path.len() > 0,
        q.len() > 0,
        q != path,
    ensures
        spec_uuid_at(spec_insert_entries(es, path, id), q) == spec_uuid_at(es, q),
    decreases path.len(), es.len(),
{
    let result = spec_insert_entries(es, path, id);
    if es.len() == 0 {
        let chain = spec_new_chain(path.drop_first(), id);
        assert(result =~= seq![(path[0], chain)]);
        assert(spec_uuid_at(es, q) is None);
        if q[0] != path[0] {
            assert(spec_child(result, q[0]) == spec_child(result.drop_first(), q[0]));
            assert(result.drop_first() =~= Seq::<(Seq<char>, TreeView)>::empty());
            assert(spec_child(result, q[0]) is None);
        } else {
            assert(spec_child(result, q[0]) == Some(chain));
            if path.len() == 1 {
                // q shares the head but differs, so q walks on below a leaf
                // whose children list is empty.
                if q.len() == 1 {
                    lemma_same_head_tail(q, path);
                }
                assert(q.len() > 1);
                assert(chain.entries =~= Seq::<(Seq<char>, TreeView)>::empty());
                assert(spec_child(chain.entries, q.drop_first()[0]) is None);
            } else {
                assert(chain.uuid is None);
                if q.len() > 1 {
                    assert(chain.entries =~= spec_insert_entries(
                        Seq::<(Seq<char>, TreeView)>::empty(),
                        path.drop_first(),
                        id,
                    ));
                    if q.drop_first() != path.drop_first() {
                        lemma_insert_frames_others(
                            Seq::<(Seq<char>, TreeView)>::empty(),
                            path.drop_first(),
                            id,
                            q.drop_first(),
                        );
                        assert(spec_uuid_at(
                            Seq::<(Seq<char>, TreeView)>::empty(),
                            q.drop_first(),
                        ) is None);
                    } else {
                        lemma_same_head_tail(q, path);
                    }
                }
            }
        }
    } else if es[0].0 == path[0] {
        let node2 = spec_insert_node(es[0].1, path.drop_first(), id);
        assert(result == seq![(es[0].0, node2)] + es.drop_first());
        assert(result[0] == (path[0], node2));
        if q[0] != path[0] {
            assert(spec_child(result, q[0]) == spec_child(result.drop_first(), q[0]));
            assert(result.drop_first() =~= es.drop_first());
            assert(spec_child(es, q[0]) == spec_child(es.drop_first(), q[0]));
        } else {
            assert(spec_child(result, q[0]) == Some(node2));
            assert(spec_child(es, q[0]) == Some(es[0].1));
            if path.len() == 1 {
                if q.len() == 1 {
                    lemma_same_head_tail(q, path);
                }
                assert(q.len() > 1);
                assert(node2.entries == es[0].1.entries);
            } else {
                assert(node2.uuid == es[0].1.uuid);
                if q.len() > 1 {
                    if q.drop_first() != path.drop_first() {
                        lemma_insert_frames_others(
                            es[0].1.entries,
                            path.drop_first(),
                            id,
                            q.drop_first(),
                        );
                    } else {
                        lemma_same_head_tail(q, path);
                    }
                }
            }
        }
    } else {
        assert(result == seq![es[0]] + spec_insert_entries(es.drop_first(), path, id));
        assert(result[0] == es[0]);
        assert(result.drop_first() =~= spec_insert_entries(es.drop_first(), path, id));
        if q[0] == es[0].0 {
            assert(spec_child(result, q[0]) == Some(es[0].1));
            assert(spec_child(es, q[0]) == Some(es[0].1));
        } else {
            lemma_insert_frames_others(es.drop_first(), path, id, q);
            assert(spec_child(result, q[0]) == spec_child(result.drop_first(), q[0]));
            assert(spec_child(es, q[0]) == spec_child(es.drop_first(), q[0]));
        }
    }
}

/// Lexicographic order on segment names, by character code.
pub open spec fn seq_lt(a: Seq<char>, b: Seq<char>) -> bool
    decreases a.len(),
{
    if b.len() == 0 {
        false
    } else if a.len() == 0 {
        true
    } else if a[0] != b[0] {
        (a[0] as int) < (b[0] as int)
    } else {
        seq_lt(a.drop_first(), b.drop_first())
    }
}

/// Comparing two names is settled by the characters after their common
/// prefix.
proof fn lemma_seq_lt_skip(a: Seq<char>, b: Seq<char>, i: int)
    requires
        0 <= i <= a.len(),
        i <= b.len(),
        forall|j: int| 0 <= j < i ==> a[j] == b[j],
    ensures
        seq_lt(a, b) == seq_lt(a.skip(i), b.skip(i)),
    decreases i,
{
    if i > 0 {
        assert(a[0] == b[0]);
        assert forall|j: int| 0 <= j < i - 1 implies a.drop_first()[j] == b.drop_first()[j] by {
            assert(a.drop_first()[j] == a[j + 1]);
            assert(b.drop_first()[j] == b[j + 1]);
        }
        lemma_seq_lt_skip(a.drop_first(), b.drop_first(), i - 1);
        assert(a.drop_first().skip(i - 1) =~= a.skip(i));
        assert(b.drop_first().skip(i - 1) =~= b.skip(i));
    } else {
        assert(a.skip(0) =~= a);
        assert(b.skip(0) =~= b);
    }
}

/// Whether `a` orders strictly before `b`.
fn str_lt(a: &String, b: &String) -> (r: bool)
    ensures
        r == seq_lt(a@, b@),
{
    let la = a.as_str().unicode_len();
    let lb = b.as_str().unicode_len();
    let mut i: usize = 0;
    loop
        invariant
            i <= la,
            i <= lb,
            la == a@.len(),
            lb == b@.len(),
            forall|j: int| 0 <= j < i ==> a@[j] == b@[j],
        decreases la - i,
    {
        proof {
            lemma_seq_lt_skip(a@, b@, i as int);
        }
        if i >= lb {
            proof {
                assert(b@.skip(i as int).len() == 0);
            }
            return false;
        }
        if i >= la {
            proof {
                assert(a@.skip(i as int).len() == 0);
            }
            return true;
        }
        let ca = a.as_str().get_char(i);
        let cb = b.as_str().get_char(i);
        if ca != cb {
            proof {
                assert(a@.skip(i as int)[0] == ca);
                assert(b@.skip(i as int)[0] == cb);
            }
            return (ca as u32) < (cb as u32);
        }
        i += 1;
    }
}

/// The names of a children list, in stored order.
pub open spec fn entry_names(es: Seq<(Seq<char>, TreeView)>) -> Seq<Seq<char>> {
    Seq::new(es.len(), |i: int| es[i].0)
}

/// `sorted` with the index `j` inserted before the first name it orders
/// strictly below.
pub open spec fn spec_ins_idx(names: Seq<Seq<char>>, sorted: Seq<int>, j: int) -> Seq<int>
    decreases sorted.len(),
{
    if sorted.len() == 0 {
        seq![j]
    } else if seq_lt(names[j], names[sorted[0]]) {
        seq![j] + sorted
    } else {
        seq![sorted[0]] + spec_ins_idx(names, sorted.drop_first(), j)
    }
}

/// The first `n` indices, insertion-sorted by name.
pub open spec fn spec_sort_idx_upto(names: Seq<Seq<char>>, n: int) -> Seq<int>
    decreases n,
{
    if n <= 0 {
        Seq::empty()
    } else {
        spec_ins_idx(names, spec_sort_idx_upto(names, n - 1), n - 1)
    }
}

/// Every index, insertion-sorted by name: the order in which children are
/// rendered.
pub open spec fn spec_sort_idx(names: Seq<Seq<char>>) -> Seq<int> {
    spec_sort_idx_upto(names, names.len() as int)
}

/// Inserting at the first position whose name `j`'s name orders below is
/// what `spec_ins_idx` does.
proof fn lemma_ins_shape(names: Seq<Seq<char>>, sorted: Seq<int>, j: int, p: int)
    requires
        0 <= p <= sorted.len(),
        forall|q: int| 0 <= q < p ==> !seq_lt(names[j], names[#[trigger] sorted[q]]),
        p == sorted.len() || seq_lt(names[j], names[sorted[p]]),
    ensures
        spec_ins_idx(names, sorted, j) =~= sorted.take(p) + seq![j] + sorted.skip(p),
    decreases p,
{
    if p == 0 {
    } else {
        lemma_ins_shape(names, sorted.drop_first(), j, p - 1);
        assert(seq![sorted[0]] + (sorted.drop_first().take(p - 1) + seq![j]
            + sorted.drop_first().skip(p - 1)) =~= sorted.take(p) + seq![j] + sorted.skip(p));
    }
}

/// Insertion keeps every index in range and grows the run by one.
proof fn lemma_ins_props(names: Seq<Seq<char>>, sorted: Seq<int>, j: int, bound: int)
    requires
        forall|q: int| 0 <= q < sorted.len() ==> 0 <= #[trigger] sorted[q] < bound,
        0 <= j < bound,
    ensures
        spec_ins_idx(names, sorted, j).len() == sorted.len() + 1,
        forall|q: int|
            0 <= q < sorted.len() + 1 ==> 0 <= #[trigger] spec_ins_idx(names, sorted, j)[q]
                < bound,
    decreases sorted.len(),
{
    if sorted.len() > 0 && !seq_lt(names[j], names[sorted[0]]) {
        lemma_ins_props(names, sorted.drop_first(), j, bound);
    }
}

/// The sorted index run over the first `n` entries holds exactly `n`
/// in-range indices.
proof fn lemma_sort_props(names: Seq<Seq<char>>, n: int, bound: int)
    requires
        0 <= n <= bound,
    ensures
        spec_sort_idx_upto(names, n).len() == n,
        forall|q: int|
            0 <= q < n ==> 0 <= #[trigger] spec_sort_idx_upto(names, n)[q] < bound,
    decreases n,
{
    if n > 0 {
        lemma_sort_props(names, n - 1, bound);
        lemma_ins_props(names, spec_sort_idx_upto(names, n - 1), n - 1, bound);
    }
}

/// The sequence of `usize` indices as mathematical integers.
pub open spec fn idxs_of(s: Seq<usize>) -> Seq<int> {
    Seq::new(s.len(), |i: int| s[i] as int)
}

/// The indices of the children, sorted ascending by segment name: the
/// deterministic render order.
fn sort_indices(entries: &Vec<(String, TreeNode)>) -> (r: Vec<usize>)
    ensures
        idxs_of(r@) == spec_sort_idx(entry_names(entries_view(entries@))),
        r@.len() == entries@.len(),
        forall|q: int| 0 <= q < r@.len() ==> #[trigger] r@[q] < entries@.len(),
{
    let ghost names = entry_names(entries_view(entries@));
    let n = entries.len();
    let mut order: Vec<usize> = Vec::new();
    proof {
        assert(idxs_of(order@) =~= spec_sort_idx_upto(names, 0));
    }
    for j in 0..n
        invariant
            n == entries@.len(),
            names == entry_names(entries_view(entries@)),
            names.len() == n,
            order@.len() == j,
            idxs_of(order@) == spec_sort_idx_upto(names, j as int),
            forall|q: int| 0 <= q < order@.len() ==> #[trigger] order@[q] < n,
    {
        let mut p: usize = 0;
        while p < order.len() && !str_lt(&entries[j].0, &entries[order[p]].0)
            invariant
                n == entries@.len(),
                names == entry_names(entries_view(entries@)),
                names.len() == n,
                j < n,
                order@.len() <= n,
                p <= order@.len(),
                forall|q: int| 0 <= q < order@.len() ==> #[trigger] order@[q] < n,
                forall|q: int|
                    0 <= q < p ==> !seq_lt(names[j as int], names[idxs_of(order@)[q]]),
            decreases order@.len() - p,
        {
            proof {
                assert(names[j as int] == entries@[j as int].0@);
                assert(names[order@[p as int] as int] == entries@[order@[p as int] as int].0@);
                assert(idxs_of(order@)[p as int] == order@[p as int] as int);
            }
            p += 1;
        }
        proof {
            if p < order.len() {
                assert(names[j as int] == entries@[j as int].0@);
                assert(names[order@[p as int] as int] == entries@[order@[p as int] as int].0@);
            }
            assert(idxs_of(order@).len() == order@.len());
            assert forall|q: int| 0 <= q < p implies !seq_lt(
                names[j as int],
                names[#[trigger] idxs_of(order@)[q]],
            ) by {}
            lemma_ins_shape(names, idxs_of(order@), j as int, p as int);
        }
        let ghost pre = order@;
        order.insert(p, j);
        proof {
            assert(order@ =~= pre.take(p as int) + seq![j] + pre.skip(p as int));
            assert(idxs_of(order@) =~= idxs_of(pre).take(p as int) + seq![j as int] + idxs_of(
                pre,
            ).skip(p as int));
            assert(idxs_of(order@) =~= spec_sort_idx_upto(names, j + 1));
        }
    }
    proof {
        assert(idxs_of(order@) == spec_sort_idx(names));
        lemma_sort_props(names, n as int, n as int);
    }
    order
}

/// The length of the longest run of positionally equal segments at the
/// start of `a` and `b`.
pub open spec fn match_len_front(a: Seq<Seq<char>>, b: Seq<Seq<char>>) -> int
    decreases a.len(),
{
    if a.len() > 0 && b.len() > 0 && a[0] == b[0] {
        1 + match_len_front(a.drop_first(), b.drop_first())
    } else {
        0
    }
}

/// The length of the longest run of positionally equal segments at the
/// end of `a` and `b`.
pub open spec fn match_len_back(a: Seq<Seq<char>>, b: Seq<Seq<char>>) -> int
    decreases a.len(),
{
    if a.len() > 0 && b.len() > 0 && a.last() == b.last() {
        1 + match_len_back(a.drop_last(), b.drop_last())
    } else {
        0
    }
}

/// How many leading segments of the two paths match.
pub open spec fn start_match(a: Seq<Seq<char>>, b: Seq<Seq<char>>) -> int {
    match_len_front(a, b)
}

/// How many trailing segments match, counted over the suffixes left after
/// the leading match, so prefix and suffix matches never overlap.
pub open spec fn end_match(a: Seq<Seq<char>>, b: Seq<Seq<char>>) -> int {
    match_len_back(a.skip(start_match(a, b)), b.skip(start_match(a, b)))
}

/// How many segments of `a` belong to the changed middle.
pub open spec fn center_len(a: Seq<Seq<char>>, b: Seq<Seq<char>>) -> int {
    a.len() - start_match(a, b) - end_match(a, b)
}

proof fn lemma_match_front_bound(a: Seq<Seq<char>>, b: Seq<Seq<char>>)
    ensures
        0 <= match_len_front(a, b) <= a.len(),
        match_len_front(a, b) <= b.len(),
    decreases a.len(),
{
    if a.len() > 0 && b.len() > 0 && a[0] == b[0] {
        lemma_match_front_bound(a.drop_first(), b.drop_first());
    }
}

proof fn lemma_match_back_bound(a: Seq<Seq<char>>, b: Seq<Seq<char>>)
    ensures
        0 <= match_len_back(a, b) <= a.len(),
        match_len_back(a, b) <= b.len(),
    decreases a.len(),
{
    if a.len() > 0 && b.len() > 0 && a.last() == b.last() {
        lemma_match_back_bound(a.drop_last(), b.drop_last());
    }
}

/// The prefix and suffix matches never overlap and never overrun either
/// path, so the changed middle never has a negative segment count.
pub proof fn lemma_highlight_counts(a: Seq<Seq<char>>, b: Seq<Seq<char>>)
    ensures
        0 <= start_match(a, b),
        start_match(a, b) <= a.len(),
        start_match(a, b) <= b.len(),
        0 <= end_match(a, b),
        start_match(a, b) + end_match(a, b) <= a.len(),
        start_match(a, b) + end_match(a, b) <= b.len(),
        center_len(a, b) >= 0,
{
    lemma_match_front_bound(a, b);
    let s = start_match(a, b);
    lemma_match_back_bound(a.skip(s), b.skip(s));
}

/// `match_len_front` is what an index scan from the start finds.
proof fn lemma_match_front_at(a: Seq<Seq<char>>, b: Seq<Seq<char>>, s: int)
    requires
        0 <= s <= a.len(),
        s <= b.len(),
        forall|j: int| 0 <= j < s ==> a[j] == b[j],
        s == a.len() || s == b.len() || a[s] != b[s],
    ensures
        match_len_front(a, b) == s,
    decreases s,
{
    if s > 0 {
        lemma_match_front_at(a.drop_first(), b.drop_first(), s - 1);
    }
}

/// `match_len_back` is what an index scan from the end finds.
proof fn lemma_match_back_at(a: Seq<Seq<char>>, b: Seq<Seq<char>>, e: int)
    requires
        0 <= e <= a.len(),
        e <= b.len(),
        forall|j: int| a.len() - e <= j < a.len() ==> #[trigger] a[j] == b[j + b.len() - a.len()],
        e == a.len() || e == b.len() || a[a.len() - 1 - e] != b[b.len() - 1 - e],
    ensures
        match_len_back(a, b) == e,
    decreases e,
{
    if e > 0 {
        assert(a[a.len() - 1] == b[b.len() - 1]);
        assert forall|j: int|
            a.drop_last().len() - (e - 1) <= j < a.drop_last().len() implies #[trigger] a.drop_last()[j]
            == b.drop_last()[j + b.drop_last().len() - a.drop_last().len()] by {
            assert(a.drop_last()[j] == a[j]);
            assert(b.drop_last()[j + b.len() - a.len()] == b[j + b.len() - a.len()]);
        }
        lemma_match_back_at(a.drop_last(), b.drop_last(), e - 1);
    }
}

/// The segments of `a` from `from` to `to`, each painted in `color` and
/// followed by a white separator.
pub open spec fn spec_join_colored(
    a: Seq<Seq<char>>,
    from: int,
    to: int,
    color: Seq<char>,
) -> Seq<char>
    decreases to - from,
{
    if to <= from {
        Seq::empty()
    } else {
        spec_join_colored(a, from, to - 1, color) + color + a[to - 1] + ansi_white() + "/"@
    }
}

proof fn lemma_join_nonempty(a: Seq<Seq<char>>, from: int, to: int, color: Seq<char>)
    requires
        from < to,
        0 <= to,
    ensures
        spec_join_colored(a, from, to, color).len() > 0,
        spec_join_colored(a, from, to, color).last() == '/',
{
    reveal_strlit("/");
}

/// The highlighted rendering of `a` against `b`: the matched prefix and
/// suffix runs are painted grey, the changed middle blue; when the middle
/// is empty the separator between the runs is painted blue instead, so the
/// reader sees where the split occurred.
pub open spec fn spec_highlight(a: Seq<Seq<char>>, b: Seq<Seq<char>>) -> Seq<char> {
    let s = start_match(a, b);
    let c = center_len(a, b);
    let part1 = spec_join_colored(a, 0, s, ansi_grey());
    let part12 = if c == 0 && part1.len() > 0 {
        part1.drop_last() + ansi_blue() + "/"@
    } else {
        part1 + spec_join_colored(a, s, s + c, ansi_blue())
    };
    let whole = part12 + spec_join_colored(a, s + c, a.len() as int, ansi_grey());
    if whole.len() > 0 {
        whole.drop_last() + ansi_reset()
    } else {
        ansi_reset()
    }
}

/// A copy of `s` without its final character.
fn chop_last(s: &String) -> (r: String)
    requires
        s@.len() > 0,
    ensures
        r@ == s@.drop_last(),
{
    let l = s.as_str().unicode_len();
    let r = String::from_str(s.as_str().substring_char(0, l - 1));
    proof {
        assert(r@ =~= s@.drop_last());
    }
    r
}

/// The renderer's fatal failure: the tree and the ledger disagree.
#[derive(Clone, Copy, Debug, PartialEq, Eq, Structural)]
pub enum RenderError {
    /// A node carries an identifier the ledger does not know, or the
    /// ledger entry lacks the fact this tree's side is built from.
    InternalInconsistency,
}

/// The annotation behind a node's name: nothing for plain folders, a
/// highlighted move for an identifier whose ledger entry carries the
/// opposite-side fact, and a plain create/delete tag otherwise. `None`
/// stands for an internal inconsistency between tree and ledger.
pub open spec fn spec_node_suffix(
    uuid: Option<Seq<u8>>,
    ledger: Seq<(Seq<u8>, EntryView)>,
    is_adding: bool,
) -> Option<Seq<char>> {
    match uuid {
        None => Some(Seq::empty()),
        Some(id) => match ledger_get(ledger, id) {
            None => None,
            Some(e) => if is_adding {
                match e.removed {
                    Some(primary) => match e.added {
                        Some(secondary) => Some(
                            " <= '"@ + spec_highlight(primary, secondary) + "'"@,
                        ),
                        None => None,
                    },
                    None => Some(
                        " "@ + ansi_green() + "ADDED"@ + ansi_reset() + " "@ + spec_render_uuid(id),
                    ),
                }
            } else {
                match e.added {
                    Some(primary) => match e.removed {
                        Some(secondary) => Some(
                            " => '"@ + spec_highlight(primary, secondary) + "'"@,
                        ),
                        None => None,
                    },
                    None => Some(
                        " "@ + ansi_red() + "REMOVED"@ + ansi_reset() + " "@ + spec_render_uuid(
                            id,
                        ),
                    ),
                }
            },
        },
    }
}

/// One rendered node: its own line, then its children depth-first in
/// sorted order.
pub open spec fn spec_render_node(
    name: Seq<char>,
    t: TreeView,
    ledger: Seq<(Seq<u8>, EntryView)>,
    is_adding: bool,
    prefix_main: Seq<char>,
    prefix_sub: Seq<char>,
) -> Option<Seq<char>>
    decreases t, 0int,
    via spec_render_node_decreases
{
    match spec_node_suffix(t.uuid, ledger, is_adding) {
        None => None,
        Some(suffix) => {
            let line = prefix_main + ansi_white() + name + ansi_reset() + ":"@ + suffix + "\n"@;
            match spec_render_list(
                t.entries,
                spec_sort_idx(entry_names(t.entries)),
                0,
                ledger,
                is_adding,
                prefix_sub,
            ) {
                None => None,
                Some(children) => Some(line + children),
            }
        },
    }
}

#[via_fn]
proof fn spec_render_node_decreases(
    name: Seq<char>,
    t: TreeView,
    ledger: Seq<(Seq<u8>, EntryView)>,
    is_adding: bool,
    prefix_main: Seq<char>,
    prefix_sub: Seq<char>,
) {
    assert(decreases_to!(t => t.entries));
}

/// The children at the positions `order[pos..]` of `es`, each rendered
/// with the box-drawing connector for its place: the last child closes the
/// branch and blanks the continuation, every other child keeps it open.
pub open spec fn spec_render_list(
    es: Seq<(Seq<char>, TreeView)>,
    order: Seq<int>,
    pos: int,
    ledger: Seq<(Seq<u8>, EntryView)>,
    is_adding: bool,
    prefix: Seq<char>,
) -> Option<Seq<char>>
    decreases es, order.len() - pos,
    via spec_render_list_decreases
{
    if pos < 0 || pos >= order.len() {
        Some(Seq::empty())
    } else {
        let k = order[pos];
        if 0 <= k < es.len() {
            let last = pos == order.len() - 1;
            let pm = prefix + if last {
                "└─"@
            } else {
                "├─"@
            };
            let ps = prefix + if last {
                "  "@
            } else {
                "│ "@
            };
            match spec_render_node(es[k].0, es[k].1, ledger, is_adding, pm, ps) {
                None => None,
                Some(line) => match spec_render_list(es, order, pos + 1, ledger, is_adding, prefix) {
                    None => None,
                    Some(rest) => Some(line + rest),
                },
            }
        } else {
            None
        }
    }
}

#[via_fn]
proof fn spec_render_list_decreases(
    es: Seq<(Seq<char>, TreeView)>,
    order: Seq<int>,
    pos: int,
    ledger: Seq<(Seq<u8>, EntryView)>,
    is_adding: bool,
    prefix: Seq<char>,
) {
    broadcast use vstd::seq::axiom_seq_index_decreases;

    if 0 <= pos < order.len() {
        let k = order[pos];
        if 0 <= k < es.len() {
            assert(decreases_to!(es => es[k]));
            assert(decreases_to!(es[k] => es[k].1));
        }
    }
}

/// The printable form of a whole tree: its root children depth-first,
/// sorted by segment name at every level.
pub open spec fn spec_render_tree(
    es: Seq<(Seq<char>, TreeView)>,
    ledger: Seq<(Seq<u8>, EntryView)>,
    is_adding: bool,
) -> Option<Seq<char>> {
    spec_render_list(es, spec_sort_idx(entry_names(es)), 0, ledger, is_adding, Seq::empty())
}

/// The rendering is a function of the tree and the ledger alone: two
/// renders of the same data yield identical output.
pub proof fn lemma_render_deterministic(
    es: Seq<(Seq<char>, TreeView)>,
    ledger: Seq<(Seq<u8>, EntryView)>,
    is_adding: bool,
    r1: Seq<char>,
    r2: Seq<char>,
)
    requires
        spec_render_tree(es, ledger, is_adding) == Some(r1),
        spec_render_tree(es, ledger, is_adding) == Some(r2),
    ensures
        r1 == r2,
{
}

/// Stores paths split into segments and attaches an identifier to each
/// path's terminal segment. The root is a synthetic container that never
/// carries an identifier.
pub struct PathTreeStorage {
    pub root_entries: Vec<(String, TreeNode)>,
}

impl View for PathTreeStorage {
    type V = Seq<(Seq<char>, TreeView)>;

    open spec fn view(&self) -> Seq<(Seq<char>, TreeView)> {
        entries_view(self.root_entries@)
    }
}

impl Default for PathTreeStorage {
    /// An empty tree.
    fn default() -> (r: Self)
        ensures
            r@ == Seq::<(Seq<char>, TreeView)>::empty(),
    {
        let r = PathTreeStorage { root_entries: Vec::new() };
        proof {
            assert(r@ =~= Seq::<(Seq<char>, TreeView)>::empty());
        }
        r
    }
}

/// When the first `i` names differ from `name` and the name at `i`
/// matches, the walk addresses exactly the child at `i`.
proof fn lemma_child_at(
    es: Seq<(Seq<char>, TreeView)>,
    path: Seq<Seq<char>>,
    id: Seq<u8>,
    i: int,
)
    requires
        path.len() > 0,
        0 <= i < es.len(),
        forall|j: int| 0 <= j < i ==> #[trigger] es[j].0 != path[0],
        es[i].0 == path[0],
    ensures
        spec_child(es, path[0]) == Some(es[i].1),
        spec_insert_entries(es, path, id) =~= es.update(
            i,
            (es[i].0, spec_insert_node(es[i].1, path.drop_first(), id)),
        ),
    decreases i,
{
    if i == 0 {
        assert(seq![(es[0].0, spec_insert_node(es[0].1, path.drop_first(), id))] + es.drop_first()
            =~= es.update(0, (es[0].0, spec_insert_node(es[0].1, path.drop_first(), id))));
    } else {
        lemma_child_at(es.drop_first(), path, id, i - 1);
        assert(seq![es[0]] + spec_insert_entries(es.drop_first(), path, id) =~= es.update(
            i,
            (es[i].0, spec_insert_node(es[i].1, path.drop_first(), id)),
        ));
    }
}

/// When no name matches, the walk finds nothing and insertion appends a
/// fresh chain.
proof fn lemma_child_absent(es: Seq<(Seq<char>, TreeView)>, path: Seq<Seq<char>>, id: Seq<u8>)
    requires
        path.len() > 0,
        forall|j: int| 0 <= j < es.len() ==> #[trigger] es[j].0 != path[0],
    ensures
        spec_child(es, path[0]) is None,
        spec_insert_entries(es, path, id) =~= es.push(
            (path[0], spec_new_chain(path.drop_first(), id)),
        ),
    decreases es.len(),
{
    if es.len() > 0 {
        lemma_child_absent(es.drop_first(), path, id);
        assert(seq![es[0]] + spec_insert_entries(es.drop_first(), path, id) =~= es.push(
            (path[0], spec_new_chain(path.drop_first(), id)),
        ));
    }
}

/// A fresh chain of nodes for the segments of `path` from `pos` on,
/// carrying `id` on the final node.
fn build_chain(path: &Vec<String>, pos: usize, id: Uuid) -> (n: TreeNode)
    requires
        pos <= path@.len(),
    ensures
        node_view(n) == spec_new_chain(path.deep_view().skip(pos as int), id@),
    decreases path@.len() - pos,
{
    let ghost rest = path.deep_view().skip(pos as int);
    if pos == path.len() {
        let n = TreeNode { uuid: Some(id), entries: Vec::new() };
        proof {
            assert(node_view(n).entries =~= spec_new_chain(rest, id@).entries);
            assert(node_view(n) == spec_new_chain(rest, id@));
        }
        n
    } else {
        let child = build_chain(path, pos + 1, id);
        let mut entries: Vec<(String, TreeNode)> = Vec::new();
        entries.push((path[pos].clone(), child));
        let n = TreeNode { uuid: None, entries };
        proof {
            assert(rest[0] == path.deep_view()[pos as int]);
            assert(rest.drop_first() =~= path.deep_view().skip(pos + 1));
            assert(node_view(n).entries =~= spec_new_chain(rest, id@).entries);
            assert(node_view(n) == spec_new_chain(rest, id@));
        }
        n
    }
}

/// Inserts `id` at the end of `path[pos..]`, walking and extending the
/// children list; fails without changing anything when the final node
/// already carries an identifier.
fn insert_entries(
    entries: &mut Vec<(String, TreeNode)>,
    path: &Vec<String>,
    pos: usize,
    id: Uuid,
) -> (r: Result<(), TreeError>)
    requires
        pos < path@.len(),
    ensures
        ({
            let oldv = entries_view(old(entries)@);
            let newv = entries_view(final(entries)@);
            let sub = path.deep_view().skip(pos as int);
            match r {
                Ok(()) => spec_uuid_at(oldv, sub) is None && newv == spec_insert_entries(
                    oldv,
                    sub,
                    id@,
                ),
                Err(e) => e == TreeError::DuplicateAssignment && newv == oldv && spec_uuid_at(
                    oldv,
                    sub,
                ) is Some,
            }
        }),
    decreases path@.len() - pos,
{
    let ghost oldv = entries_view(entries@);
    let ghost sub = path.deep_view().skip(pos as int);
    proof {
        assert(sub[0] == path.deep_view()[pos as int]);
        assert(sub.len() == path.deep_view().len() - pos);
    }
    let plen = path.len();
    let name = &path[pos];
    let n = entries.len();
    let mut i: usize = 0;
    while i < n
        invariant
            n == entries@.len(),
            i <= n,
            oldv == entries_view(old(entries)@),
            entries_view(entries@) == oldv,
            oldv.len() == n,
            forall|j: int| 0 <= j < i ==> #[trigger] oldv[j].0 != name@,
            name@ == sub[0],
            *name == path@[pos as int],
            pos < plen,
            plen == path@.len(),
            sub == path.deep_view().skip(pos as int),
        decreases n - i,
    {
        proof {
            assert(oldv[i as int].0 == entries@[i as int].0@);
        }
        if entries[i].0 == *name {
            proof {
                lemma_child_at(oldv, sub, id@, i as int);
                assert(node_view(entries@[i as int].1) == oldv[i as int].1);
            }
            if pos + 1 == plen {
                // The terminal segment: assign the identifier to this child.
                let has = match &entries[i].1.uuid {
                    Some(_) => true,
                    None => false,
                };
                proof {
                    assert(oldv[i as int].1.uuid == (match entries@[i as int].1.uuid {
                        Some(u) => Some(u@),
                        None => None,
                    }));
                    assert(sub.len() == 1);
                    assert(spec_uuid_at(oldv, sub) == oldv[i as int].1.uuid);
                }
                if has {
                    return Err(TreeError::DuplicateAssignment);
                }
                let ghost pre = entries@;
                entries[i].1.uuid = Some(id);
                proof {
                    assert(entries@ == pre.update(
                        i as int,
                        (pre[i as int].0, TreeNode { uuid: Some(id), entries: pre[i as int].1.entries }),
                    ));
                    assert(node_view(entries@[i as int].1).entries =~= node_view(
                        pre[i as int].1,
                    ).entries);
                    assert(node_view(entries@[i as int].1) == spec_insert_node(
                        oldv[i as int].1,
                        sub.drop_first(),
                        id@,
                    ));
                    assert(entries_view(entries@) =~= spec_insert_entries(oldv, sub, id@));
                }
                return Ok(());
            } else {
                // Walk into the matching child.
                let ghost pre = entries@;
                let ghost oldchild = node_view(entries@[i as int].1);
                let r = insert_entries(&mut entries[i].1.entries, path, pos + 1, id);
                proof {
                    assert(sub.drop_first() =~= path.deep_view().skip(pos + 1));
                    assert(entries@[i as int].0 == pre[i as int].0);
                    assert(entries@[i as int].1.uuid == pre[i as int].1.uuid);
                    assert(oldchild.entries =~= entries_view(pre[i as int].1.entries@));
                    assert(forall|j: int|
                        0 <= j < pre.len() && j != i ==> entries@[j] == #[trigger] pre[j]);
                }
                match r {
                    Ok(()) => {
                        proof {
                            assert(node_view(entries@[i as int].1).entries =~= entries_view(
                                entries@[i as int].1.entries@,
                            ));
                            assert(node_view(entries@[i as int].1).entries
                                == spec_insert_entries(oldchild.entries, sub.drop_first(), id@));
                            assert(node_view(entries@[i as int].1) == spec_insert_node(
                                oldv[i as int].1,
                                sub.drop_first(),
                                id@,
                            ));
                            assert(spec_uuid_at(oldchild.entries, sub.drop_first()) is None);
                            assert(spec_uuid_at(oldv, sub) is None);
                            assert(entries_view(entries@) =~= spec_insert_entries(oldv, sub, id@));
                        }
                        return Ok(());
                    },
                    Err(e) => {
                        proof {
                            assert(node_view(entries@[i as int].1).entries =~= entries_view(
                                entries@[i as int].1.entries@,
                            ));
                            assert(node_view(entries@[i as int].1) == oldv[i as int].1);
                            assert(spec_uuid_at(oldchild.entries, sub.drop_first()) is Some);
                            assert(spec_uuid_at(oldv, sub) is Some);
                            assert(entries_view(entries@) =~= oldv);
                        }
                        return Err(e);
                    },
                }
            }
        }
        i += 1;
    }
    proof {
        lemma_child_absent(oldv, sub, id@);
    }
    // No child carries this segment yet: materialize the remaining chain.
    let node = build_chain(path, pos + 1, id);
    proof {
        assert(sub.drop_first() =~= path.deep_view().skip(pos + 1));
    }
    entries.push((name.clone(), node));
    proof {
        assert(entries_view(entries@) =~= spec_insert_entries(oldv, sub, id@));
    }
    Ok(())
}

/// The annotation for one node, appended to `out`; fails when the tree
/// and the ledger disagree.
fn render_suffix(
    uuid: &Option<Uuid>,
    uuid_storage: &UuidStorage,
    is_adding: bool,
    out: &mut String,
) -> (r: Result<(), RenderError>)
    ensures
        ({
            let uv = match *uuid {
                Some(u) => Some(u@),
                None => None,
            };
            match r {
                Ok(()) => spec_node_suffix(uv, uuid_storage@, is_adding) is Some && final(out)@
                    == old(out)@ + spec_node_suffix(uv, uuid_storage@, is_adding)->0,
                Err(e) => e == RenderError::InternalInconsistency && spec_node_suffix(
                    uv,
                    uuid_storage@,
                    is_adding,
                ) is None,
            }
        }),
{
    let ghost ledger = uuid_storage@;
    match uuid {
        None => {
            proof {
                assert(out@ =~= old(out)@ + Seq::<char>::empty());
            }
            Ok(())
        },
        Some(id) => {
            match uuid_storage.lookup(*id) {
                None => Err(RenderError::InternalInconsistency),
                Some(entry) => {
                    if is_adding {
                        match &entry.removed {
                            Some(primary) => {
                                match &entry.added {
                                    Some(secondary) => {
                                        out.append(" <= '");
                                        let h = PathTreeStorage::highlight_path_change(
                                            primary,
                                            secondary,
                                        );
                                        out.append(h.as_str());
                                        out.append("'");
                                        proof {
                                            assert(out@ =~= old(out)@ + (" <= '"@
                                                + spec_highlight(
                                                primary.deep_view(),
                                                secondary.deep_view(),
                                            ) + "'"@));
                                        }
                                        Ok(())
                                    },
                                    None => Err(RenderError::InternalInconsistency),
                                }
                            },
                            None => {
                                out.append(" ");
                                out.append("\x1b[92m");
                                out.append("ADDED");
                                out.append("\x1b[0m");
                                out.append(" ");
                                let t = id.render_text();
                                out.append(t.as_str());
                                proof {
                                    assert(out@ =~= old(out)@ + (" "@ + ansi_green() + "ADDED"@
                                        + ansi_reset() + " "@ + spec_render_uuid(id@)));
                                }
                                Ok(())
                            },
                        }
                    } else {
                        match &entry.added {
                            Some(primary) => {
                                match &entry.removed {
                                    Some(secondary) => {
                                        out.append(" => '");
                                        let h = PathTreeStorage::highlight_path_change(
                                            primary,
                                            secondary,
                                        );
                                        out.append(h.as_str());
                                        out.append("'");
                                        proof {
                                            assert(out@ =~= old(out)@ + (" => '"@
                                                + spec_highlight(
                                                primary.deep_view(),
                                                secondary.deep_view(),
                                            ) + "'"@));
                                        }
                                        Ok(())
                                    },
                                    None => Err(RenderError::InternalInconsistency),
                                }
                            },
                            None => {
                                out.append(" ");
                                out.append("\x1b[91m");
                                out.append("REMOVED");
                                out.append("\x1b[0m");
                                out.append(" ");
                                let t = id.render_text();
                                out.append(t.as_str());
                                proof {
                                    assert(out@ =~= old(out)@ + (" "@ + ansi_red() + "REMOVED"@
                                        + ansi_reset() + " "@ + spec_render_uuid(id@)));
                                }
                                Ok(())
                            },
                        }
                    }
                },
            }
        },
    }
}

/// Renders one node, appending to `out`: its own line, then its children
/// depth-first in sorted order.
#[verifier::rlimit(60)]
#[verifier::spinoff_prover]
fn render_node_exec(
    name: &String,
    node: &TreeNode,
    uuid_storage: &UuidStorage,
    is_adding: bool,
    prefix_main: &String,
    prefix_sub: &String,
    out: &mut String,
) -> (r: Result<(), RenderError>)
    ensures
        ({
            let spec = spec_render_node(
                name@,
                node_view(*node),
                uuid_storage@,
                is_adding,
                prefix_main@,
                prefix_sub@,
            );
            match r {
                Ok(()) => spec is Some && final(out)@ == old(out)@ + spec->0,
                Err(e) => e == RenderError::InternalInconsistency && spec is None,
            }
        }),
    decreases *node,
{
    let ghost ledger = uuid_storage@;
    let ghost t = node_view(*node);
    out.append(prefix_main.as_str());
    out.append("\x1b[37m");
    out.append(name.as_str());
    out.append("\x1b[0m");
    out.append(":");
    let r = render_suffix(&node.uuid, uuid_storage, is_adding, out);
    proof {
        assert(t.uuid == (match node.uuid {
            Some(u) => Some(u@),
            None => None,
        }));
    }
    match r {
        Ok(()) => {},
        Err(e) => {
            return Err(e);
        },
    }
    out.append("\n");
    let ghost suffix = spec_node_suffix(t.uuid, ledger, is_adding)->0;
    let ghost line = prefix_main@ + ansi_white() + name@ + ansi_reset() + ":"@ + suffix + "\n"@;
    proof {
        assert(out@ =~= old(out)@ + line);
    }
    let ghost mid = out@;
    let r2 = render_entries(&node.entries, uuid_storage, is_adding, prefix_sub, out);
    proof {
        assert(entries_view(node.entries@) =~= t.entries);
    }
    match r2 {
        Ok(()) => {
            proof {
                let children = spec_render_list(
                    t.entries,
                    spec_sort_idx(entry_names(t.entries)),
                    0,
                    ledger,
                    is_adding,
                    prefix_sub@,
                )->0;
                assert(out@ =~= old(out)@ + (line + children));
            }
            Ok(())
        },
        Err(e) => Err(e),
    }
}

/// Renders the children of one node, appending to `out`: each child in
/// sorted order, its line first, then its own children.
#[verifier::rlimit(60)]
#[verifier::spinoff_prover]
fn render_entries(
    entries: &Vec<(String, TreeNode)>,
    uuid_storage: &UuidStorage,
    is_adding: bool,
    prefix: &String,
    out: &mut String,
) -> (r: Result<(), RenderError>)
    ensures
        ({
            let ev = entries_view(entries@);
            let spec = spec_render_list(
                ev,
                spec_sort_idx(entry_names(ev)),
                0,
                uuid_storage@,
                is_adding,
                prefix@,
            );
            match r {
                Ok(()) => spec is Some && final(out)@ == old(out)@ + spec->0,
                Err(e) => e == RenderError::InternalInconsistency && spec is None,
            }
        }),
    decreases *entries,
{
    let ghost ev = entries_view(entries@);
    let ghost names = entry_names(ev);
    let ghost ledger = uuid_storage@;
    let ghost base = out@;
    let order = sort_indices(entries);
    let ghost sorder = spec_sort_idx(names);
    let mut pos: usize = 0;
    proof {
        assert(out@.skip(base.len() as int) =~= Seq::<char>::empty());
    }
    while pos < order.len()
        invariant
            base == old(out)@,
            ev == entries_view(entries@),
            names == entry_names(ev),
            ledger == uuid_storage@,
            sorder == spec_sort_idx(names),
            idxs_of(order@) == sorder,
            order@.len() == entries@.len(),
            forall|q: int| 0 <= q < order@.len() ==> #[trigger] order@[q] < entries@.len(),
            pos <= order@.len(),
            out@.len() >= base.len(),
            out@.take(base.len() as int) == base,
            ({
                let spec0 = spec_render_list(ev, sorder, 0, ledger, is_adding, prefix@);
                match spec_render_list(ev, sorder, pos as int, ledger, is_adding, prefix@) {
                    Some(rest) => spec0 == Some(out@.skip(base.len() as int) + rest),
                    None => spec0 is None,
                }
            }),
        decreases order@.len() - pos,
    {
        let ghost acc = out@.skip(base.len() as int);
        let k = order[pos];
        proof {
            assert(sorder[pos as int] == order@[pos as int] as int);
            assert(ev[k as int].0 == entries@[k as int].0@);
            assert(ev[k as int].1 == node_view(entries@[k as int].1));
        }
        let last = pos + 1 == order.len();
        let mut pm = prefix.clone();
        if last {
            pm.append("└─");
        } else {
            pm.append("├─");
        }
        let mut ps = prefix.clone();
        if last {
            ps.append("  ");
        } else {
            ps.append("│ ");
        }
        let r = render_node_exec(&entries[k].0, &entries[k].1, uuid_storage, is_adding, &pm, &ps, out);
        proof {
            broadcast use vstd::std_specs::vec::axiom_vec_decreases_to_view;
            broadcast use vstd::seq::axiom_seq_index_decreases;

        }
        match r {
            Ok(()) => {},
            Err(e) => {
                proof {
                    assert(spec_render_list(ev, sorder, pos as int, ledger, is_adding, prefix@)
                        is None);
                }
                return Err(e);
            },
        }
        proof {
            let rendered = spec_render_node(
                ev[k as int].0,
                ev[k as int].1,
                ledger,
                is_adding,
                pm@,
                ps@,
            )->0;
            assert(out@.take(base.len() as int) =~= base);
            assert(out@.skip(base.len() as int) =~= acc + rendered);
            let spec_here = spec_render_list(ev, sorder, pos as int, ledger, is_adding, prefix@);
            let spec_next = spec_render_list(ev, sorder, pos + 1, ledger, is_adding, prefix@);
            match spec_next {
                Some(rest) => {
                    assert(spec_here == Some(rendered + rest));
                    assert((acc + rendered) + rest =~= acc + (rendered + rest));
                },
                None => {
                    assert(spec_here is None);
                },
            }
        }
        pos += 1;
    }
    proof {
        assert(spec_render_list(ev, sorder, pos as int, ledger, is_adding, prefix@) == Some(
            Seq::<char>::empty(),
        ));
        assert(out@.skip(base.len() as int) + Seq::<char>::empty() =~= out@.skip(
            base.len() as int,
        ));
        assert(out@ =~= base + out@.skip(base.len() as int));
    }
    Ok(())
}

impl PathTreeStorage {
    /// Strips the metadata suffix from `path`, walks or creates a node for
    /// every segment, and sets `uuid` on the final segment's node. Fails
    /// without changing the tree when that node already carries an
    /// identifier.
    pub fn add_to_tree(&mut self, path: &Vec<String>, uuid: Uuid) -> (r: Result<(), TreeError>)
        requires
            path@.len() > 0,
        ensures
            ({
                let stripped = spec_strip_meta(path.deep_view());
                match r {
                    Ok(()) => spec_uuid_at(old(self)@, stripped) is None && final(self)@
                        == spec_insert_entries(old(self)@, stripped, uuid@),
                    Err(e) => e == TreeError::DuplicateAssignment && final(self)@ == old(self)@
                        && spec_uuid_at(old(self)@, stripped) is Some,
                }
            }),
    {
        let stripped = strip_meta_path(path);
        proof {
            assert(stripped@.len() == path@.len());
            assert(stripped.deep_view().skip(0) =~= stripped.deep_view());
        }
        insert_entries(&mut self.root_entries, &stripped, 0, uuid)
    }

    /// The printable tree: children sorted by segment name at every level,
    /// depth-first, each leaf annotated from the ledger entry of its
    /// identifier. `is_adding` selects which ledger side this tree was
    /// built from. Fails when the tree and the ledger disagree.
    pub fn render(&self, uuid_storage: &UuidStorage, is_adding: bool) -> (r: Result<
        String,
        RenderError,
    >)
        ensures
            match spec_render_tree(self@, uuid_storage@, is_adding) {
                Some(s) => r is Ok && r->Ok_0@ == s,
                None => r == Err::<String, RenderError>(RenderError::InternalInconsistency),
            },
    {
        let mut out = String::new();
        let prefix = String::new();
        match render_entries(&self.root_entries, uuid_storage, is_adding, &prefix, &mut out) {
            Ok(()) => {
                proof {
                    assert(Seq::<char>::empty() + spec_render_tree(
                        self@,
                        uuid_storage@,
                        is_adding,
                    )->0 =~= spec_render_tree(self@, uuid_storage@, is_adding)->0);
                }
                Ok(out)
            },
            Err(e) => Err(e),
        }
    }

    /// The matched-prefix, matched-suffix and changed-middle segment counts
    /// for a path pair.
    pub fn highlight_counts(main_path: &Vec<String>, reference_path: &Vec<String>) -> (r: (
        usize,
        usize,
        usize,
    ))
        ensures
            r.0 == start_match(main_path.deep_view(), reference_path.deep_view()),
            r.1 == end_match(main_path.deep_view(), reference_path.deep_view()),
            r.2 == center_len(main_path.deep_view(), reference_path.deep_view()),
    {
        let ghost av = main_path.deep_view();
        let ghost bv = reference_path.deep_view();
        let la = main_path.len();
        let lb = reference_path.len();
        let min_count = if la < lb {
            la
        } else {
            lb
        };
        let mut s: usize = 0;
        while s < min_count && main_path[s] == reference_path[s]
            invariant
                av == main_path.deep_view(),
                bv == reference_path.deep_view(),
                la == av.len(),
                lb == bv.len(),
                min_count == if la < lb {
                    la as int
                } else {
                    lb as int
                },
                s <= min_count,
                forall|j: int| 0 <= j < s ==> av[j] == bv[j],
            decreases min_count - s,
        {
            proof {
                assert(av[s as int] == main_path@[s as int]@);
                assert(bv[s as int] == reference_path@[s as int]@);
            }
            s += 1;
        }
        proof {
            if s < min_count {
                assert(av[s as int] == main_path@[s as int]@);
                assert(bv[s as int] == reference_path@[s as int]@);
            }
            lemma_match_front_at(av, bv, s as int);
        }
        let ghost a2 = av.skip(s as int);
        let ghost b2 = bv.skip(s as int);
        let budget = min_count - s;
        let mut e: usize = 0;
        while e < budget && main_path[la - 1 - e] == reference_path[lb - 1 - e]
            invariant
                av == main_path.deep_view(),
                bv == reference_path.deep_view(),
                la == av.len(),
                lb == bv.len(),
                s <= la,
                s <= lb,
                budget == (if la < lb {
                    la as int
                } else {
                    lb as int
                }) - s,
                e <= budget,
                forall|j: int| la - e <= j < la ==> #[trigger] av[j] == bv[j + lb - la],
            decreases budget - e,
        {
            proof {
                assert(av[la - 1 - e] == main_path@[la - 1 - e]@);
                assert(bv[lb - 1 - e] == reference_path@[lb - 1 - e]@);
            }
            e += 1;
        }
        proof {
            if e < budget {
                assert(av[la - 1 - e] == main_path@[la - 1 - e]@);
                assert(bv[lb - 1 - e] == reference_path@[lb - 1 - e]@);
            }
            assert forall|j: int|
                a2.len() - e <= j < a2.len() implies #[trigger] a2[j] == b2[j + b2.len()
                - a2.len()] by {
                assert(a2[j] == av[j + s]);
                assert(b2[j + b2.len() - a2.len()] == bv[j + s + lb - la]);
            }
            if e < budget {
                assert(a2[a2.len() - 1 - e] == av[la - 1 - e]);
                assert(b2[b2.len() - 1 - e] == bv[lb - 1 - e]);
            }
            lemma_match_back_at(a2, b2, e as int);
            lemma_highlight_counts(av, bv);
        }
        let c = la - s - e;
        (s, e, c)
    }

    /// The highlighted rendering of `main_path` against `reference_path`:
    /// matched context grey, the changed middle blue, separated by white
    /// separators; when the middle is empty the separator between the
    /// matched runs is painted blue instead.
    pub fn highlight_path_change(main_path: &Vec<String>, reference_path: &Vec<String>) -> (r:
        String)
        ensures
            r@ == spec_highlight(main_path.deep_view(), reference_path.deep_view()),
    {
        let ghost av = main_path.deep_view();
        let ghost bv = reference_path.deep_view();
        let (s, e, c) = Self::highlight_counts(main_path, reference_path);
        let la = main_path.len();
        proof {
            lemma_highlight_counts(av, bv);
            assert(s + c + e == la);
        }
        let mut out = String::new();
        let mut idx: usize = 0;
        while idx < s
            invariant
                av == main_path.deep_view(),
                la == av.len(),
                s as int == start_match(av, bv),
                idx <= s,
                s <= la,
                out@ == spec_join_colored(av, 0, idx as int, ansi_grey()),
            decreases s - idx,
        {
            out.append("\x1b[90m");
            out.append(main_path[idx].as_str());
            out.append("\x1b[37m");
            out.append("/");
            proof {
                assert(av[idx as int] == main_path@[idx as int]@);
                assert(out@ =~= spec_join_colored(av, 0, idx + 1, ansi_grey()));
            }
            idx += 1;
        }
        let ghost part1 = spec_join_colored(av, 0, s as int, ansi_grey());
        while idx < s + c
            invariant
                av == main_path.deep_view(),
                la == av.len(),
                s <= idx,
                idx <= s + c,
                s + c <= la,
                part1 == spec_join_colored(av, 0, s as int, ansi_grey()),
                out@ == part1 + spec_join_colored(av, s as int, idx as int, ansi_blue()),
            decreases s + c - idx,
        {
            out.append("\x1b[94m");
            out.append(main_path[idx].as_str());
            out.append("\x1b[37m");
            out.append("/");
            proof {
                assert(av[idx as int] == main_path@[idx as int]@);
                assert(out@ =~= part1 + spec_join_colored(av, s as int, idx + 1, ansi_blue()));
            }
            idx += 1;
        }
        if c == 0 && s > 0 {
            proof {
                lemma_join_nonempty(av, 0, s as int, ansi_grey());
                assert(out@ == part1 + spec_join_colored(av, s as int, s as int, ansi_blue()));
                assert(out@ =~= part1);
            }
            out = chop_last(&out);
            out.append("\x1b[94m");
            out.append("/");
        }
        let ghost part12 = if c == 0 && part1.len() > 0 {
            part1.drop_last() + ansi_blue() + "/"@
        } else {
            part1 + spec_join_colored(av, s as int, s + c, ansi_blue())
        };
        proof {
            if c == 0 && s == 0 {
                assert(part1.len() == 0);
                assert(out@ =~= part12);
            } else {
                assert(out@ =~= part12);
            }
        }
        while idx < la
            invariant
                av == main_path.deep_view(),
                la == av.len(),
                s + c <= idx,
                idx <= la,
                out@ == part12 + spec_join_colored(av, s + c, idx as int, ansi_grey()),
            decreases la - idx,
        {
            out.append("\x1b[90m");
            out.append(main_path[idx].as_str());
            out.append("\x1b[37m");
            out.append("/");
            proof {
                assert(av[idx as int] == main_path@[idx as int]@);
                assert(out@ =~= part12 + spec_join_colored(av, s + c, idx + 1, ansi_grey()));
            }
            idx += 1;
        }
        let ghost whole = part12 + spec_join_colored(av, s + c, la as int, ansi_grey());
        proof {
            assert(out@ == whole);
        }
        if !out.as_str().is_empty() {
            out = chop_last(&out);
        }
        out.append("\x1b[0m");
        proof {
            assert(out@ =~= spec_highlight(av, bv));
        }
        out
    }
}

} // verus!
