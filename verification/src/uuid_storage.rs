//! The identifier-indexed ledger.
//!
//! Per identifier the ledger records at most one "added at path" fact and
//! one "removed at path" fact. Once a side is set it is never overwritten:
//! a second attempt returns the first-seen path and leaves the ledger
//! unchanged, so the caller can surface it as a warning.

use crate::ansi::ansi_green;
use crate::ansi::ansi_red;
use crate::ansi::ansi_reset;
use crate::asset_path::clone_path;
use crate::asset_path::join_path;
use crate::asset_path::spec_join_path;
use crate::asset_path::spec_strip_meta;
use crate::asset_path::strip_meta_path;
use crate::uuid::Uuid;
use crate::uuid::spec_render_uuid;
use crate::path_tree_storage::idxs_of;
use vstd::prelude::*;

verus! {

/// The mathematical content of one ledger entry.
pub struct EntryView {
    pub added: Option<Seq<Seq<char>>>,
    pub removed: Option<Seq<Seq<char>>>,
}

/// The two facts the ledger may hold for one identifier: the path the
/// asset appeared at and the path it disappeared from, both with the
/// metadata suffix already stripped.
#[derive(Debug)]
pub struct UuidStorageEntry {
    pub added: Option<Vec<String>>,
    pub removed: Option<Vec<String>>,
}

impl View for UuidStorageEntry {
    type V = EntryView;

    open spec fn view(&self) -> EntryView {
        EntryView {
            added: match self.added {
                Some(p) => Some(p.deep_view()),
                None => None,
            },
            removed: match self.removed {
                Some(p) => Some(p.deep_view()),
                None => None,
            },
        }
    }
}

/// The fact side selected by `adding`.
pub open spec fn entry_side(e: EntryView, adding: bool) -> Option<Seq<Seq<char>>> {
    if adding {
        e.added
    } else {
        e.removed
    }
}

/// `e` with the side selected by `adding` set to `p`.
pub open spec fn entry_with(e: EntryView, p: Seq<Seq<char>>, adding: bool) -> EntryView {
    if adding {
        EntryView { added: Some(p), removed: e.removed }
    } else {
        EntryView { added: e.added, removed: Some(p) }
    }
}

/// A fresh entry holding only the side selected by `adding`.
pub open spec fn entry_new(p: Seq<Seq<char>>, adding: bool) -> EntryView {
    if adding {
        EntryView { added: Some(p), removed: None }
    } else {
        EntryView { added: None, removed: Some(p) }
    }
}

/// The entry stored for `id`: the first pair with that key.
pub open spec fn ledger_get(m: Seq<(Seq<u8>, EntryView)>, id: Seq<u8>) -> Option<EntryView>
    decreases m.len(),
{
    if m.len() == 0 {
        None
    } else if m[0].0 == id {
        Some(m[0].1)
    } else {
        ledger_get(m.drop_first(), id)
    }
}

/// The path already stored for `id` on the side selected by `adding`.
pub open spec fn spec_prev(m: Seq<(Seq<u8>, EntryView)>, id: Seq<u8>, adding: bool) -> Option<
    Seq<Seq<char>>,
> {
    match ledger_get(m, id) {
        None => None,
        Some(e) => entry_side(e, adding),
    }
}

/// The ledger after recording that the asset `id` appeared at (or, for
/// `adding == false`, disappeared from) `path`: the suffix-stripped path is
/// stored if that side is still free, and the ledger is unchanged if it is
/// not.
pub open spec fn spec_record(
    m: Seq<(Seq<u8>, EntryView)>,
    id: Seq<u8>,
    path: Seq<Seq<char>>,
    adding: bool,
) -> Seq<(Seq<u8>, EntryView)>
    decreases m.len(),
{
    if m.len() == 0 {
        m.push((id, entry_new(spec_strip_meta(path), adding)))
    } else if m[0].0 == id {
        if entry_side(m[0].1, adding) is None {
            m.update(0, (id, entry_with(m[0].1, spec_strip_meta(path), adding)))
        } else {
            m
        }
    } else {
        seq![m[0]] + spec_record(m.drop_first(), id, path, adding)
    }
}

/// Maps identifiers to the pair of facts seen for them during one run.
pub struct UuidStorage {
    lookup: Vec<(Uuid, UuidStorageEntry)>,
}

impl View for UuidStorage {
    type V = Seq<(Seq<u8>, EntryView)>;

    closed spec fn view(&self) -> Seq<(Seq<u8>, EntryView)> {
        Seq::new(self.lookup@.len(), |i: int| (self.lookup@[i].0@, self.lookup@[i].1@))
    }
}

impl Default for UuidStorage {
    /// An empty ledger.
    fn default() -> (r: Self)
        ensures
            r@ == Seq::<(Seq<u8>, EntryView)>::empty(),
    {
        let r = UuidStorage { lookup: Vec::new() };
        proof {
            assert(r@ =~= Seq::<(Seq<u8>, EntryView)>::empty());
        }
        r
    }
}

/// When the first `i` keys differ from `id` and the key at `i` matches,
/// `ledger_get` returns the entry at `i`, and `spec_record` updates exactly
/// that entry (or nothing, if the side is already taken).
proof fn lemma_ledger_at(
    m: Seq<(Seq<u8>, EntryView)>,
    id: Seq<u8>,
    path: Seq<Seq<char>>,
    adding: bool,
    i: int,
)
    requires
        0 <= i < m.len(),
        forall|j: int| 0 <= j < i ==> #[trigger] m[j].0 != id,
        m[i].0 == id,
    ensures
        ledger_get(m, id) == Some(m[i].1),
        entry_side(m[i].1, adding) is None ==> spec_record(m, id, path, adding) =~= m.update(
            i,
            (id, entry_with(m[i].1, spec_strip_meta(path), adding)),
        ),
        entry_side(m[i].1, adding) is Some ==> spec_record(m, id, path, adding) == m,
    decreases i,
{
    if i == 0 {
    } else {
        lemma_ledger_at(m.drop_first(), id, path, adding, i - 1);
        if entry_side(m[i].1, adding) is None {
            assert(m.drop_first().update(
                i - 1,
                (id, entry_with(m[i].1, spec_strip_meta(path), adding)),
            ) =~= m.update(i, (id, entry_with(m[i].1, spec_strip_meta(path), adding))).drop_first());
            assert(spec_record(m, id, path, adding) =~= m.update(
                i,
                (id, entry_with(m[i].1, spec_strip_meta(path), adding)),
            ));
        } else {
            assert(spec_record(m, id, path, adding) =~= m);
        }
    }
}

/// When no key matches `id`, `ledger_get` finds nothing and `spec_record`
/// appends a fresh entry.
proof fn lemma_ledger_absent(
    m: Seq<(Seq<u8>, EntryView)>,
    id: Seq<u8>,
    path: Seq<Seq<char>>,
    adding: bool,
)
    requires
        forall|j: int| 0 <= j < m.len() ==> #[trigger] m[j].0 != id,
    ensures
        ledger_get(m, id) is None,
        spec_record(m, id, path, adding) =~= m.push(
            (id, entry_new(spec_strip_meta(path), adding)),
        ),
    decreases m.len(),
{
    if m.len() > 0 {
        lemma_ledger_absent(m.drop_first(), id, path, adding);
        assert(spec_record(m, id, path, adding) =~= m.push(
            (id, entry_new(spec_strip_meta(path), adding)),
        ));
    }
}

/// Recording a fact for an identifier whose side is already taken leaves
/// the ledger exactly as it was.
pub proof fn lemma_record_noop(
    m: Seq<(Seq<u8>, EntryView)>,
    id: Seq<u8>,
    path: Seq<Seq<char>>,
    adding: bool,
)
    requires
        spec_prev(m, id, adding) is Some,
    ensures
        spec_record(m, id, path, adding) == m,
    decreases m.len(),
{
    if m.len() > 0 && m[0].0 != id {
        lemma_record_noop(m.drop_first(), id, path, adding);
        assert(spec_record(m, id, path, adding) =~= m);
    }
}

/// One recording step, as data: which side, for which identifier, at which
/// path.
pub struct RecordOp {
    pub adding: bool,
    pub id: Seq<u8>,
    pub path: Seq<Seq<char>>,
}

/// The ledger after applying every operation in order.
pub open spec fn apply_ops(m: Seq<(Seq<u8>, EntryView)>, ops: Seq<RecordOp>) -> Seq<
    (Seq<u8>, EntryView),
>
    decreases ops.len(),
{
    if ops.len() == 0 {
        m
    } else {
        apply_ops(spec_record(m, ops[0].id, ops[0].path, ops[0].adding), ops.drop_first())
    }
}

/// The stripped path of the first operation for `id` on the side selected
/// by `adding`.
pub open spec fn first_path(ops: Seq<RecordOp>, id: Seq<u8>, adding: bool) -> Option<Seq<Seq<char>>>
    decreases ops.len(),
{
    if ops.len() == 0 {
        None
    } else if ops[0].id == id && ops[0].adding == adding {
        Some(spec_strip_meta(ops[0].path))
    } else {
        first_path(ops.drop_first(), id, adding)
    }
}

/// How one recording step changes what is stored for any identifier and
/// side: it fills exactly the addressed side when that side is free, and
/// changes nothing else.
proof fn lemma_record_prev(
    m: Seq<(Seq<u8>, EntryView)>,
    id2: Seq<u8>,
    p: Seq<Seq<char>>,
    adding2: bool,
    id: Seq<u8>,
    adding: bool,
)
    ensures
        spec_prev(spec_record(m, id2, p, adding2), id, adding) == (if id2 == id && adding2
            == adding && spec_prev(m, id, adding) is None {
            Some(spec_strip_meta(p))
        } else {
            spec_prev(m, id, adding)
        }),
    decreases m.len(),
{
    let rec = spec_record(m, id2, p, adding2);
    if m.len() == 0 {
        assert(rec == m.push((id2, entry_new(spec_strip_meta(p), adding2))));
        assert(rec[0].0 == id2);
        if id2 == id {
            assert(ledger_get(rec, id) == Some(entry_new(spec_strip_meta(p), adding2)));
        } else {
            assert(rec.drop_first() =~= Seq::<(Seq<u8>, EntryView)>::empty());
            assert(ledger_get(Seq::<(Seq<u8>, EntryView)>::empty(), id) is None);
            assert(ledger_get(rec, id) is None);
        }
    } else if m[0].0 == id2 {
        if entry_side(m[0].1, adding2) is None {
            let updated = m.update(0, (id2, entry_with(m[0].1, spec_strip_meta(p), adding2)));
            assert(rec == updated);
            assert(updated[0] == (id2, entry_with(m[0].1, spec_strip_meta(p), adding2)));
            if id == id2 {
                assert(ledger_get(updated, id) == Some(updated[0].1));
                assert(ledger_get(m, id) == Some(m[0].1));
            } else {
                assert(updated.drop_first() =~= m.drop_first());
                assert(ledger_get(updated, id) == ledger_get(m.drop_first(), id));
                assert(ledger_get(m, id) == ledger_get(m.drop_first(), id));
            }
        }
    } else {
        lemma_record_prev(m.drop_first(), id2, p, adding2, id, adding);
        assert(rec == seq![m[0]] + spec_record(m.drop_first(), id2, p, adding2));
        assert(rec.drop_first() =~= spec_record(m.drop_first(), id2, p, adding2));
        assert(rec[0] == m[0]);
    }
}

/// Applying a run of operations settles each side of each identifier on
/// the first path presented for it, unless one is already stored.
proof fn lemma_first_wins(
    m: Seq<(Seq<u8>, EntryView)>,
    ops: Seq<RecordOp>,
    id: Seq<u8>,
    adding: bool,
)
    ensures
        spec_prev(apply_ops(m, ops), id, adding) == (match spec_prev(m, id, adding) {
            Some(p) => Some(p),
            None => first_path(ops, id, adding),
        }),
    decreases ops.len(),
{
    if ops.len() > 0 {
        lemma_record_prev(m, ops[0].id, ops[0].path, ops[0].adding, id, adding);
        lemma_first_wins(
            spec_record(m, ops[0].id, ops[0].path, ops[0].adding),
            ops.drop_first(),
            id,
            adding,
        );
    }
}

/// Ledger invariant: after any sequence of recording operations on an
/// initially empty ledger, each identifier stores at most one added-path
/// and at most one removed-path (each side is an `Option`), and the stored
/// path is the first one presented for that identifier and side.
pub proof fn lemma_ledger_first_presented(ops: Seq<RecordOp>, id: Seq<u8>, adding: bool)
    ensures
        spec_prev(apply_ops(Seq::empty(), ops), id, adding) == first_path(ops, id, adding),
{
    lemma_first_wins(Seq::empty(), ops, id, adding);
}

/// Lexicographic order on identifiers, by byte value.
pub open spec fn bytes_lt(a: Seq<u8>, b: Seq<u8>) -> bool
    decreases a.len(),
{
    if b.len() == 0 {
        false
    } else if a.len() == 0 {
        true
    } else if a[0] != b[0] {
        a[0] < b[0]
    } else {
        bytes_lt(a.drop_first(), b.drop_first())
    }
}

/// Comparing two identifiers is settled by the bytes after their common
/// prefix.
proof fn lemma_bytes_lt_skip(a: Seq<u8>, b: Seq<u8>, i: int)
    requires
        0 <= i <= a.len(),
        i <= b.len(),
        forall|j: int| 0 <= j < i ==> a[j] == b[j],
    ensures
        bytes_lt(a, b) == bytes_lt(a.skip(i), b.skip(i)),
    decreases i,
{
    if i > 0 {
        assert(a[0] == b[0]);
        assert forall|j: int| 0 <= j < i - 1 implies a.drop_first()[j] == b.drop_first()[j] by {
            assert(a.drop_first()[j] == a[j + 1]);
            assert(b.drop_first()[j] == b[j + 1]);
        }
        lemma_bytes_lt_skip(a.drop_first(), b.drop_first(), i - 1);
        assert(a.drop_first().skip(i - 1) =~= a.skip(i));
        assert(b.drop_first().skip(i - 1) =~= b.skip(i));
    } else {
        assert(a.skip(0) =~= a);
        assert(b.skip(0) =~= b);
    }
}

/// Whether `a` orders strictly before `b`.
fn uuid_lt(a: &Uuid, b: &Uuid) -> (r: bool)
    ensures
        r == bytes_lt(a@, b@),
{
    let mut i: usize = 0;
    let ghost av = a@;
    let ghost bv = b@;
    proof {
        crate::uuid::lemma_uuid_len(*a);
        crate::uuid::lemma_uuid_len(*b);
    }
    loop
        invariant
            av == a@,
            bv == b@,
            av.len() == 16,
            bv.len() == 16,
            i <= 16,
            forall|j: int| 0 <= j < i ==> av[j] == bv[j],
        decreases 16 - i,
    {
        proof {
            lemma_bytes_lt_skip(av, bv, i as int);
        }
        if i >= 16 {
            proof {
                assert(av.skip(16).len() == 0);
                assert(bv.skip(16).len() == 0);
            }
            return false;
        }
        let ba = a.byte_at(i);
        let bb = b.byte_at(i);
        if ba != bb {
            proof {
                assert(av.skip(i as int)[0] == av[i as int]);
                assert(bv.skip(i as int)[0] == bv[i as int]);
            }
            return ba < bb;
        }
        i += 1;
    }
}

/// The identifiers stored in the ledger, in stored order.
pub open spec fn ledger_keys(m: Seq<(Seq<u8>, EntryView)>) -> Seq<Seq<u8>> {
    Seq::new(m.len(), |i: int| m[i].0)
}

/// `sorted` with the index `j` inserted before the first identifier it
/// orders strictly below.
pub open spec fn spec_ins_key_idx(keys: Seq<Seq<u8>>, sorted: Seq<int>, j: int) -> Seq<int>
    decreases sorted.len(),
{
    if sorted.len() == 0 {
        seq![j]
    } else if bytes_lt(keys[j], keys[sorted[0]]) {
        seq![j] + sorted
    } else {
        seq![sorted[0]] + spec_ins_key_idx(keys, sorted.drop_first(), j)
    }
}

/// The first `n` indices, insertion-sorted by identifier.
pub open spec fn spec_sort_key_idx_upto(keys: Seq<Seq<u8>>, n: int) -> Seq<int>
    decreases n,
{
    if n <= 0 {
        Seq::empty()
    } else {
        spec_ins_key_idx(keys, spec_sort_key_idx_upto(keys, n - 1), n - 1)
    }
}

/// Every index, insertion-sorted by identifier: the order of the listing.
pub open spec fn spec_sort_key_idx(keys: Seq<Seq<u8>>) -> Seq<int> {
    spec_sort_key_idx_upto(keys, keys.len() as int)
}

proof fn lemma_ins_key_shape(keys: Seq<Seq<u8>>, sorted: Seq<int>, j: int, p: int)
    requires
        0 <= p <= sorted.len(),
        forall|q: int| 0 <= q < p ==> !bytes_lt(keys[j], keys[#[trigger] sorted[q]]),
        p == sorted.len() || bytes_lt(keys[j], keys[sorted[p]]),
    ensures
        spec_ins_key_idx(keys, sorted, j) =~= sorted.take(p) + seq![j] + sorted.skip(p),
    decreases p,
{
    if p == 0 {
    } else {
        lemma_ins_key_shape(keys, sorted.drop_first(), j, p - 1);
        assert(seq![sorted[0]] + (sorted.drop_first().take(p - 1) + seq![j]
            + sorted.drop_first().skip(p - 1)) =~= sorted.take(p) + seq![j] + sorted.skip(p));
    }
}

/// One listing block: the identifier's canonical text, then the removed
/// path in red and the added path in green, each indented on its own line.
pub open spec fn spec_entry_lines(id: Seq<u8>, e: EntryView) -> Seq<char> {
    spec_render_uuid(id) + ":"@ + "\n"@ + (match e.removed {
        Some(p) => "  "@ + ansi_red() + spec_join_path(p) + ansi_reset() + "\n"@,
        None => Seq::<char>::empty(),
    }) + (match e.added {
        Some(p) => "  "@ + ansi_green() + spec_join_path(p) + ansi_reset() + "\n"@,
        None => Seq::<char>::empty(),
    })
}

/// The listing blocks for the entries at `order[pos..]`.
pub open spec fn spec_listing_from(
    m: Seq<(Seq<u8>, EntryView)>,
    order: Seq<int>,
    pos: int,
) -> Seq<char>
    decreases order.len() - pos,
{
    if pos < 0 || pos >= order.len() {
        Seq::empty()
    } else {
        let k = order[pos];
        let block = if 0 <= k < m.len() {
            spec_entry_lines(m[k].0, m[k].1)
        } else {
            Seq::empty()
        };
        block + spec_listing_from(m, order, pos + 1)
    }
}

/// The printable ledger listing: every entry, sorted by identifier.
pub open spec fn spec_render_listing(m: Seq<(Seq<u8>, EntryView)>) -> Seq<char> {
    spec_listing_from(m, spec_sort_key_idx(ledger_keys(m)), 0)
}

impl UuidStorage {
    /// Records or reports the fact selected by `adding` for `uuid`.
    fn record(&mut self, uuid: Uuid, path: &Vec<String>, adding: bool) -> (r: Option<Vec<String>>)
        ensures
            final(self)@ == spec_record(old(self)@, uuid@, path.deep_view(), adding),
            match r {
                None => spec_prev(old(self)@, uuid@, adding) is None,
                Some(prev) => spec_prev(old(self)@, uuid@, adding) == Some(prev.deep_view()),
            },
    {
        let ghost m = self@;
        let mut i: usize = 0;
        while i < self.lookup.len()
            invariant
                m == old(self)@,
                self@ == m,
                self.lookup@.len() == m.len(),
                i <= m.len(),
                forall|j: int| 0 <= j < i ==> #[trigger] m[j].0 != uuid@,
            decreases m.len() - i,
        {
            if self.lookup[i].0 == uuid {
                proof {
                    lemma_ledger_at(m, uuid@, path.deep_view(), adding, i as int);
                    assert(self.lookup@[i as int].1@ == m[i as int].1);
                }
                let entry = &self.lookup[i];
                let prev: Option<Vec<String>> = if adding {
                    match &entry.1.added {
                        Some(p) => Some(clone_path(p)),
                        None => None,
                    }
                } else {
                    match &entry.1.removed {
                        Some(p) => Some(clone_path(p)),
                        None => None,
                    }
                };
                match prev {
                    Some(p) => {
                        proof {
                            assert(entry_side(m[i as int].1, adding) == Some(p.deep_view())) by {
                                if adding {
                                    let q = entry.1.added->0;
                                    assert(p@ == q@);
                                    assert(p.deep_view() =~= q.deep_view());
                                } else {
                                    let q = entry.1.removed->0;
                                    assert(p@ == q@);
                                    assert(p.deep_view() =~= q.deep_view());
                                }
                            }
                        }
                        return Some(p);
                    },
                    None => {
                        let stripped = strip_meta_path(path);
                        if adding {
                            self.lookup[i].1.added = Some(stripped);
                        } else {
                            self.lookup[i].1.removed = Some(stripped);
                        }
                        proof {
                            assert(self@ =~= spec_record(m, uuid@, path.deep_view(), adding));
                        }
                        return None;
                    },
                }
            }
            i += 1;
        }
        proof {
            lemma_ledger_absent(m, uuid@, path.deep_view(), adding);
        }
        let stripped = strip_meta_path(path);
        let entry = if adding {
            UuidStorageEntry { added: Some(stripped), removed: None }
        } else {
            UuidStorageEntry { added: None, removed: Some(stripped) }
        };
        self.lookup.push((uuid, entry));
        proof {
            assert(self@ =~= spec_record(m, uuid@, path.deep_view(), adding));
        }
        None
    }

    /// Records that the asset `uuid` appeared at `path`. Returns the
    /// previously recorded path instead, leaving the ledger unchanged, when
    /// an added-fact already exists.
    pub fn added(&mut self, uuid: Uuid, path: &Vec<String>) -> (r: Option<Vec<String>>)
        ensures
            final(self)@ == spec_record(old(self)@, uuid@, path.deep_view(), true),
            match r {
                None => spec_prev(old(self)@, uuid@, true) is None,
                Some(prev) => spec_prev(old(self)@, uuid@, true) == Some(prev.deep_view()),
            },
    {
        self.record(uuid, path, true)
    }

    /// Records that the asset `uuid` disappeared from `path`. Returns the
    /// previously recorded path instead, leaving the ledger unchanged, when
    /// a removed-fact already exists.
    pub fn removed(&mut self, uuid: Uuid, path: &Vec<String>) -> (r: Option<Vec<String>>)
        ensures
            final(self)@ == spec_record(old(self)@, uuid@, path.deep_view(), false),
            match r {
                None => spec_prev(old(self)@, uuid@, false) is None,
                Some(prev) => spec_prev(old(self)@, uuid@, false) == Some(prev.deep_view()),
            },
    {
        self.record(uuid, path, false)
    }


    /// The indices of the entries, sorted ascending by identifier: the
    /// deterministic listing order.
    fn sort_ledger_indices(&self) -> (r: Vec<usize>)
        ensures
            idxs_of(r@) == spec_sort_key_idx(ledger_keys(self@)),
            r@.len() == self@.len(),
            forall|q: int| 0 <= q < r@.len() ==> #[trigger] r@[q] < self@.len(),
    {
        let ghost m = self@;
        let ghost keys = ledger_keys(m);
        let n = self.lookup.len();
        let mut order: Vec<usize> = Vec::new();
        proof {
            assert(idxs_of(order@) =~= spec_sort_key_idx_upto(keys, 0));
        }
        for j in 0..n
            invariant
                m == self@,
                n == self.lookup@.len(),
                m.len() == n,
                keys == ledger_keys(m),
                keys.len() == n,
                order@.len() == j,
                idxs_of(order@) == spec_sort_key_idx_upto(keys, j as int),
                forall|q: int| 0 <= q < order@.len() ==> #[trigger] order@[q] < n,
        {
            let mut p: usize = 0;
            while p < order.len() && !uuid_lt(&self.lookup[j].0, &self.lookup[order[p]].0)
                invariant
                    m == self@,
                    n == self.lookup@.len(),
                    m.len() == n,
                    keys == ledger_keys(m),
                    keys.len() == n,
                    j < n,
                    order@.len() <= n,
                    p <= order@.len(),
                    forall|q: int| 0 <= q < order@.len() ==> #[trigger] order@[q] < n,
                    forall|q: int|
                        0 <= q < p ==> !bytes_lt(keys[j as int], keys[idxs_of(order@)[q]]),
                decreases order@.len() - p,
            {
                proof {
                    assert(keys[j as int] == self.lookup@[j as int].0@);
                    assert(keys[order@[p as int] as int] == self.lookup@[order@[p as int] as int].0@);
                    assert(idxs_of(order@)[p as int] == order@[p as int] as int);
                }
                p += 1;
            }
            proof {
                if p < order.len() {
                    assert(keys[j as int] == self.lookup@[j as int].0@);
                    assert(keys[order@[p as int] as int] == self.lookup@[order@[p as int] as int].0@);
                }
                lemma_ins_key_shape(keys, idxs_of(order@), j as int, p as int);
            }
            let ghost pre = order@;
            order.insert(p, j);
            proof {
                assert(order@ =~= pre.take(p as int) + seq![j] + pre.skip(p as int));
                assert(idxs_of(order@) =~= idxs_of(pre).take(p as int) + seq![j as int] + idxs_of(
                    pre,
                ).skip(p as int));
                assert(idxs_of(order@) =~= spec_sort_key_idx_upto(keys, j + 1));
            }
        }
        order
    }

    /// The printable ledger listing: every identifier in ascending order,
    /// with the removed path in red and the added path in green.
    #[verifier::rlimit(60)]
    #[verifier::spinoff_prover]
    pub fn render_listing(&self) -> (r: String)
        ensures
            r@ == spec_render_listing(self@),
    {
        let ghost m = self@;
        let ghost keys = ledger_keys(m);
        let order = self.sort_ledger_indices();
        let ghost sorder = spec_sort_key_idx(keys);
        let mut out = String::new();
        let mut pos: usize = 0;
        proof {
            assert(Seq::<char>::empty() + spec_listing_from(m, sorder, 0) =~= spec_listing_from(
                m,
                sorder,
                0,
            ));
        }
        while pos < order.len()
            invariant
                m == self@,
                keys == ledger_keys(m),
                sorder == spec_sort_key_idx(keys),
                idxs_of(order@) == sorder,
                order@.len() == m.len(),
                forall|q: int| 0 <= q < order@.len() ==> #[trigger] order@[q] < m.len(),
                pos <= order@.len(),
                spec_listing_from(m, sorder, 0) == out@ + spec_listing_from(m, sorder, pos as int),
            decreases order@.len() - pos,
        {
            let ghost acc = out@;
            let k = order[pos];
            proof {
                assert(sorder[pos as int] == order@[pos as int] as int);
                assert(m[k as int].0 == self.lookup@[k as int].0@);
                assert(m[k as int].1 == self.lookup@[k as int].1@);
            }
            let entry = &self.lookup[k];
            let text = entry.0.render_text();
            out.append(text.as_str());
            out.append(":");
            out.append("\n");
            match &entry.1.removed {
                Some(p) => {
                    out.append("  ");
                    out.append("\x1b[91m");
                    let joined = join_path(p);
                    out.append(joined.as_str());
                    out.append("\x1b[0m");
                    out.append("\n");
                },
                None => {},
            }
            match &entry.1.added {
                Some(p) => {
                    out.append("  ");
                    out.append("\x1b[92m");
                    let joined = join_path(p);
                    out.append(joined.as_str());
                    out.append("\x1b[0m");
                    out.append("\n");
                },
                None => {},
            }
            proof {
                assert(out@ =~= acc + spec_entry_lines(m[k as int].0, m[k as int].1));
                assert(spec_listing_from(m, sorder, pos as int) == spec_entry_lines(
                    m[k as int].0,
                    m[k as int].1,
                ) + spec_listing_from(m, sorder, pos + 1));
                assert(acc + (spec_entry_lines(m[k as int].0, m[k as int].1) + spec_listing_from(
                    m,
                    sorder,
                    pos + 1,
                )) =~= out@ + spec_listing_from(m, sorder, pos + 1));
            }
            pos += 1;
        }
        proof {
            assert(spec_listing_from(m, sorder, pos as int) =~= Seq::<char>::empty());
            assert(out@ + Seq::<char>::empty() =~= out@);
        }
        out
    }

    /// Read-only access for the renderer: the entry stored for `uuid`.
    pub fn lookup(&self, uuid: Uuid) -> (r: Option<&UuidStorageEntry>)
        ensures
            match r {
                Some(e) => ledger_get(self@, uuid@) == Some(e@),
                None => ledger_get(self@, uuid@) is None,
            },
    {
        let ghost m = self@;
        let mut i: usize = 0;
        while i < self.lookup.len()
            invariant
                self@ == m,
                self.lookup@.len() == m.len(),
                i <= m.len(),
                forall|j: int| 0 <= j < i ==> #[trigger] m[j].0 != uuid@,
            decreases m.len() - i,
        {
            if self.lookup[i].0 == uuid {
                proof {
                    lemma_ledger_at(m, uuid@, Seq::empty(), true, i as int);
                }
                return Some(&self.lookup[i].1);
            }
            i += 1;
        }
        proof {
            lemma_ledger_absent(m, uuid@, Seq::empty(), true);
        }
        None
    }
}

} // verus!
