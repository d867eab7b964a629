//! Change-record triage.
//!
//! Consumes the filtered change-record sequence from the diff engine,
//! resolves each record's kind to identifier facts, and routes them into
//! the ledger and the two path trees. Conflicting duplicate facts become
//! warnings; every other irregularity is fatal and aborts the run.

use crate::asset_path::paths_equal;
use crate::asset_path::spec_strip_meta;
use crate::path_tree_storage::PathTreeStorage;
use crate::path_tree_storage::TreeError;
use crate::path_tree_storage::TreeView;
use crate::path_tree_storage::spec_insert_entries;
use crate::path_tree_storage::spec_uuid_at;
use crate::uuid::Uuid;
use crate::uuid::UuidError;
use crate::uuid::spec_find_guid_value;
use crate::uuid::spec_parse_uuid;
use crate::uuid_storage::EntryView;
use crate::uuid_storage::UuidStorage;
use crate::uuid_storage::spec_prev;
use crate::uuid_storage::spec_record;
use vstd::prelude::*;

verus! {

/// The change kinds the upstream diff engine reports.
#[derive(Clone, Copy, Debug, PartialEq, Eq, Structural)]
pub enum ChangeKind {
    /// The work-directory file was not recorded yet and is freshly added.
    Untracked,
    /// The file is newly recorded.
    Added,
    /// The file is no longer present.
    Deleted,
    /// The path is unchanged but the content differs.
    Modified,
    /// Any other kind, which this system does not handle.
    Other,
}

/// Why a run stops: every variant marks a broken assumption about the
/// upstream diff source, not a recoverable data edge case.
#[derive(Clone, Copy, Debug, PartialEq, Eq, Structural)]
pub enum ClassifyError {
    /// A record whose old and new paths are absent or differ; the diff
    /// source never reports true renames, so this must stop loudly.
    UnexpectedRename,
    /// A record whose path has no segments.
    EmptyPath,
    /// A record of a kind this system does not handle.
    UnsupportedChangeKind,
    /// The metadata content carries no `guid:` line.
    MissingIdentifier,
    /// The `guid:` line's value is not 32 hex characters.
    MalformedIdentifier,
    /// A second identifier was assigned to one tree node.
    DuplicateAssignment,
}

/// One change record from the diff engine, with its metadata content
/// already resolved: the text read from disk or from the content store for
/// whichever sides the kind needs.
pub struct ChangeRecord {
    pub old_path: Option<Vec<String>>,
    pub new_path: Option<Vec<String>>,
    pub kind: ChangeKind,
    pub old_content: Option<String>,
    pub new_content: Option<String>,
}

/// The mathematical content of one change record.
pub struct RecordView {
    pub old_path: Option<Seq<Seq<char>>>,
    pub new_path: Option<Seq<Seq<char>>>,
    pub kind: ChangeKind,
    pub old_content: Option<Seq<char>>,
    pub new_content: Option<Seq<char>>,
}

impl View for ChangeRecord {
    type V = RecordView;

    open spec fn view(&self) -> RecordView {
        RecordView {
            old_path: match self.old_path {
                Some(p) => Some(p.deep_view()),
                None => None,
            },
            new_path: match self.new_path {
                Some(p) => Some(p.deep_view()),
                None => None,
            },
            kind: self.kind,
            old_content: match self.old_content {
                Some(c) => Some(c@),
                None => None,
            },
            new_content: match self.new_content {
                Some(c) => Some(c@),
                None => None,
            },
        }
    }
}

/// The mathematical content of a record sequence.
pub open spec fn records_view(rs: Seq<ChangeRecord>) -> Seq<RecordView> {
    Seq::new(rs.len(), |i: int| rs[i]@)
}

/// A reported conflict: the identifier already carried a fact on this
/// side, so the newer path was ignored.
#[derive(Debug)]
pub struct Warning {
    pub uuid: Uuid,
    pub previous_path: Vec<String>,
    pub ignored_path: Vec<String>,
    pub adding: bool,
}

/// The mathematical content of one warning.
pub struct WarningView {
    pub uuid: Seq<u8>,
    pub previous_path: Seq<Seq<char>>,
    pub ignored_path: Seq<Seq<char>>,
    pub adding: bool,
}

impl View for Warning {
    type V = WarningView;

    open spec fn view(&self) -> WarningView {
        WarningView {
            uuid: self.uuid@,
            previous_path: self.previous_path.deep_view(),
            ignored_path: self.ignored_path.deep_view(),
            adding: self.adding,
        }
    }
}

/// The mathematical content of a warning list.
pub open spec fn warnings_view(ws: Seq<Warning>) -> Seq<WarningView> {
    Seq::new(ws.len(), |i: int| ws[i]@)
}

/// Everything one classification pass builds: the ledger, the two trees
/// and the warnings gathered so far.
pub struct ClassifyState {
    pub ledger: Seq<(Seq<u8>, EntryView)>,
    pub additions: Seq<(Seq<char>, TreeView)>,
    pub removals: Seq<(Seq<char>, TreeView)>,
    pub warnings: Seq<WarningView>,
}

/// One step's outcome: the state reached, and the fatal error if the step
/// aborted there.
pub struct StepResult {
    pub error: Option<ClassifyError>,
    pub state: ClassifyState,
}

/// The identifier embedded in metadata text, or why it cannot be read.
pub open spec fn spec_uuid_of_content(c: Seq<char>) -> Result<Seq<u8>, ClassifyError> {
    match spec_find_guid_value(c) {
        None => Err(ClassifyError::MissingIdentifier),
        Some(v) => match spec_parse_uuid(v) {
            None => Err(ClassifyError::MalformedIdentifier),
            Some(b) => Ok(b),
        },
    }
}

/// Registering one fact on one side: a conflict becomes a warning and the
/// newer path is dropped; otherwise the ledger records the fact and the
/// path enters the side's tree, unless the tree node is already taken.
pub open spec fn spec_register_side(
    ledger: Seq<(Seq<u8>, EntryView)>,
    tree: Seq<(Seq<char>, TreeView)>,
    warnings: Seq<WarningView>,
    path: Seq<Seq<char>>,
    id: Seq<u8>,
    adding: bool,
) -> (Option<ClassifyError>, Seq<(Seq<u8>, EntryView)>, Seq<(Seq<char>, TreeView)>, Seq<
    WarningView,
>) {
    match spec_prev(ledger, id, adding) {
        Some(prev) => (
            None,
            ledger,
            tree,
            warnings.push(
                WarningView { uuid: id, previous_path: prev, ignored_path: path, adding },
            ),
        ),
        None => {
            let ledger2 = spec_record(ledger, id, path, adding);
            if spec_uuid_at(tree, spec_strip_meta(path)) is Some {
                (Some(ClassifyError::DuplicateAssignment), ledger2, tree, warnings)
            } else {
                (None, ledger2, spec_insert_entries(tree, spec_strip_meta(path), id), warnings)
            }
        },
    }
}

/// `spec_register_side` applied to the side of the state that `adding`
/// selects.
pub open spec fn spec_register(
    st: ClassifyState,
    path: Seq<Seq<char>>,
    id: Seq<u8>,
    adding: bool,
) -> StepResult {
    if adding {
        let (e, l2, t2, w2) = spec_register_side(
            st.ledger,
            st.additions,
            st.warnings,
            path,
            id,
            adding,
        );
        StepResult {
            error: e,
            state: ClassifyState {
                ledger: l2,
                additions: t2,
                removals: st.removals,
                warnings: w2,
            },
        }
    } else {
        let (e, l2, t2, w2) = spec_register_side(
            st.ledger,
            st.removals,
            st.warnings,
            path,
            id,
            adding,
        );
        StepResult {
            error: e,
            state: ClassifyState {
                ledger: l2,
                additions: st.additions,
                removals: t2,
                warnings: w2,
            },
        }
    }
}

/// How one change record moves the state: validate the paths, read the
/// identifiers the kind calls for, and register the resulting facts.
pub open spec fn spec_step(st: ClassifyState, r: RecordView) -> StepResult {
    if r.old_path is None || r.new_path is None || r.old_path != r.new_path {
        StepResult { error: Some(ClassifyError::UnexpectedRename), state: st }
    } else {
        let path = r.old_path->0;
        if path.len() == 0 {
            StepResult { error: Some(ClassifyError::EmptyPath), state: st }
        } else {
            match r.kind {
                ChangeKind::Untracked => match spec_uuid_of_content(r.new_content->0) {
                    Err(e) => StepResult { error: Some(e), state: st },
                    Ok(id) => spec_register(st, path, id, true),
                },
                ChangeKind::Added => match spec_uuid_of_content(r.new_content->0) {
                    Err(e) => StepResult { error: Some(e), state: st },
                    Ok(id) => spec_register(st, path, id, true),
                },
                ChangeKind::Deleted => match spec_uuid_of_content(r.old_content->0) {
                    Err(e) => StepResult { error: Some(e), state: st },
                    Ok(id) => spec_register(st, path, id, false),
                },
                ChangeKind::Modified => match spec_uuid_of_content(r.old_content->0) {
                    Err(e) => StepResult { error: Some(e), state: st },
                    Ok(from) => match spec_uuid_of_content(r.new_content->0) {
                        Err(e) => StepResult { error: Some(e), state: st },
                        Ok(to) => if from == to {
                            StepResult { error: None, state: st }
                        } else {
                            let s1 = spec_register(st, path, to, true);
                            if s1.error is Some {
                                s1
                            } else {
                                spec_register(s1.state, path, from, false)
                            }
                        },
                    },
                },
                ChangeKind::Other => StepResult {
                    error: Some(ClassifyError::UnsupportedChangeKind),
                    state: st,
                },
            }
        }
    }
}

/// The whole pass: records in order, stopping at the first fatal error.
pub open spec fn spec_classify(st: ClassifyState, rs: Seq<RecordView>) -> StepResult
    decreases rs.len(),
{
    if rs.len() == 0 {
        StepResult { error: None, state: st }
    } else {
        let s1 = spec_step(st, rs[0]);
        if s1.error is Some {
            s1
        } else {
            spec_classify(s1.state, rs.drop_first())
        }
    }
}

/// Whether the record carries the content its kind reads.
pub open spec fn record_content_available(r: RecordView) -> bool {
    match r.kind {
        ChangeKind::Untracked => r.new_content is Some,
        ChangeKind::Added => r.new_content is Some,
        ChangeKind::Deleted => r.old_content is Some,
        ChangeKind::Modified => r.old_content is Some && r.new_content is Some,
        ChangeKind::Other => true,
    }
}

/// Reads the identifier out of resolved metadata content.
fn uuid_of_content(content: &String) -> (r: Result<Uuid, ClassifyError>)
    ensures
        match r {
            Ok(u) => spec_uuid_of_content(content@) == Ok::<Seq<u8>, ClassifyError>(u@),
            Err(e) => spec_uuid_of_content(content@) == Err::<Seq<u8>, ClassifyError>(e),
        },
{
    match Uuid::from_meta_content(content.as_str()) {
        Ok(u) => Ok(u),
        Err(UuidError::MissingIdentifier) => Err(ClassifyError::MissingIdentifier),
        Err(UuidError::MalformedIdentifier) => Err(ClassifyError::MalformedIdentifier),
    }
}

/// Registers one fact: a conflict is reported and the path dropped, a free
/// fact goes into the ledger and its side's tree.
fn register(
    uuid_storage: &mut UuidStorage,
    tree: &mut PathTreeStorage,
    warnings: &mut Vec<Warning>,
    path: &Vec<String>,
    uuid: Uuid,
    adding: bool,
) -> (r: Result<(), ClassifyError>)
    requires
        path@.len() > 0,
    ensures
        ({
            let (e, l2, t2, w2) = spec_register_side(
                old(uuid_storage)@,
                old(tree)@,
                warnings_view(old(warnings)@),
                path.deep_view(),
                uuid@,
                adding,
            );
            &&& (match r {
                Ok(()) => e is None,
                Err(err) => e == Some(err),
            })
            &&& final(uuid_storage)@ == l2
            &&& final(tree)@ == t2
            &&& warnings_view(final(warnings)@) == w2
        }),
{
    let ghost l0 = uuid_storage@;
    let ghost w0 = warnings_view(warnings@);
    let prev = if adding {
        uuid_storage.added(uuid, path)
    } else {
        uuid_storage.removed(uuid, path)
    };
    match prev {
        Some(previous_path) => {
            proof {
                crate::uuid_storage::lemma_record_noop(l0, uuid@, path.deep_view(), adding);
            }
            let w = Warning {
                uuid,
                previous_path,
                ignored_path: crate::asset_path::clone_path(path),
                adding,
            };
            warnings.push(w);
            proof {
                assert(warnings_view(warnings@) =~= w0.push(
                    WarningView {
                        uuid: uuid@,
                        previous_path: spec_prev(l0, uuid@, adding)->0,
                        ignored_path: path.deep_view(),
                        adding,
                    },
                ));
            }
            Ok(())
        },
        None => {
            match tree.add_to_tree(path, uuid) {
                Ok(()) => Ok(()),
                Err(TreeError::DuplicateAssignment) => Err(ClassifyError::DuplicateAssignment),
            }
        },
    }
}

/// Consumes the filtered change records in order and routes the identifier
/// facts they carry into the ledger and the two trees. Returns the
/// warnings of the run, or the first fatal error; the storages hold
/// whatever was routed before the stop.
pub fn sort_deltas_into_storages(
    records: &Vec<ChangeRecord>,
    uuid_storage: &mut UuidStorage,
    addition_tree: &mut PathTreeStorage,
    removal_tree: &mut PathTreeStorage,
) -> (r: Result<Vec<Warning>, ClassifyError>)
    requires
        forall|i: int|
            0 <= i < records@.len() ==> record_content_available(#[trigger] records@[i]@),
    ensures
        ({
            let outcome = spec_classify(
                ClassifyState {
                    ledger: old(uuid_storage)@,
                    additions: old(addition_tree)@,
                    removals: old(removal_tree)@,
                    warnings: Seq::empty(),
                },
                records_view(records@),
            );
            &&& (match r {
                Ok(ws) => outcome.error is None && warnings_view(ws@) == outcome.state.warnings,
                Err(e) => outcome.error == Some(e),
            })
            &&& final(uuid_storage)@ == outcome.state.ledger
            &&& final(addition_tree)@ == outcome.state.additions
            &&& final(removal_tree)@ == outcome.state.removals
        }),
{
    let ghost rsv = records_view(records@);
    let ghost init = ClassifyState {
        ledger: uuid_storage@,
        additions: addition_tree@,
        removals: removal_tree@,
        warnings: Seq::empty(),
    };
    let mut warnings: Vec<Warning> = Vec::new();
    let n = records.len();
    let mut i: usize = 0;
    proof {
        assert(warnings_view(warnings@) =~= Seq::<WarningView>::empty());
        assert(rsv.skip(0) =~= rsv);
    }
    while i < n
        invariant
            n == records@.len(),
            i <= n,
            rsv == records_view(records@),
            init == (ClassifyState {
                ledger: old(uuid_storage)@,
                additions: old(addition_tree)@,
                removals: old(removal_tree)@,
                warnings: Seq::empty(),
            }),
            forall|j: int|
                0 <= j < records@.len() ==> record_content_available(#[trigger] records@[j]@),
            spec_classify(init, rsv) == spec_classify(
                ClassifyState {
                    ledger: uuid_storage@,
                    additions: addition_tree@,
                    removals: removal_tree@,
                    warnings: warnings_view(warnings@),
                },
                rsv.skip(i as int),
            ),
        decreases n - i,
    {
        let ghost cur = ClassifyState {
            ledger: uuid_storage@,
            additions: addition_tree@,
            removals: removal_tree@,
            warnings: warnings_view(warnings@),
        };
        proof {
            assert(rsv.skip(i as int)[0] == rsv[i as int]);
            assert(rsv[i as int] == records@[i as int]@);
            assert(rsv.skip(i as int).drop_first() =~= rsv.skip(i + 1));
        }
        let record = &records[i];
        let ghost rv = record@;
        let ghost step = spec_step(cur, rv);
        // Both paths must be present and identical: the upstream source
        // never reports true renames.
        let path: &Vec<String> = match (&record.old_path, &record.new_path) {
            (Some(op), Some(np)) => {
                if !paths_equal(op, np) {
                    return Err(ClassifyError::UnexpectedRename);
                }
                op
            },
            _ => {
                return Err(ClassifyError::UnexpectedRename);
            },
        };
        if path.len() == 0 {
            return Err(ClassifyError::EmptyPath);
        }
        match record.kind {
            ChangeKind::Untracked | ChangeKind::Added => {
                let content = match &record.new_content {
                    Some(c) => c,
                    None => {
                        proof {
                            assert(false);
                        }
                        return Err(ClassifyError::MissingIdentifier);
                    },
                };
                let uuid = match uuid_of_content(content) {
                    Ok(u) => u,
                    Err(e) => {
                        return Err(e);
                    },
                };
                match register(uuid_storage, addition_tree, &mut warnings, path, uuid, true) {
                    Ok(()) => {},
                    Err(e) => {
                        return Err(e);
                    },
                }
            },
            ChangeKind::Deleted => {
                let content = match &record.old_content {
                    Some(c) => c,
                    None => {
                        proof {
                            assert(false);
                        }
                        return Err(ClassifyError::MissingIdentifier);
                    },
                };
                let uuid = match uuid_of_content(content) {
                    Ok(u) => u,
                    Err(e) => {
                        return Err(e);
                    },
                };
                match register(uuid_storage, removal_tree, &mut warnings, path, uuid, false) {
                    Ok(()) => {},
                    Err(e) => {
                        return Err(e);
                    },
                }
            },
            ChangeKind::Modified => {
                let old_content = match &record.old_content {
                    Some(c) => c,
                    None => {
                        proof {
                            assert(false);
                        }
                        return Err(ClassifyError::MissingIdentifier);
                    },
                };
                let new_content = match &record.new_content {
                    Some(c) => c,
                    None => {
                        proof {
                            assert(false);
                        }
                        return Err(ClassifyError::MissingIdentifier);
                    },
                };
                let uuid_from = match uuid_of_content(old_content) {
                    Ok(u) => u,
                    Err(e) => {
                        return Err(e);
                    },
                };
                let uuid_to = match uuid_of_content(new_content) {
                    Ok(u) => u,
                    Err(e) => {
                        return Err(e);
                    },
                };
                // Only a change of embedded identity is interesting: the
                // path then refers to a logically different asset.
                if !(uuid_from == uuid_to) {
                    match register(uuid_storage, addition_tree, &mut warnings, path, uuid_to, true) {
                        Ok(()) => {},
                        Err(e) => {
                            return Err(e);
                        },
                    }
                    match register(
                        uuid_storage,
                        removal_tree,
                        &mut warnings,
                        path,
                        uuid_from,
                        false,
                    ) {
                        Ok(()) => {},
                        Err(e) => {
                            return Err(e);
                        },
                    }
                }
            },
            ChangeKind::Other => {
                return Err(ClassifyError::UnsupportedChangeKind);
            },
        }
        proof {
            assert(step.error is None);
            assert(step.state == (ClassifyState {
                ledger: uuid_storage@,
                additions: addition_tree@,
                removals: removal_tree@,
                warnings: warnings_view(warnings@),
            }));
        }
        i += 1;
    }
    proof {
        assert(rsv.skip(n as int).len() == 0);
    }
    Ok(warnings)
}

} // verus!
