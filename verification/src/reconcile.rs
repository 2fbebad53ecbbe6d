//! The reconciliation engine: the decision function that classifies a
//! (catalog record, vault record) pair into Import, Export or Skip, and the
//! full-sweep driver that applies it across the whole corpus.
use vstd::prelude::*;
use crate::catalog::{catalog_get, lemma_get_of_index, merged_note, Catalog};
use crate::codec::{parse_spec, serialize_spec, FmView};
use crate::crypto::fingerprint_of;
use crate::note::{plain_field, representable, title_field, Note, NoteView};
use crate::text::{lex_le, str_eq};
use crate::vault::{
    id_ok, imported_note, is_markdown_name, lemma_id_ok_md_name, lemma_md_suffix_inj,
    md_file_name, vault_get, Vault, VaultFileView,
};

verus! {

/// What the reconciler decides for one note. `Conflict` is a type-level
/// alternative only: last-write-wins resolves every conflict, so the
/// decision function never returns it.
#[derive(Debug, Clone, Copy, PartialEq, Eq, Structural)]
pub enum SyncAction {
    Import,
    Export,
    Skip,
    Conflict,
}

/// A sync operation that failed and can be retried.
#[derive(Debug)]
pub struct FailedSyncOp {
    pub note_id: String,
    pub operation: String,
    pub error: String,
    pub retry_count: u32,
}

/// The mathematical view of a failed operation.
pub ghost struct FailedOpView {
    pub note_id: Seq<char>,
    pub operation: Seq<char>,
    pub error: Seq<char>,
    pub retry_count: u32,
}

impl View for FailedSyncOp {
    type V = FailedOpView;

    open spec fn view(&self) -> FailedOpView {
        FailedOpView {
            note_id: self.note_id@,
            operation: self.operation@,
            error: self.error@,
            retry_count: self.retry_count,
        }
    }
}

impl Clone for FailedSyncOp {
    fn clone(&self) -> (r: FailedSyncOp)
        ensures
            r@ == self@,
    {
        FailedSyncOp {
            note_id: self.note_id.clone(),
            operation: self.operation.clone(),
            error: self.error.clone(),
            retry_count: self.retry_count,
        }
    }
}

/// Result of a full reconciliation run.
#[derive(Debug)]
pub struct ReconcileResult {
    pub files_synced: u32,
    pub imported_note_ids: Vec<String>,
    pub failures: Vec<FailedSyncOp>,
}

/// The decision table. The fingerprints decide: equal defined fingerprints
/// skip; a catalog record without one is exported; a vault record without
/// one is imported; differing defined fingerprints fall to last-write-wins
/// on `updated_at`, the catalog winning ties.
pub open spec fn reconcile_spec(db: Option<NoteView>, f: NoteView) -> SyncAction {
    match db {
        Option::None => SyncAction::Import,
        Option::Some(d) => {
            if d.sync_hash is Some && f.sync_hash is Some && d.sync_hash->0 == f.sync_hash->0 {
                SyncAction::Skip
            } else if d.sync_hash is None {
                SyncAction::Export
            } else if f.sync_hash is None {
                SyncAction::Import
            } else if lex_le(f.updated_at, d.updated_at) {
                SyncAction::Export
            } else {
                SyncAction::Import
            }
        }
    }
}

pub open spec fn opt_note_view(db: Option<&Note>) -> Option<NoteView> {
    match db {
        Option::Some(n) => Some(n@),
        Option::None => None,
    }
}

/// Compare a catalog record and a vault record by fingerprint and return
/// the action to take; conflicts resolve by last-write-wins, so `Conflict`
/// is never returned.
pub fn reconcile(db_note: Option<&Note>, file_note: &Note) -> (r: SyncAction)
    ensures
        r == reconcile_spec(opt_note_view(db_note), file_note@),
        r != SyncAction::Conflict,
{
    match db_note {
        Option::None => SyncAction::Import,
        Option::Some(db) => {
            match (&db.sync_hash, &file_note.sync_hash) {
                (Option::Some(dh), Option::Some(fh)) => {
                    if str_eq(dh.as_str(), fh.as_str()) {
                        SyncAction::Skip
                    } else {
                        if crate::text::lex_le_exec(
                            file_note.updated_at.as_str(),
                            db.updated_at.as_str(),
                        ) {
                            SyncAction::Export
                        } else {
                            SyncAction::Import
                        }
                    }
                }
                (Option::None, _) => SyncAction::Export,
                (Option::Some(_), Option::None) => SyncAction::Import,
            }
        }
    }
}

// ---- the sweep's specification vocabulary ----

/// The queue entries whose retries are exhausted, in order.
pub open spec fn capped_of(q: Seq<FailedSyncOp>) -> Seq<FailedSyncOp>
    decreases q.len(),
{
    if q.len() == 0 {
        Seq::empty()
    } else {
        (if q[0]@.retry_count >= 3 {
            seq![q[0]]
        } else {
            Seq::empty()
        }) + capped_of(q.subrange(1, q.len() as int))
    }
}

/// The queue entries still eligible for a retry, in order.
pub open spec fn uncapped_of(q: Seq<FailedSyncOp>) -> Seq<FailedSyncOp>
    decreases q.len(),
{
    if q.len() == 0 {
        Seq::empty()
    } else {
        (if q[0]@.retry_count < 3 {
            seq![q[0]]
        } else {
            Seq::empty()
        }) + uncapped_of(q.subrange(1, q.len() as int))
    }
}

proof fn lemma_capped_snoc(q: Seq<FailedSyncOp>, op: FailedSyncOp)
    ensures
        capped_of(q.push(op)) == capped_of(q) + (if op@.retry_count >= 3 {
            seq![op]
        } else {
            Seq::<FailedSyncOp>::empty()
        }),
        uncapped_of(q.push(op)) == uncapped_of(q) + (if op@.retry_count < 3 {
            seq![op]
        } else {
            Seq::<FailedSyncOp>::empty()
        }),
    decreases q.len(),
{
    let t = q.push(op);
    if q.len() == 0 {
        assert(t =~= seq![op]);
        assert(t[0] == op);
        assert(capped_of(q) == Seq::<FailedSyncOp>::empty());
        assert(uncapped_of(q) == Seq::<FailedSyncOp>::empty());
        assert(t.subrange(1, t.len() as int) =~= Seq::<FailedSyncOp>::empty());
        assert(capped_of(t) == (if t[0]@.retry_count >= 3 {
            seq![t[0]]
        } else {
            Seq::<FailedSyncOp>::empty()
        }) + capped_of(t.subrange(1, t.len() as int)));
        assert(capped_of(t.subrange(1, t.len() as int)) == Seq::<FailedSyncOp>::empty());
        assert(uncapped_of(t.subrange(1, t.len() as int)) == Seq::<FailedSyncOp>::empty());
        assert(capped_of(t) =~= capped_of(q) + (if op@.retry_count >= 3 {
            seq![op]
        } else {
            Seq::<FailedSyncOp>::empty()
        }));
        assert(uncapped_of(t) =~= uncapped_of(q) + (if op@.retry_count < 3 {
            seq![op]
        } else {
            Seq::<FailedSyncOp>::empty()
        }));
    } else {
        assert(t[0] == q[0]);
        assert(t.subrange(1, t.len() as int) =~= q.subrange(1, q.len() as int).push(op));
        lemma_capped_snoc(q.subrange(1, q.len() as int), op);
        assert(capped_of(t) =~= capped_of(q) + (if op@.retry_count >= 3 {
            seq![op]
        } else {
            Seq::<FailedSyncOp>::empty()
        }));
        assert(uncapped_of(t) =~= uncapped_of(q) + (if op@.retry_count < 3 {
            seq![op]
        } else {
            Seq::<FailedSyncOp>::empty()
        }));
    }
}

/// Every entry still eligible for a retry has retries left; every
/// exhausted entry kept is exhausted.
proof fn lemma_split_bounds(q: Seq<FailedSyncOp>)
    ensures
        forall|k: int|
            0 <= k < uncapped_of(q).len() ==> (#[trigger] uncapped_of(q)[k])@.retry_count < 3,
    decreases q.len(),
{
    if q.len() > 0 {
        lemma_split_bounds(q.subrange(1, q.len() as int));
        let cur = uncapped_of(q);
        let head: Seq<FailedSyncOp> = if q[0]@.retry_count < 3 {
            seq![q[0]]
        } else {
            Seq::empty()
        };
        assert forall|k: int|
            0 <= k < cur.len() implies (#[trigger] cur[k])@.retry_count < 3 by {
            if k < head.len() {
                assert(cur[k] == q[0]);
            } else {
                assert(cur[k] == uncapped_of(q.subrange(1, q.len() as int))[k - head.len()]);
            }
        }
    }
}

/// Separate the exhausted entries (kept verbatim for the caller) from the
/// ones that will be retried.
fn split_capped(queue: Vec<FailedSyncOp>) -> (out: (Vec<FailedSyncOp>, Vec<FailedSyncOp>))
    ensures
        out.0@ == capped_of(queue@),
        out.1@ == uncapped_of(queue@),
{
    let mut q = queue;
    let ghost q0 = q@;
    let ghost mut done: Seq<FailedSyncOp> = Seq::empty();
    let mut kept: Vec<FailedSyncOp> = Vec::new();
    let mut rest: Vec<FailedSyncOp> = Vec::new();
    proof {
        assert(done + q@ =~= q0);
        assert(kept@ =~= capped_of(done));
        assert(rest@ =~= uncapped_of(done));
    }
    while q.len() > 0
        invariant
            q0 == done + q@,
            kept@ == capped_of(done),
            rest@ == uncapped_of(done),
        decreases q@.len(),
    {
        let op = q.remove(0);
        proof {
            lemma_capped_snoc(done, op);
            assert(done.push(op) + q@ =~= q0);
        }
        if op.retry_count >= 3 {
            kept.push(op);
        } else {
            rest.push(op);
        }
        proof {
            done = done.push(op);
        }
    }
    proof {
        assert(done =~= q0);
    }
    (kept, rest)
}

/// The title a parsed header carries, or the empty title.
pub open spec fn fm_title(fm: FmView) -> Seq<char> {
    match fm.title {
        Option::Some(t) => t,
        Option::None => Seq::empty(),
    }
}

/// The modification time a parsed header carries, or the sweep time.
pub open spec fn fm_updated(fm: FmView, now: Seq<char>) -> Seq<char> {
    match fm.updated_at {
        Option::Some(u) => u,
        Option::None => now,
    }
}

/// The parsed header and body of the file stored under `nm`, if the file
/// exists and parses.
pub open spec fn file_at(v: Seq<VaultFileView>, nm: Seq<char>) -> Option<(FmView, Seq<char>)> {
    match vault_get(v, nm) {
        Option::None => None,
        Option::Some(tx) => parse_spec(tx),
    }
}

/// The note an identified vault file denotes: header fields, the body,
/// defaults for what the header lacks.
pub open spec fn file_record(fm: FmView, body: Seq<char>, nm: Seq<char>, now: Seq<char>) -> NoteView {
    NoteView {
        id: fm.id->0,
        title: fm_title(fm),
        content: body,
        created_at: (match fm.created_at {
            Option::Some(c) => c,
            Option::None => now,
        }),
        updated_at: fm_updated(fm, now),
        is_trashed: false,
        is_pinned: fm.is_pinned,
        word_count: crate::note::word_count_spec(body) as u64,
        file_path: Some(nm),
        sync_hash: None,
        tags: (if fm.tags.len() > 0 {
            fm.tags
        } else {
            crate::tags::tag_seq_of(body)
        }),
        state: "draft"@,
        workspace_id: None,
        version: 1,
    }
}

/// The file's record as the scan carries it: its own fingerprint filled in.
pub open spec fn scanned_record(fm: FmView, body: Seq<char>, nm: Seq<char>, now: Seq<char>) -> NoteView {
    NoteView {
        sync_hash: Some(fingerprint_of(fm_title(fm) + body)),
        ..file_record(fm, body, nm, now)
    }
}

/// What the decision table yields for an identified file against the
/// catalog record under its identifier.
pub open spec fn scan_decision(
    d: Option<NoteView>,
    fm: FmView,
    body: Seq<char>,
    nm: Seq<char>,
    now: Seq<char>,
) -> SyncAction {
    reconcile_spec(d, scanned_record(fm, body, nm, now))
}

/// What an import stores: the merged record on an existing id, the file's
/// record (fingerprint filled in) on a fresh one.
pub open spec fn import_result(
    d: Option<NoteView>,
    fm: FmView,
    body: Seq<char>,
    nm: Seq<char>,
    now: Seq<char>,
) -> NoteView {
    let rec = file_record(fm, body, nm, now);
    let fp = fingerprint_of(fm_title(fm) + body);
    match d {
        Option::Some(o) => merged_note(o, rec, fp),
        Option::None => NoteView { sync_hash: Some(fp), ..rec },
    }
}

/// What an export leaves in the catalog: the record with its fingerprint
/// refreshed.
pub open spec fn export_result(o: NoteView) -> NoteView {
    NoteView { sync_hash: Some(fingerprint_of(o.title + o.content)), ..o }
}

/// The outcome of processing one enumerated file.
pub enum ScanOutcome {
    Imported(String),
    Exported(String),
    Skipped(String),
    NoRecord,
}

// ---- the sweep ----

/// Write `note` to the vault as `<id>.md` and store its fresh fingerprint
/// in the catalog.
fn export_note(catalog: &mut Catalog, vault: &mut Vault, note: &Note)
    requires
        old(catalog).wf(),
        old(vault).wf(),
    ensures
        final(catalog).wf(),
        final(vault).wf(),
        final(catalog).tag_defs@ == old(catalog).tag_defs@,
        final(catalog).links@ == old(catalog).links@,
        final(catalog).activity@ == old(catalog).activity@,
        final(catalog).settings@ == old(catalog).settings@,
        forall|q: Seq<char>|
            #[trigger] vault_get(final(vault).view_files(), q) == (if q == note@.id + ".md"@ {
                Some(serialize_spec(note@))
            } else {
                vault_get(old(vault).view_files(), q)
            }),
        forall|q: Seq<char>|
            #[trigger] catalog_get(final(catalog).view_notes(), q) == (match catalog_get(
                old(catalog).view_notes(),
                q,
            ) {
                Option::Some(o) => if q == note@.id {
                    Some(
                        NoteView {
                            sync_hash: Some(fingerprint_of(note@.title + note@.content)),
                            ..o
                        },
                    )
                } else {
                    Some(o)
                },
                Option::None => None::<NoteView>,
            }),
{
    let name = md_file_name(note.id.as_str());
    let text = crate::codec::serialize_frontmatter(note);
    vault.write(name, text);
    let hash = crate::crypto::compute_sync_hash(note.title.as_str(), note.content.as_str());
    catalog.update_sync_hash(note.id.as_str(), hash);
}

/// Saturating counter step.
fn bump(x: u32) -> (r: u32)
    ensures
        x < 0xffff_ffffu32 ==> r == x + 1,
        r >= x,
{
    if x < 0xffff_ffffu32 {
        x + 1
    } else {
        x
    }
}

/// Whether `ids` holds `id`.
fn contains_id(ids: &Vec<String>, id: &str) -> (r: bool)
    ensures
        r == exists|s: int| 0 <= s < ids@.len() && (#[trigger] ids@[s])@ == id@,
{
    let mut s: usize = 0;
    while s < ids.len()
        invariant
            s <= ids@.len(),
            forall|s0: int| 0 <= s0 < s ==> (#[trigger] ids@[s0])@ != id@,
        decreases ids@.len() - s,
    {
        if str_eq(ids[s].as_str(), id) {
            return true;
        }
        s = s + 1;
    }
    false
}

/// Retry the queued failed operations: exhausted entries (three failures
/// already) come back verbatim and are not attempted again; an import is
/// re-read from the vault, an export is re-written from the catalog, and a
/// retry that fails again comes back with its count increased.
#[verifier::rlimit(100)]
fn sweep_retries(
    catalog: &mut Catalog,
    vault: &mut Vault,
    retry_queue: Vec<FailedSyncOp>,
    now: &str,
) -> (out: (u32, Vec<String>, Vec<FailedSyncOp>))
    requires
        old(catalog).wf(),
        old(vault).wf(),
        plain_field(now@),
        now@.len() > 0,
    ensures
        final(catalog).wf(),
        final(vault).wf(),
        final(catalog).activity@ == old(catalog).activity@,
        final(catalog).settings@ == old(catalog).settings@,
        exists|extra: Seq<FailedSyncOp>|
            out.2@ == capped_of(retry_queue@) + extra && (forall|k: int|
                0 <= k < extra.len() ==> (#[trigger] extra[k])@.operation == "import"@
                    && extra[k]@.retry_count <= 3),
        retry_queue@.len() == 0 ==> out.2@.len() == 0,
        uncapped_of(retry_queue@).len() == 0 ==> final(catalog).view_notes() == old(catalog).view_notes() && final(vault).view_files() == old(vault).view_files() && final(catalog).tag_defs@ == old(catalog).tag_defs@ && final(catalog).links@ == old(catalog).links@
            && out.2@ == capped_of(retry_queue@),
{
    let ghost q0 = retry_queue@;
    let pair = split_capped(retry_queue);
    let mut failures = pair.0;
    let rest = pair.1;
    let ghost base = failures@.len() as int;
    let mut files_synced: u32 = 0;
    let mut imported: Vec<String> = Vec::new();
    let mut i: usize = 0;
    proof {
        lemma_split_bounds(q0);
        assert(failures@.subrange(0, base) =~= capped_of(q0));
        if q0.len() == 0 {
            assert(capped_of(q0) =~= Seq::<FailedSyncOp>::empty());
            assert(uncapped_of(q0) =~= Seq::<FailedSyncOp>::empty());
        }
    }
    while i < rest.len()
        invariant
            catalog.wf(),
            vault.wf(),
            catalog.activity@ == old(catalog).activity@,
            catalog.settings@ == old(catalog).settings@,
            i <= rest@.len(),
            plain_field(now@),
            now@.len() > 0,
            base == capped_of(q0).len(),
            failures@.len() >= base,
            failures@.subrange(0, base) == capped_of(q0),
            forall|k: int|
                base <= k < failures@.len() ==> (#[trigger] failures@[k])@.operation
                    == "import"@ && failures@[k]@.retry_count <= 3,
            forall|k: int|
                0 <= k < rest@.len() ==> (#[trigger] rest@[k])@.retry_count < 3,
            rest@.len() == 0 ==> failures@.len() == base && catalog.view_notes() == old(catalog).view_notes() && vault.view_files() == old(vault).view_files()
                && catalog.tag_defs@ == old(catalog).tag_defs@ && catalog.links@ == old(catalog).links@,
        decreases rest@.len() - i,
    {
        let op = rest[i].clone();
        if str_eq(op.operation.as_str(), "import") {
            let name = md_file_name(op.note_id.as_str());
            match vault.read(name.as_str()) {
                Option::None => {},
                Option::Some(text) => {
                    let fallback = crate::host::new_note_id();
                    match crate::vault::note_from_file(
                        text.as_str(),
                        name.as_str(),
                        fallback,
                        now,
                    ) {
                        Result::Ok(n) => {
                            let hash = crate::crypto::compute_sync_hash(
                                n.title.as_str(),
                                n.content.as_str(),
                            );
                            catalog.upsert_from_file(&n, hash);
                            imported.push(n.id.clone());
                            files_synced = bump(files_synced);
                        }
                        Result::Err(e) => {
                            let mut failed = op;
                            failed.retry_count = failed.retry_count + 1;
                            failed.error = e.message();
                            let ghost prev = failures@;
                            failures.push(failed);
                            proof {
                                assert(failures@.subrange(0, base) =~= prev.subrange(0, base));
                            }
                        }
                    }
                }
            }
        } else if str_eq(op.operation.as_str(), "export") {
            match catalog.fetch_note(op.note_id.as_str()) {
                Result::Ok(n) => {
                    export_note(catalog, vault, &n);
                    files_synced = bump(files_synced);
                }
                Result::Err(_) => {},
            }
        } else {
        }
        i = i + 1;
    }
    proof {
        let extra = failures@.subrange(base, failures@.len() as int);
        assert(failures@ =~= capped_of(q0) + extra);
        assert forall|k: int|
            0 <= k < extra.len() implies (#[trigger] extra[k])@.operation == "import"@
                && extra[k]@.retry_count <= 3 by {
            assert(extra[k] == failures@[base + k]);
        }
        if q0.len() == 0 {
            assert(capped_of(q0) == Seq::<FailedSyncOp>::empty());
            assert(failures@.len() == 0);
        }
    }
    (files_synced, imported, failures)
}

/// A note read from an identified file is exactly the file's record.
proof fn lemma_record_of_import(
    nv: NoteView,
    fm: FmView,
    body: Seq<char>,
    nm: Seq<char>,
    fb: Seq<char>,
    now: Seq<char>,
)
    requires
        imported_note(nv, fm, body, nm, fb, now),
        fm.id is Some,
    ensures
        nv == file_record(fm, body, nm, now),
{
    reveal(crate::vault::imported_note);
    assert(nv.word_count == crate::note::word_count_spec(body));
    assert(crate::note::word_count_spec(body) as u64 == nv.word_count);
}

/// Catalog and vault changed at most at one identifier and its file.
pub open spec fn confined_to(
    pre_c: Seq<NoteView>,
    post_c: Seq<NoteView>,
    pre_v: Seq<VaultFileView>,
    post_v: Seq<VaultFileView>,
    id: Seq<char>,
) -> bool {
    &&& (forall|q: Seq<char>|
        q != id ==> #[trigger] catalog_get(post_c, q) == catalog_get(pre_c, q))
    &&& (forall|q: Seq<char>|
        q != id + ".md"@ ==> #[trigger] vault_get(post_v, q) == vault_get(pre_v, q))
}

/// Process one enumerated file: read it, parse it, decide by the table,
/// and apply the action. An absent or unparseable file does nothing.
#[verifier::rlimit(100)]
fn scan_one(catalog: &mut Catalog, vault: &mut Vault, name: &str, now: &str) -> (r: ScanOutcome)
    requires
        old(catalog).wf(),
        old(vault).wf(),
        plain_field(now@),
        now@.len() > 0,
    ensures
        final(catalog).wf(),
        final(vault).wf(),
        final(catalog).activity@ == old(catalog).activity@,
        final(catalog).settings@ == old(catalog).settings@,
        file_at(old(vault).view_files(), name@) is None ==> r is NoRecord,
        r is NoRecord ==> final(catalog).view_notes() == old(catalog).view_notes() && final(vault).view_files() == old(vault).view_files() && final(catalog).tag_defs@ == old(catalog).tag_defs@ && final(catalog).links@ == old(catalog).links@,
        // an identified file gets exactly the decision table's action
        (file_at(old(vault).view_files(), name@) is Some && (file_at(
            old(vault).view_files(),
            name@,
        )->0).0.id is Some) ==> {
            let fm = (file_at(old(vault).view_files(), name@)->0).0;
            let body = (file_at(old(vault).view_files(), name@)->0).1;
            let fid = fm.id->0;
            let d = catalog_get(old(catalog).view_notes(), fid);
            match scan_decision(d, fm, body, name@, now@) {
                SyncAction::Import => {
                    &&& r == ScanOutcome::Imported(r.arrow_Imported_0())
                    &&& (r.arrow_Imported_0())@ == fid
                    &&& (forall|q: Seq<char>|
                        #[trigger] catalog_get(final(catalog).view_notes(), q) == (if q == fid {
                            Some(import_result(d, fm, body, name@, now@))
                        } else {
                            catalog_get(old(catalog).view_notes(), q)
                        }))
                    &&& final(vault).view_files() == old(vault).view_files()
                },
                SyncAction::Export => {
                    &&& r == ScanOutcome::Exported(r.arrow_Exported_0())
                    &&& (r.arrow_Exported_0())@ == fid
                    &&& d is Some
                    &&& (forall|q: Seq<char>|
                        #[trigger] vault_get(final(vault).view_files(), q) == (if q == fid
                            + ".md"@ {
                            Some(serialize_spec(d->0))
                        } else {
                            vault_get(old(vault).view_files(), q)
                        }))
                    &&& (forall|q: Seq<char>|
                        #[trigger] catalog_get(final(catalog).view_notes(), q) == (if q == fid {
                            Some(export_result(d->0))
                        } else {
                            catalog_get(old(catalog).view_notes(), q)
                        }))
                    &&& final(catalog).tag_defs@ == old(catalog).tag_defs@
                    &&& final(catalog).links@ == old(catalog).links@
                },
                SyncAction::Skip => {
                    &&& r == ScanOutcome::Skipped(r.arrow_Skipped_0())
                    &&& (r.arrow_Skipped_0())@ == fid
                    &&& final(catalog).view_notes() == old(catalog).view_notes()
                    &&& final(vault).view_files() == old(vault).view_files()
                    &&& final(catalog).tag_defs@ == old(catalog).tag_defs@
                    &&& final(catalog).links@ == old(catalog).links@
                },
                SyncAction::Conflict => false,
            }
        },
        // a file without an identifier imports under a fresh one
        (file_at(old(vault).view_files(), name@) is Some && (file_at(
            old(vault).view_files(),
            name@,
        )->0).0.id is None) ==> match r {
            ScanOutcome::Imported(s) => confined_to(
                old(catalog).view_notes(),
                final(catalog).view_notes(),
                old(vault).view_files(),
                final(vault).view_files(),
                s@,
            ),
            ScanOutcome::Exported(s) => confined_to(
                old(catalog).view_notes(),
                final(catalog).view_notes(),
                old(vault).view_files(),
                final(vault).view_files(),
                s@,
            ),
            ScanOutcome::Skipped(_) => final(catalog).view_notes() == old(catalog).view_notes() && final(vault).view_files() == old(vault).view_files(),
            ScanOutcome::NoRecord => false,
        },
{
    let ghost old_c = old(catalog).view_notes();
    let ghost old_v = old(vault).view_files();
    match vault.read(name) {
        Option::None => ScanOutcome::NoRecord,
        Option::Some(text) => {
            let fallback = crate::host::new_note_id();
            let ghost fallback_v = fallback@;
            match crate::vault::note_from_file(text.as_str(), name, fallback, now) {
                Result::Err(_) => ScanOutcome::NoRecord,
                Result::Ok(file_note_plain) => {
                    let mut file_note = file_note_plain;
                    let ghost nv0 = file_note@;
                    let ghost pair = (file_at(old_v, name@))->0;
                    let ghost fm = pair.0;
                    let ghost body = pair.1;
                    proof {
                        let (fm2, body2) = choose|fm2: FmView, body2: Seq<char>|
                            parse_spec(text@) == Some((fm2, body2)) && imported_note(
                                nv0,
                                fm2,
                                body2,
                                name@,
                                fallback_v,
                                now@,
                            );
                        assert(file_at(old_v, name@) == Some((fm2, body2)));
                        assert(fm == fm2 && body == body2);
                        if fm.id is Some {
                            lemma_record_of_import(nv0, fm, body, name@, fallback_v, now@);
                        }
                    }
                    let hash = crate::crypto::compute_sync_hash(
                        file_note.title.as_str(),
                        file_note.content.as_str(),
                    );
                    file_note.sync_hash = Some(hash.clone());
                    proof {
                        reveal(crate::vault::imported_note);
                        if fm.id is Some {
                            assert(file_note@ == scanned_record(fm, body, name@, now@));
                        }
                    }
                    let db_note = match catalog.fetch_note(file_note.id.as_str()) {
                        Result::Ok(d) => Some(d),
                        Result::Err(_) => None,
                    };
                    let db_ref: Option<&Note> = match &db_note {
                        Option::Some(d) => Some(d),
                        Option::None => None,
                    };
                    proof {
                        assert(opt_note_view(db_ref) == catalog_get(old_c, nv0.id));
                    }
                    let action = reconcile(db_ref, &file_note);
                    let out = match action {
                        SyncAction::Import => {
                            let ghost pre_c = catalog.view_notes();
                            catalog.upsert_from_file(&file_note, hash);
                            proof {
                                if fm.id is Some {
                                    let d = catalog_get(old_c, fm.id->0);
                                    let h = fingerprint_of(fm_title(fm) + body);
                                    assert forall|q: Seq<char>|
                                        #[trigger] catalog_get(catalog.view_notes(), q) == (
                                        if q == fm.id->0 {
                                            Some(import_result(d, fm, body, name@, now@))
                                        } else {
                                            catalog_get(old_c, q)
                                        }) by {
                                        if q == fm.id->0 {
                                            match d {
                                                Option::Some(o) => {
                                                    assert(merged_note(o, file_note@, h)
                                                        == merged_note(
                                                        o,
                                                        file_record(fm, body, name@, now@),
                                                        h,
                                                    ));
                                                }
                                                Option::None => {
                                                    assert(NoteView {
                                                        sync_hash: Some(h),
                                                        ..file_note@
                                                    } == NoteView {
                                                        sync_hash: Some(h),
                                                        ..file_record(fm, body, name@, now@)
                                                    });
                                                }
                                            }
                                        }
                                    }
                                }
                            }
                            ScanOutcome::Imported(file_note.id.clone())
                        }
                        SyncAction::Export => {
                            match &db_note {
                                Option::Some(d) => {
                                    export_note(catalog, vault, d);
                                    proof {
                                        assert(d@.id == nv0.id) by {
                                            crate::catalog::lemma_catalog_get_index(
                                                old_c,
                                                nv0.id,
                                            );
                                        }
                                    }
                                    ScanOutcome::Exported(file_note.id.clone())
                                }
                                Option::None => {
                                    proof {
                                        assert(false);
                                    }
                                    ScanOutcome::NoRecord
                                }
                            }
                        }
                        SyncAction::Skip => ScanOutcome::Skipped(file_note.id.clone()),
                        SyncAction::Conflict => {
                            proof {
                                assert(false);
                            }
                            ScanOutcome::NoRecord
                        }
                    };
                    out
                }
            }
        }
    }
}

/// Every enumerated file parses, carries its identifier, and is named by
/// it — the shape every file written by this library has.
pub open spec fn scan_ready(v: Seq<VaultFileView>) -> bool {
    forall|fi: int|
        0 <= fi < v.len() && is_markdown_name((#[trigger] v[fi]).name) ==> named_ok(
            v,
            v[fi].name,
        )
}

/// Some enumerated file carries this identifier.
pub open spec fn file_carries(v: Seq<VaultFileView>, id: Seq<char>) -> bool {
    exists|fi: int|
        0 <= fi < v.len() && is_markdown_name((#[trigger] v[fi]).name) && id == name_id(
            v,
            v[fi].name,
        )
}

/// The file under `nm` parses, carries an identifier, and `nm` is that
/// identifier's file name.
pub open spec fn named_ok(v: Seq<VaultFileView>, nm: Seq<char>) -> bool {
    &&& file_at(v, nm) is Some
    &&& (file_at(v, nm)->0).0.id is Some
    &&& nm == ((file_at(v, nm)->0).0.id)->0 + ".md"@
}

/// The identifier the file under `nm` carries.
pub open spec fn name_id(v: Seq<VaultFileView>, nm: Seq<char>) -> Seq<char> {
    ((file_at(v, nm)->0).0.id)->0
}

/// The catalog record under the file's identifier after its scan, as a
/// function of the snapshot.
pub open spec fn cat_target(
    c: Seq<NoteView>,
    v: Seq<VaultFileView>,
    nm: Seq<char>,
    now: Seq<char>,
) -> Option<NoteView> {
    let fm = (file_at(v, nm)->0).0;
    let body = (file_at(v, nm)->0).1;
    let d = catalog_get(c, fm.id->0);
    match scan_decision(d, fm, body, nm, now) {
        SyncAction::Import => Some(import_result(d, fm, body, nm, now)),
        SyncAction::Export => Some(export_result(d->0)),
        SyncAction::Skip => d,
        SyncAction::Conflict => d,
    }
}

/// The file text under `nm` after its scan, as a function of the snapshot.
pub open spec fn vault_target(
    c: Seq<NoteView>,
    v: Seq<VaultFileView>,
    nm: Seq<char>,
    now: Seq<char>,
) -> Option<Seq<char>> {
    let fm = (file_at(v, nm)->0).0;
    let body = (file_at(v, nm)->0).1;
    let d = catalog_get(c, fm.id->0);
    match scan_decision(d, fm, body, nm, now) {
        SyncAction::Export => Some(serialize_spec(d->0)),
        _ => vault_get(v, nm),
    }
}

/// The identifiers the scan records, in enumeration order.
pub open spec fn scanned_ids(v: Seq<VaultFileView>, names: Seq<Seq<char>>, k: int) -> Seq<
    Seq<char>,
>
    decreases k,
{
    if k <= 0 {
        Seq::empty()
    } else {
        scanned_ids(v, names, k - 1) + seq![name_id(v, names[k - 1])]
    }
}

proof fn lemma_scanned_ids_props(v: Seq<VaultFileView>, names: Seq<Seq<char>>, k: int)
    requires
        0 <= k <= names.len(),
    ensures
        scanned_ids(v, names, k).len() == k,
        forall|s: int| 0 <= s < k ==> #[trigger] scanned_ids(v, names, k)[s] == name_id(
            v,
            names[s],
        ),
    decreases k,
{
    if k > 0 {
        lemma_scanned_ids_props(v, names, k - 1);
    }
}

/// The enumerated names of a unique-name vault are pairwise distinct.
#[verifier::rlimit(100)]
proof fn lemma_md_names_unique(files: Seq<VaultFileView>, i: int)
    requires
        0 <= i <= files.len(),
        forall|a: int, b: int|
            0 <= a < b < files.len() ==> (#[trigger] files[a]).name != (#[trigger] files[b]).name,
    ensures
        forall|k1: int, k2: int|
            0 <= k1 < k2 < crate::vault::md_names(files, i).len()
                ==> crate::vault::md_names(files, i)[k1] != crate::vault::md_names(files, i)[k2],
    decreases i,
{
    crate::vault::lemma_md_names(files, i);
    if i > 0 {
        lemma_md_names_unique(files, i - 1);
        crate::vault::lemma_md_names(files, i - 1);
        let cur = crate::vault::md_names(files, i);
        let pre = crate::vault::md_names(files, i - 1);
        assert forall|k1: int, k2: int| 0 <= k1 < k2 < cur.len() implies cur[k1] != cur[
            k2
        ] by {
            if k2 < pre.len() {
                assert(cur[k1] == pre[k1] && cur[k2] == pre[k2]);
            } else {
                assert(cur[k2] == files[i - 1].name);
                assert(cur[k1] == pre[k1]);
                let j = choose|j: int| 0 <= j < i - 1 && files[j].name == pre[k1];
                if files[j].name == files[i - 1].name {
                    assert(false);
                }
            }
        }
    }
}

/// Scan every enumerated vault file, decide, and apply the action. When
/// every enumerated file is well formed — it parses, carries its
/// identifier and is named by it — the final corpus is fixed exactly:
/// each file's catalog record and text land on the decision table's
/// target, everything else is untouched, and the returned list holds
/// exactly the scanned identifiers.
#[verifier::rlimit(100)]
fn sweep_files(
    catalog: &mut Catalog,
    vault: &mut Vault,
    now: &str,
    imported: &mut Vec<String>,
) -> (out: (u32, Vec<String>))
    requires
        old(catalog).wf(),
        old(vault).wf(),
        plain_field(now@),
        now@.len() > 0,
    ensures
        final(catalog).wf(),
        final(vault).wf(),
        final(catalog).activity@ == old(catalog).activity@,
        final(catalog).settings@ == old(catalog).settings@,
        scan_ready(old(vault).view_files()) ==> {
            let c1 = old(catalog).view_notes();
            let v1 = old(vault).view_files();
            &&& (forall|fi: int|
                0 <= fi < v1.len() && is_markdown_name((#[trigger] v1[fi]).name) ==> {
                    &&& catalog_get(final(catalog).view_notes(), name_id(v1, v1[fi].name))
                        == cat_target(c1, v1, v1[fi].name, now@)
                    &&& vault_get(final(vault).view_files(), v1[fi].name) == vault_target(
                        c1,
                        v1,
                        v1[fi].name,
                        now@,
                    )
                })
            &&& (forall|q: Seq<char>|
                (forall|fi: int|
                    0 <= fi < v1.len() && is_markdown_name((#[trigger] v1[fi]).name) ==> q
                        != name_id(v1, v1[fi].name)) ==> #[trigger] catalog_get(
                    final(catalog).view_notes(),
                    q,
                ) == catalog_get(c1, q))
            &&& (forall|q: Seq<char>|
                (forall|fi: int|
                    0 <= fi < v1.len() && is_markdown_name((#[trigger] v1[fi]).name) ==> q
                        != v1[fi].name) ==> #[trigger] vault_get(final(vault).view_files(), q)
                    == vault_get(v1, q))
            &&& (forall|t: Seq<char>|
                #[trigger] crate::text::seq_has(crate::note::str_views(out.1@), t)
                    == exists|fi: int|
                    0 <= fi < v1.len() && is_markdown_name((#[trigger] v1[fi]).name) && t
                        == name_id(v1, v1[fi].name))
        },
{
    let ghost c1 = old(catalog).view_notes();
    let ghost v1 = old(vault).view_files();
    let ghost prem = scan_ready(v1);
    let mut files_synced: u32 = 0;
    let names = vault.list_markdown();
    let ghost names_v = crate::note::str_views(names@);
    proof {
        crate::vault::lemma_wf_unique_names(vault);
        crate::vault::lemma_md_names(v1, v1.len() as int);
        lemma_md_names_unique(v1, v1.len() as int);
        if prem {
            assert forall|k: int| 0 <= k < names_v.len() implies named_ok(
                v1,
                #[trigger] names_v[k],
            ) by {
                let fi = choose|fi: int|
                    0 <= fi < v1.len() && (#[trigger] v1[fi]).name == names_v[k];
            }
            assert forall|k1: int, k2: int|
                0 <= k1 < k2 < names_v.len() implies name_id(v1, #[trigger] names_v[k1])
                    != name_id(v1, #[trigger] names_v[k2]) by {
                if name_id(v1, names_v[k1]) == name_id(v1, names_v[k2]) {
                    lemma_md_suffix_inj(name_id(v1, names_v[k1]), name_id(v1, names_v[k2]));
                    assert(names_v[k1] == names_v[k2]);
                }
            }
        }
    }
    let mut synced: Vec<String> = Vec::new();
    let mut idx: usize = 0;
    while idx < names.len()
        invariant
            catalog.wf(),
            vault.wf(),
            catalog.activity@ == old(catalog).activity@,
            catalog.settings@ == old(catalog).settings@,
            plain_field(now@),
            now@.len() > 0,
            idx <= names@.len(),
            names_v == crate::note::str_views(names@),
            forall|j: int| 0 <= j < names@.len() ==> (#[trigger] names@[j])@ == names_v[j],
            forall|k1: int, k2: int|
                0 <= k1 < k2 < names_v.len() ==> names_v[k1] != names_v[k2],
            prem == scan_ready(v1),
            prem ==> forall|k: int| 0 <= k < names_v.len() ==> named_ok(
                v1,
                #[trigger] names_v[k],
            ),
            prem ==> forall|k1: int, k2: int|
                0 <= k1 < k2 < names_v.len() ==> name_id(v1, #[trigger] names_v[k1]) != name_id(
                    v1,
                    #[trigger] names_v[k2],
                ),
            prem ==> forall|k: int|
                0 <= k < idx ==> catalog_get(
                    catalog.view_notes(),
                    name_id(v1, #[trigger] names_v[k]),
                ) == cat_target(c1, v1, names_v[k], now@) && vault_get(
                    vault.view_files(),
                    names_v[k],
                ) == vault_target(c1, v1, names_v[k], now@),
            prem ==> forall|q: Seq<char>|
                (forall|k: int|
                    0 <= k < idx ==> q != name_id(v1, #[trigger] names_v[k]))
                    ==> #[trigger] catalog_get(catalog.view_notes(), q) == catalog_get(c1, q),
            prem ==> forall|q: Seq<char>|
                (forall|k: int| 0 <= k < idx ==> q != #[trigger] names_v[k])
                    ==> #[trigger] vault_get(vault.view_files(), q) == vault_get(v1, q),
            prem ==> crate::note::str_views(synced@) == scanned_ids(v1, names_v, idx as int),
        decreases names@.len() - idx,
    {
        let name = &names[idx];
        let ghost nm = names_v[idx as int];
        let ghost it_c = catalog.view_notes();
        let ghost it_v = vault.view_files();
        proof {
            if prem {
                assert(vault_get(it_v, nm) == vault_get(v1, nm)) by {
                    assert forall|k: int| 0 <= k < idx implies nm != #[trigger] names_v[k] by {}
                }
                assert(catalog_get(it_c, name_id(v1, nm)) == catalog_get(
                    c1,
                    name_id(v1, nm),
                )) by {
                    assert forall|k: int|
                        0 <= k < idx implies name_id(v1, nm) != name_id(
                        v1,
                        #[trigger] names_v[k],
                    ) by {}
                }
                assert(file_at(it_v, nm) == file_at(v1, nm));
            }
        }
        let outcome = scan_one(catalog, vault, name.as_str(), now);
        proof {
            if prem {
                let fm = (file_at(v1, nm)->0).0;
                let body = (file_at(v1, nm)->0).1;
                let fid = name_id(v1, nm);
                let d = catalog_get(c1, fid);
                assert(scan_decision(catalog_get(it_c, fid), fm, body, nm, now@)
                    == scan_decision(d, fm, body, nm, now@));
            }
        }
        let recorded = match outcome {
            ScanOutcome::Imported(s) => {
                imported.push(s.clone());
                files_synced = bump(files_synced);
                Some(s)
            }
            ScanOutcome::Exported(s) => {
                files_synced = bump(files_synced);
                Some(s)
            }
            ScanOutcome::Skipped(s) => Some(s),
            ScanOutcome::NoRecord => None,
        };
        match recorded {
            Option::Some(s) => {
                let ghost prev_synced = synced@;
                synced.push(s);
                proof {
                    if prem {
                        assert(s@ == name_id(v1, nm));
                        assert(crate::note::str_views(synced@) =~= crate::note::str_views(
                            prev_synced,
                        ) + seq![name_id(v1, nm)]);
                        assert(crate::note::str_views(synced@) =~= scanned_ids(
                            v1,
                            names_v,
                            idx + 1,
                        ));
                    }
                }
            }
            Option::None => {
                proof {
                    if prem {
                        assert(named_ok(v1, nm));
                        assert(file_at(it_v, nm) is Some);
                        assert(false);
                    }
                }
            }
        }
        proof {
            if prem {
                let fid = name_id(v1, nm);
                // the processed prefix is preserved: this step touched only
                // its own identifier and file
                assert forall|k: int|
                    0 <= k < idx + 1 implies catalog_get(
                    catalog.view_notes(),
                    name_id(v1, #[trigger] names_v[k]),
                ) == cat_target(c1, v1, names_v[k], now@) && vault_get(
                    vault.view_files(),
                    names_v[k],
                ) == vault_target(c1, v1, names_v[k], now@) by {
                    if k < idx {
                        assert(name_id(v1, names_v[k]) != fid);
                        assert(names_v[k] != nm);
                        assert(names_v[k] != fid + ".md"@);
                    }
                }
                assert forall|q: Seq<char>|
                    (forall|k: int|
                        0 <= k < idx + 1 ==> q != name_id(v1, #[trigger] names_v[k]))
                        implies #[trigger] catalog_get(catalog.view_notes(), q)
                    == catalog_get(c1, q) by {
                    assert(q != fid);
                }
                assert forall|q: Seq<char>|
                    (forall|k: int| 0 <= k < idx + 1 ==> q != #[trigger] names_v[k])
                        implies #[trigger] vault_get(vault.view_files(), q) == vault_get(
                    v1,
                    q,
                ) by {
                    assert(q != nm);
                    assert(q != fid + ".md"@);
                }
            }
        }
        idx = idx + 1;
    }
    proof {
        if prem {
            lemma_scanned_ids_props(v1, names_v, names_v.len() as int);
            assert forall|fi: int|
                0 <= fi < v1.len() && is_markdown_name((#[trigger] v1[fi]).name) implies {
                &&& catalog_get(catalog.view_notes(), name_id(v1, v1[fi].name)) == cat_target(
                    c1,
                    v1,
                    v1[fi].name,
                    now@,
                )
                &&& vault_get(vault.view_files(), v1[fi].name) == vault_target(
                    c1,
                    v1,
                    v1[fi].name,
                    now@,
                )
            } by {
                let k = choose|k: int|
                    0 <= k < names_v.len() && #[trigger] names_v[k] == v1[fi].name;
            }
            assert forall|q: Seq<char>|
                (forall|fi: int|
                    0 <= fi < v1.len() && is_markdown_name((#[trigger] v1[fi]).name) ==> q
                        != name_id(v1, v1[fi].name)) implies #[trigger] catalog_get(
                catalog.view_notes(),
                q,
            ) == catalog_get(c1, q) by {
                assert forall|k: int|
                    0 <= k < names_v.len() implies q != name_id(v1, #[trigger] names_v[k]) by {
                    let fi = choose|fi: int|
                        0 <= fi < v1.len() && (#[trigger] v1[fi]).name == names_v[k];
                }
            }
            assert forall|q: Seq<char>|
                (forall|fi: int|
                    0 <= fi < v1.len() && is_markdown_name((#[trigger] v1[fi]).name) ==> q
                        != v1[fi].name) implies #[trigger] vault_get(vault.view_files(), q)
                == vault_get(v1, q) by {
                assert forall|k: int| 0 <= k < names_v.len() implies q != #[trigger] names_v[
                    k
                ] by {
                    let fi = choose|fi: int|
                        0 <= fi < v1.len() && (#[trigger] v1[fi]).name == names_v[k];
                }
            }
            assert forall|t: Seq<char>|
                #[trigger] crate::text::seq_has(crate::note::str_views(synced@), t)
                    == exists|fi: int|
                    0 <= fi < v1.len() && is_markdown_name((#[trigger] v1[fi]).name) && t
                        == name_id(v1, v1[fi].name) by {
                let sv = crate::note::str_views(synced@);
                if crate::text::seq_has(sv, t) {
                    let s0 = choose|s0: int| 0 <= s0 < sv.len() && #[trigger] sv[s0] == t;
                    assert(sv[s0] == name_id(v1, names_v[s0]));
                    let fi = choose|fi: int|
                        0 <= fi < v1.len() && (#[trigger] v1[fi]).name == names_v[s0];
                    assert(named_ok(v1, names_v[s0]));
                    assert(is_markdown_name(v1[fi].name));
                }
                if exists|fi: int|
                    0 <= fi < v1.len() && is_markdown_name((#[trigger] v1[fi]).name) && t
                        == name_id(v1, v1[fi].name) {
                    let fi = choose|fi: int|
                        0 <= fi < v1.len() && is_markdown_name((#[trigger] v1[fi]).name) && t
                            == name_id(v1, v1[fi].name);
                    let k = choose|k: int|
                        0 <= k < names_v.len() && #[trigger] names_v[k] == v1[fi].name;
                    assert(sv[k] == name_id(v1, names_v[k]));
                    assert(crate::text::seq_has(sv, t));
                }
            }
        }
    }
    (files_synced, synced)
}

/// Export every non-trashed catalog note whose identifier no scanned file
/// carried: its record lands in the vault under `<id>.md` with its fresh
/// fingerprint stored, and nothing else moves.
#[verifier::rlimit(100)]
fn sweep_export_missing(
    catalog: &mut Catalog,
    vault: &mut Vault,
    synced: &Vec<String>,
) -> (count: u32)
    requires
        old(catalog).wf(),
        old(vault).wf(),
    ensures
        final(catalog).wf(),
        final(vault).wf(),
        final(catalog).activity@ == old(catalog).activity@,
        final(catalog).settings@ == old(catalog).settings@,
        final(catalog).tag_defs@ == old(catalog).tag_defs@,
        final(catalog).links@ == old(catalog).links@,
        forall|id: Seq<char>|
            #[trigger] catalog_get(old(catalog).view_notes(), id) is Some && !(catalog_get(
                old(catalog).view_notes(),
                id,
            )->0).is_trashed && !crate::text::seq_has(crate::note::str_views(synced@), id)
                ==> catalog_get(final(catalog).view_notes(), id) == Some(
                export_result(catalog_get(old(catalog).view_notes(), id)->0),
            ) && vault_get(final(vault).view_files(), id + ".md"@) == Some(
                serialize_spec(catalog_get(old(catalog).view_notes(), id)->0),
            ),
        forall|q: Seq<char>|
            (catalog_get(old(catalog).view_notes(), q) is None || (catalog_get(
                old(catalog).view_notes(),
                q,
            )->0).is_trashed || crate::text::seq_has(crate::note::str_views(synced@), q))
                ==> #[trigger] catalog_get(final(catalog).view_notes(), q) == catalog_get(
                old(catalog).view_notes(),
                q,
            ),
        forall|q: Seq<char>|
            (forall|id: Seq<char>|
                (#[trigger] catalog_get(old(catalog).view_notes(), id) is Some && !(
                catalog_get(old(catalog).view_notes(), id)->0).is_trashed
                    && !crate::text::seq_has(crate::note::str_views(synced@), id)) ==> q != id
                    + ".md"@) ==> #[trigger] vault_get(final(vault).view_files(), q)
                == vault_get(old(vault).view_files(), q),
{
    let ghost c2 = old(catalog).view_notes();
    let ghost v2 = old(vault).view_files();
    let ghost sv = crate::note::str_views(synced@);
    let mut files_synced: u32 = 0;
    let ids = catalog.active_note_ids();
    let ghost ids_v = crate::note::str_views(ids@);
    proof {
        crate::catalog::lemma_wf_unique_views(catalog);
        crate::catalog::lemma_active_ids(c2, c2.len() as int);
        lemma_active_ids_unique(c2, c2.len() as int);
        assert forall|k: int|
            0 <= k < ids_v.len() implies catalog_get(c2, #[trigger] ids_v[k]) is Some && !(
        catalog_get(c2, ids_v[k])->0).is_trashed by {
            let jn = choose|jn: int|
                0 <= jn < c2.len() && !(#[trigger] c2[jn]).is_trashed && c2[jn].id == ids_v[k];
            crate::catalog::lemma_get_of_index(c2, jn);
        }
    }
    let mut j: usize = 0;
    while j < ids.len()
        invariant
            catalog.wf(),
            vault.wf(),
            catalog.activity@ == old(catalog).activity@,
            catalog.settings@ == old(catalog).settings@,
            catalog.tag_defs@ == old(catalog).tag_defs@,
            catalog.links@ == old(catalog).links@,
            j <= ids@.len(),
            sv == crate::note::str_views(synced@),
            ids_v == crate::note::str_views(ids@),
            forall|k: int| 0 <= k < ids@.len() ==> (#[trigger] ids@[k])@ == ids_v[k],
            forall|k1: int, k2: int|
                0 <= k1 < k2 < ids_v.len() ==> ids_v[k1] != ids_v[k2],
            forall|k: int|
                0 <= k < ids_v.len() ==> catalog_get(c2, #[trigger] ids_v[k]) is Some && !(
                catalog_get(c2, ids_v[k])->0).is_trashed,
            forall|jn: int|
                0 <= jn < c2.len() && !(#[trigger] c2[jn]).is_trashed ==> exists|k: int|
                    0 <= k < ids_v.len() && #[trigger] ids_v[k] == c2[jn].id,
            forall|k: int|
                0 <= k < j && !crate::text::seq_has(sv, #[trigger] ids_v[k]) ==> catalog_get(
                    catalog.view_notes(),
                    ids_v[k],
                ) == Some(export_result(catalog_get(c2, ids_v[k])->0)) && vault_get(
                    vault.view_files(),
                    ids_v[k] + ".md"@,
                ) == Some(serialize_spec(catalog_get(c2, ids_v[k])->0)),
            forall|q: Seq<char>|
                (forall|k: int|
                    0 <= k < j && !crate::text::seq_has(sv, #[trigger] ids_v[k]) ==> q
                        != ids_v[k]) ==> #[trigger] catalog_get(catalog.view_notes(), q)
                    == catalog_get(c2, q),
            forall|q: Seq<char>|
                (forall|k: int|
                    0 <= k < j && !crate::text::seq_has(sv, #[trigger] ids_v[k]) ==> q
                        != ids_v[k] + ".md"@) ==> #[trigger] vault_get(
                    vault.view_files(),
                    q,
                ) == vault_get(v2, q),
        decreases ids@.len() - j,
    {
        let id = &ids[j];
        let ghost jid = ids_v[j as int];
        if !contains_id(synced, id.as_str()) {
            proof {
                assert(!crate::text::seq_has(sv, jid)) by {
                    if crate::text::seq_has(sv, jid) {
                        let s0 = choose|s0: int| 0 <= s0 < sv.len() && #[trigger] sv[s0] == jid;
                        assert(synced@[s0]@ == jid);
                    }
                }
                assert(catalog_get(catalog.view_notes(), jid) == catalog_get(c2, jid)) by {
                    assert forall|k: int|
                        0 <= k < j && !crate::text::seq_has(sv, #[trigger] ids_v[k])
                            implies jid != ids_v[k] by {}
                }
            }
            match catalog.fetch_note(id.as_str()) {
                Result::Ok(n) => {
                    let ghost pre_c = catalog.view_notes();
                    let ghost pre_v = vault.view_files();
                    export_note(catalog, vault, &n);
                    files_synced = bump(files_synced);
                    proof {
                        assert(n@ == catalog_get(c2, jid)->0);
                        assert(n@.id == jid) by {
                            crate::catalog::lemma_catalog_get_index(c2, jid);
                        }
                        assert forall|k: int|
                            0 <= k < j + 1 && !crate::text::seq_has(sv, #[trigger] ids_v[k])
                                implies catalog_get(catalog.view_notes(), ids_v[k]) == Some(
                            export_result(catalog_get(c2, ids_v[k])->0),
                        ) && vault_get(vault.view_files(), ids_v[k] + ".md"@) == Some(
                            serialize_spec(catalog_get(c2, ids_v[k])->0),
                        ) by {
                            if k < j {
                                assert(ids_v[k] != jid);
                                assert(ids_v[k] + ".md"@ != jid + ".md"@) by {
                                    if ids_v[k] + ".md"@ == jid + ".md"@ {
                                        lemma_md_suffix_inj(ids_v[k], jid);
                                    }
                                }
                            }
                        }
                        assert forall|q: Seq<char>|
                            (forall|k: int|
                                0 <= k < j + 1 && !crate::text::seq_has(
                                    sv,
                                    #[trigger] ids_v[k],
                                ) ==> q != ids_v[k]) implies #[trigger] catalog_get(
                            catalog.view_notes(),
                            q,
                        ) == catalog_get(c2, q) by {
                            assert(q != jid);
                        }
                        assert forall|q: Seq<char>|
                            (forall|k: int|
                                0 <= k < j + 1 && !crate::text::seq_has(
                                    sv,
                                    #[trigger] ids_v[k],
                                ) ==> q != ids_v[k] + ".md"@) implies #[trigger] vault_get(
                            vault.view_files(),
                            q,
                        ) == vault_get(v2, q) by {
                            assert(q != jid + ".md"@);
                        }
                    }
                }
                Result::Err(_) => {
                    proof {
                        assert(false);
                    }
                }
            }
        } else {
            proof {
                let s0 = choose|s0: int|
                    0 <= s0 < synced@.len() && (#[trigger] synced@[s0])@ == jid;
                assert(sv[s0] == jid);
                assert(crate::text::seq_has(sv, jid));
            }
        }
        j = j + 1;
    }
    proof {
        assert forall|id: Seq<char>|
            #[trigger] catalog_get(c2, id) is Some && !(catalog_get(c2, id)->0).is_trashed
                && !crate::text::seq_has(sv, id) implies catalog_get(
            catalog.view_notes(),
            id,
        ) == Some(export_result(catalog_get(c2, id)->0)) && vault_get(
            vault.view_files(),
            id + ".md"@,
        ) == Some(serialize_spec(catalog_get(c2, id)->0)) by {
            crate::catalog::lemma_catalog_get_index(c2, id);
            let jn = choose|jn: int|
                0 <= jn < c2.len() && (#[trigger] c2[jn]).id == id && c2[jn] == catalog_get(
                    c2,
                    id,
                )->0;
            let k = choose|k: int| 0 <= k < ids_v.len() && #[trigger] ids_v[k] == c2[jn].id;
        }
        assert forall|q: Seq<char>|
            (catalog_get(c2, q) is None || (catalog_get(c2, q)->0).is_trashed
                || crate::text::seq_has(sv, q)) implies #[trigger] catalog_get(
            catalog.view_notes(),
            q,
        ) == catalog_get(c2, q) by {
            assert forall|k: int|
                0 <= k < ids_v.len() && !crate::text::seq_has(sv, #[trigger] ids_v[k])
                    implies q != ids_v[k] by {}
        }
        assert forall|q: Seq<char>|
            (forall|id: Seq<char>|
                (#[trigger] catalog_get(c2, id) is Some && !(catalog_get(c2, id)->0).is_trashed
                    && !crate::text::seq_has(sv, id)) ==> q != id + ".md"@) implies
            #[trigger] vault_get(vault.view_files(), q) == vault_get(v2, q) by {
            assert forall|k: int|
                0 <= k < ids_v.len() && !crate::text::seq_has(sv, #[trigger] ids_v[k])
                    implies q != ids_v[k] + ".md"@ by {}
        }
    }
    files_synced
}

/// The active identifiers of a unique-id catalog are pairwise distinct.
#[verifier::rlimit(100)]
proof fn lemma_active_ids_unique(notes: Seq<NoteView>, i: int)
    requires
        0 <= i <= notes.len(),
        forall|a: int, b: int|
            0 <= a < b < notes.len() ==> (#[trigger] notes[a]).id != (#[trigger] notes[b]).id,
    ensures
        forall|k1: int, k2: int|
            0 <= k1 < k2 < crate::catalog::active_ids(notes, i).len()
                ==> crate::catalog::active_ids(notes, i)[k1] != crate::catalog::active_ids(
                notes,
                i,
            )[k2],
    decreases i,
{
    crate::catalog::lemma_active_ids(notes, i);
    if i > 0 {
        lemma_active_ids_unique(notes, i - 1);
        crate::catalog::lemma_active_ids(notes, i - 1);
        let cur = crate::catalog::active_ids(notes, i);
        let pre = crate::catalog::active_ids(notes, i - 1);
        assert forall|k1: int, k2: int| 0 <= k1 < k2 < cur.len() implies cur[k1] != cur[
            k2
        ] by {
            if k2 < pre.len() {
                assert(cur[k1] == pre[k1] && cur[k2] == pre[k2]);
            } else {
                assert(cur[k2] == notes[i - 1].id);
                assert(cur[k1] == pre[k1]);
                let jw = choose|jw: int|
                    0 <= jw < i - 1 && !(#[trigger] notes[jw]).is_trashed && notes[jw].id
                        == pre[k1];
                if notes[jw].id == notes[i - 1].id {
                    assert(false);
                }
            }
        }
    }
}

/// The serialized text of a record does not depend on its stored
/// fingerprint.
proof fn lemma_serialize_ignores_hash(o: NoteView, h: Option<Seq<char>>)
    ensures
        serialize_spec(NoteView { sync_hash: h, ..o }) == serialize_spec(o),
{
    reveal(crate::codec::serialize_spec);
}

/// Re-serialize the vault file of every listed note — the pass that runs
/// after a tag mutation so front matter stays consistent with the
/// catalog. Each listed note's file becomes its serialization and its
/// fingerprint is refreshed; unknown identifiers and everything else are
/// left alone.
#[verifier::rlimit(100)]
pub fn resync_notes(catalog: &mut Catalog, vault: &mut Vault, note_ids: &Vec<String>)
    requires
        old(catalog).wf(),
        old(vault).wf(),
    ensures
        final(catalog).wf(),
        final(vault).wf(),
        final(catalog).activity@ == old(catalog).activity@,
        final(catalog).settings@ == old(catalog).settings@,
        final(catalog).tag_defs@ == old(catalog).tag_defs@,
        final(catalog).links@ == old(catalog).links@,
        forall|k: int|
            0 <= k < note_ids@.len() && catalog_get(
                old(catalog).view_notes(),
                (#[trigger] note_ids@[k])@,
            ) is Some ==> vault_get(final(vault).view_files(), (note_ids@[k])@ + ".md"@)
                == Some(
                serialize_spec(catalog_get(old(catalog).view_notes(), (note_ids@[k])@)->0),
            ) && catalog_get(final(catalog).view_notes(), (note_ids@[k])@) == Some(
                export_result(catalog_get(old(catalog).view_notes(), (note_ids@[k])@)->0),
            ),
        forall|q: Seq<char>|
            (forall|k: int| 0 <= k < note_ids@.len() ==> q != (#[trigger] note_ids@[k])@)
                ==> #[trigger] catalog_get(final(catalog).view_notes(), q) == catalog_get(
                old(catalog).view_notes(),
                q,
            ),
        forall|q: Seq<char>|
            (forall|k: int|
                0 <= k < note_ids@.len() ==> q != (#[trigger] note_ids@[k])@ + ".md"@)
                ==> #[trigger] vault_get(final(vault).view_files(), q) == vault_get(
                old(vault).view_files(),
                q,
            ),
{
    let ghost c0 = old(catalog).view_notes();
    let ghost v0 = old(vault).view_files();
    let mut k: usize = 0;
    while k < note_ids.len()
        invariant
            catalog.wf(),
            vault.wf(),
            catalog.activity@ == old(catalog).activity@,
            catalog.settings@ == old(catalog).settings@,
            catalog.tag_defs@ == old(catalog).tag_defs@,
            catalog.links@ == old(catalog).links@,
            k <= note_ids@.len(),
            forall|m: int|
                0 <= m < k && catalog_get(c0, (#[trigger] note_ids@[m])@) is Some
                    ==> vault_get(vault.view_files(), (note_ids@[m])@ + ".md"@) == Some(
                    serialize_spec(catalog_get(c0, (note_ids@[m])@)->0),
                ) && catalog_get(catalog.view_notes(), (note_ids@[m])@) == Some(
                    export_result(catalog_get(c0, (note_ids@[m])@)->0),
                ),
            forall|q: Seq<char>|
                (forall|m: int| 0 <= m < note_ids@.len() ==> q != (#[trigger] note_ids@[m])@)
                    ==> #[trigger] catalog_get(catalog.view_notes(), q) == catalog_get(c0, q),
            forall|q: Seq<char>|
                (forall|m: int|
                    0 <= m < note_ids@.len() ==> q != (#[trigger] note_ids@[m])@ + ".md"@)
                    ==> #[trigger] vault_get(vault.view_files(), q) == vault_get(v0, q),
            forall|q: Seq<char>|
                #[trigger] catalog_get(catalog.view_notes(), q) == catalog_get(c0, q)
                    || catalog_get(catalog.view_notes(), q) == Some(
                    export_result(catalog_get(c0, q)->0),
                ) && catalog_get(c0, q) is Some,
        decreases note_ids@.len() - k,
    {
        let id = &note_ids[k];
        let ghost kid = note_ids@[k as int]@;
        match catalog.fetch_note(id.as_str()) {
            Result::Ok(n) => {
                let ghost pre_c = catalog.view_notes();
                let ghost pre_v = vault.view_files();
                export_note(catalog, vault, &n);
                proof {
                    assert(n@.id == kid) by {
                        crate::catalog::lemma_catalog_get_index(pre_c, kid);
                    }
                    assert(catalog_get(c0, kid) is Some);
                    let orig = catalog_get(c0, kid)->0;
                    if n@ == orig {
                    } else {
                        assert(catalog_get(pre_c, kid) == Some(export_result(orig)));
                        assert(n@ == export_result(orig));
                        lemma_serialize_ignores_hash(orig, n@.sync_hash);
                        assert(serialize_spec(n@) == serialize_spec(orig)) by {
                            assert(NoteView { sync_hash: n@.sync_hash, ..orig } == n@);
                        }
                    }
                    assert(serialize_spec(n@) == serialize_spec(orig));
                    assert(export_result(n@) == export_result(orig));
                    assert forall|m: int|
                        0 <= m < k + 1 && catalog_get(c0, (#[trigger] note_ids@[m])@) is Some
                            implies vault_get(
                        vault.view_files(),
                        (note_ids@[m])@ + ".md"@,
                    ) == Some(serialize_spec(catalog_get(c0, (note_ids@[m])@)->0))
                        && catalog_get(catalog.view_notes(), (note_ids@[m])@) == Some(
                        export_result(catalog_get(c0, (note_ids@[m])@)->0),
                    ) by {
                        let mid = (note_ids@[m])@;
                        if mid == kid {
                        } else if mid + ".md"@ == kid + ".md"@ {
                            lemma_md_suffix_inj(mid, kid);
                        }
                    }
                }
            }
            Result::Err(_) => {
                proof {
                    assert(catalog_get(catalog.view_notes(), kid) is None);
                    assert(catalog_get(c0, kid) is None) by {
                        if catalog_get(c0, kid) is Some {
                            assert(catalog_get(catalog.view_notes(), kid) == catalog_get(
                                c0,
                                kid,
                            ) || catalog_get(catalog.view_notes(), kid) == Some(
                                export_result(catalog_get(c0, kid)->0),
                            ));
                        }
                    }
                }
            }
        }
        k = k + 1;
    }
}

/// Saturating addition for the action counter.
fn sat_add(a: u32, b: u32) -> (r: u32)
    ensures
        (a == 0 && b == 0) ==> r == 0,
        r >= a,
{
    if b <= 0xffff_ffffu32 - a {
        a + b
    } else {
        0xffff_ffffu32
    }
}

/// Run the full sweep: retry the queued failures (capped entries are
/// returned untouched), reconcile every enumerated vault file against the
/// catalog by the decision table, and export every non-trashed catalog
/// note that no file answered for. Failures never abort the sweep; they
/// come back in the result.
#[verifier::rlimit(100)]
pub fn full_reconcile(
    catalog: &mut Catalog,
    vault: &mut Vault,
    retry_queue: Vec<FailedSyncOp>,
    now: &str,
) -> (r: ReconcileResult)
    requires
        old(catalog).wf(),
        old(vault).wf(),
        plain_field(now@),
        now@.len() > 0,
    ensures
        final(catalog).wf(),
        final(vault).wf(),
        final(catalog).activity@ == old(catalog).activity@,
        final(catalog).settings@ == old(catalog).settings@,
        // entries whose retries are exhausted come back verbatim, first and
        // in queue order; anything after them is a freshly failed import
        // retry
        exists|extra: Seq<FailedSyncOp>|
            r.failures@ == capped_of(retry_queue@) + extra && (forall|k: int|
                0 <= k < extra.len() ==> (#[trigger] extra[k])@.operation == "import"@
                    && extra[k]@.retry_count <= 3),
        retry_queue@.len() == 0 ==> r.failures@.len() == 0,
        // a queue of exhausted entries only is not re-attempted: it comes
        // back whole and the retry phase touches nothing
        uncapped_of(retry_queue@).len() == 0 ==> r.failures@ == capped_of(retry_queue@),
        // with no retries pending and a well-formed vault, the sweep's
        // outcome is fixed by the snapshot: every enumerated file receives
        // the decision table's action, every live note no file answered
        // for is exported, and nothing else moves
        (uncapped_of(retry_queue@).len() == 0 && scan_ready(old(vault).view_files())) ==> {
            let c0 = old(catalog).view_notes();
            let v0 = old(vault).view_files();
            &&& (forall|fi: int|
                0 <= fi < v0.len() && is_markdown_name((#[trigger] v0[fi]).name) ==> {
                    &&& catalog_get(final(catalog).view_notes(), name_id(v0, v0[fi].name))
                        == cat_target(c0, v0, v0[fi].name, now@)
                    &&& vault_get(final(vault).view_files(), v0[fi].name) == vault_target(
                        c0,
                        v0,
                        v0[fi].name,
                        now@,
                    )
                })
            &&& (forall|id: Seq<char>|
                (#[trigger] catalog_get(c0, id) is Some && !(catalog_get(c0, id)->0).is_trashed
                    && !file_carries(v0, id)) ==> catalog_get(final(catalog).view_notes(), id)
                    == Some(export_result(catalog_get(c0, id)->0)) && vault_get(
                    final(vault).view_files(),
                    id + ".md"@,
                ) == Some(serialize_spec(catalog_get(c0, id)->0)))
            &&& (forall|q: Seq<char>|
                (!file_carries(v0, q) && !(catalog_get(c0, q) is Some && !(catalog_get(
                    c0,
                    q,
                )->0).is_trashed)) ==> #[trigger] catalog_get(final(catalog).view_notes(), q)
                    == catalog_get(c0, q))
        },
{
    let ghost c0 = old(catalog).view_notes();
    let ghost v0 = old(vault).view_files();
    let ghost prem = uncapped_of(retry_queue@).len() == 0 && scan_ready(v0);
    let retried = sweep_retries(catalog, vault, retry_queue, now);
    let count1 = retried.0;
    let mut imported = retried.1;
    let failures = retried.2;
    let ghost c1 = catalog.view_notes();
    let ghost v1 = vault.view_files();
    proof {
        if prem {
            assert(c1 == c0 && v1 == v0);
            assert(scan_ready(v1));
        }
    }
    let scanned = sweep_files(catalog, vault, now, &mut imported);
    let count2 = scanned.0;
    let synced = scanned.1;
    let ghost c2 = catalog.view_notes();
    let ghost v2 = vault.view_files();
    let ghost sv = crate::note::str_views(synced@);
    let count3 = sweep_export_missing(catalog, vault, &synced);
    proof {
        if prem {
            // compose the scan with the export-missing pass
            assert forall|fi: int|
                0 <= fi < v0.len() && is_markdown_name((#[trigger] v0[fi]).name) implies {
                &&& catalog_get(catalog.view_notes(), name_id(v0, v0[fi].name)) == cat_target(
                    c0,
                    v0,
                    v0[fi].name,
                    now@,
                )
                &&& vault_get(vault.view_files(), v0[fi].name) == vault_target(
                    c0,
                    v0,
                    v0[fi].name,
                    now@,
                )
            } by {
                let nm = v0[fi].name;
                let fid = name_id(v0, nm);
                assert(named_ok(v0, nm));
                assert(crate::text::seq_has(sv, fid)) by {
                    assert(file_carries(v0, fid));
                }
                assert(catalog_get(catalog.view_notes(), fid) == catalog_get(c2, fid));
                assert forall|id: Seq<char>|
                    (#[trigger] catalog_get(c2, id) is Some && !(catalog_get(
                        c2,
                        id,
                    )->0).is_trashed && !crate::text::seq_has(sv, id)) implies nm != id
                    + ".md"@ by {
                    if nm == id + ".md"@ {
                        lemma_md_suffix_inj(fid, id);
                        assert(crate::text::seq_has(sv, id));
                    }
                }
                assert(vault_get(vault.view_files(), nm) == vault_get(v2, nm));
            }
            assert forall|id: Seq<char>|
                (#[trigger] catalog_get(c0, id) is Some && !(catalog_get(c0, id)->0).is_trashed
                    && !file_carries(v0, id)) implies catalog_get(catalog.view_notes(), id)
                == Some(export_result(catalog_get(c0, id)->0)) && vault_get(
                vault.view_files(),
                id + ".md"@,
            ) == Some(serialize_spec(catalog_get(c0, id)->0)) by {
                assert forall|fi: int|
                    0 <= fi < v0.len() && is_markdown_name((#[trigger] v0[fi]).name)
                        implies id != name_id(v0, v0[fi].name) by {}
                assert(catalog_get(c2, id) == catalog_get(c0, id));
                assert(!crate::text::seq_has(sv, id)) by {
                    if crate::text::seq_has(sv, id) {
                        assert(file_carries(v0, id));
                    }
                }
            }
            assert forall|q: Seq<char>|
                (!file_carries(v0, q) && !(catalog_get(c0, q) is Some && !(catalog_get(
                    c0,
                    q,
                )->0).is_trashed)) implies #[trigger] catalog_get(catalog.view_notes(), q)
                == catalog_get(c0, q) by {
                assert forall|fi: int|
                    0 <= fi < v0.len() && is_markdown_name((#[trigger] v0[fi]).name)
                        implies q != name_id(v0, v0[fi].name) by {}
                assert(catalog_get(c2, q) == catalog_get(c0, q));
                assert(catalog_get(catalog.view_notes(), q) == catalog_get(c2, q));
            }
        }
    }
    let files_synced = sat_add(sat_add(count1, count2), count3);
    ReconcileResult { files_synced, imported_note_ids: imported, failures }
}

} // verus!