//! The sync controller: the process-wide sync state and the single entry
//! point that runs a full sweep and publishes the outcome.
use vstd::prelude::*;
use crate::catalog::{catalog_get, Catalog};
use crate::note::plain_field;
use crate::reconcile::{
    capped_of, cat_target, export_result, file_carries, full_reconcile, name_id, scan_ready,
    uncapped_of, vault_target, FailedSyncOp,
};
use crate::codec::serialize_spec;
use crate::vault::{is_markdown_name, vault_get, Vault};

verus! {

/// The process-wide sync state: whether a sweep runs, the last outcome,
/// live progress, and the retry queue the next sweep drains.
#[derive(Debug)]
pub struct SyncState {
    pub is_syncing: bool,
    pub last_sync: Option<String>,
    pub error: Option<String>,
    pub files_synced: u32,
    pub total_files: u32,
    pub current_file: u32,
    pub current_phase: String,
    pub retry_queue: Vec<FailedSyncOp>,
}

impl Default for SyncState {
    fn default() -> (r: SyncState)
        ensures
            r.is_syncing == false,
            r.last_sync is None,
            r.error is None,
            r.files_synced == 0,
            r.total_files == 0,
            r.current_file == 0,
            r.current_phase@ == "idle"@,
            r.retry_queue@.len() == 0,
    {
        SyncState {
            is_syncing: false,
            last_sync: None,
            error: None,
            files_synced: 0,
            total_files: 0,
            current_file: 0,
            current_phase: String::from_str("idle"),
            retry_queue: Vec::new(),
        }
    }
}

/// Run a full sweep if the vault is available: drain the retry queue into
/// the sweep, publish the outcome in the state, and return the imported
/// identifiers. An unavailable vault refuses the run and changes nothing.
pub fn trigger_sync(
    state: &mut SyncState,
    catalog: &mut Catalog,
    vault: &mut Vault,
    available: bool,
    now: &str,
) -> (r: Result<Vec<String>, crate::Error>)
    requires
        old(catalog).wf(),
        old(vault).wf(),
        plain_field(now@),
        now@.len() > 0,
    ensures
        final(catalog).wf(),
        final(vault).wf(),
        !available ==> r is Err && (r->Err_0).kind == crate::ErrorKind::Unavailable && *final(state) == *old(state) && final(catalog).view_notes() == old(catalog).view_notes() && final(vault).view_files() == old(vault).view_files(),
        available ==> {
            &&& r is Ok
            &&& final(state).is_syncing == false
            &&& final(state).error is None
            &&& final(state).last_sync is Some && (final(state).last_sync->0)@ == now@
            &&& final(state).current_phase@ == "idle"@
            &&& (exists|extra: Seq<FailedSyncOp>|
                final(state).retry_queue@ == capped_of(old(state).retry_queue@) + extra && (
                forall|k: int|
                    0 <= k < extra.len() ==> (#[trigger] extra[k])@.operation == "import"@
                        && extra[k]@.retry_count <= 3))
            &&& (old(state).retry_queue@.len() == 0 ==> final(state).retry_queue@.len() == 0)
            &&& final(catalog).activity@ == old(catalog).activity@
            &&& final(catalog).settings@ == old(catalog).settings@
        },
        // with no retries pending and a well-formed vault, the published
        // sweep has the full reconciliation contract
        (available && uncapped_of(old(state).retry_queue@).len() == 0 && scan_ready(
            old(vault).view_files(),
        )) ==> {
            let c0 = old(catalog).view_notes();
            let v0 = old(vault).view_files();
            &&& (forall|fi: int|
                0 <= fi < v0.len() && is_markdown_name((#[trigger] v0[fi]).name) ==> {
                    &&& catalog_get(final(catalog).view_notes(), name_id(v0, v0[fi].name))
                        == cat_target(c0, v0, v0[fi].name, now@)
                    &&& vault_get(final(vault).view_files(), v0[fi].name) == vault_target(
                        c0,
                        v0,
                        v0[fi].name,
                        now@,
                    )
                })
            &&& (forall|id: Seq<char>|
                (#[trigger] catalog_get(c0, id) is Some && !(catalog_get(c0, id)->0).is_trashed
                    && !file_carries(v0, id)) ==> catalog_get(final(catalog).view_notes(), id)
                    == Some(export_result(catalog_get(c0, id)->0)) && vault_get(
                    final(vault).view_files(),
                    id + ".md"@,
                ) == Some(serialize_spec(catalog_get(c0, id)->0)))
        },
{
    if !available {
        return Err(
            crate::Error::new(
                crate::ErrorKind::Unavailable,
                String::from_str("vault is not available"),
            ),
        );
    }
    state.is_syncing = true;
    state.error = None;
    state.current_phase = String::from_str("importing");
    let queue = core::mem::replace(&mut state.retry_queue, Vec::new());
    let result = full_reconcile(catalog, vault, queue, now);
    state.is_syncing = false;
    state.last_sync = Some(String::from_str(now));
    state.files_synced = result.files_synced;
    state.current_phase = String::from_str("idle");
    state.error = None;
    state.retry_queue = result.failures;
    Ok(result.imported_note_ids)
}

} // verus!
