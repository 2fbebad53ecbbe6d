//! The catalog: the structured store of notes, tags, wiki-links, activity
//! events and settings, modelled in memory with unique note identifiers.
use vstd::prelude::*;
use crate::models::{ActivityEvent, GraphEdge, Tag};
use crate::note::{Note, NoteView};
use crate::text::str_eq;

verus! {

/// The note stored under `id`, if any.
pub open spec fn catalog_get(notes: Seq<NoteView>, id: Seq<char>) -> Option<NoteView>
    decreases notes.len(),
{
    if notes.len() == 0 {
        None
    } else if notes[0].id == id {
        Some(notes[0])
    } else {
        catalog_get(notes.subrange(1, notes.len() as int), id)
    }
}

/// `catalog_get` answers for an id exactly when some note carries it.
pub proof fn lemma_catalog_get_index(notes: Seq<NoteView>, id: Seq<char>)
    ensures
        match catalog_get(notes, id) {
            Option::Some(n) => exists|i: int|
                0 <= i < notes.len() && (#[trigger] notes[i]).id == id && notes[i] == n,
            Option::None => forall|i: int|
                0 <= i < notes.len() ==> (#[trigger] notes[i]).id != id,
        },
    decreases notes.len(),
{
    if notes.len() == 0 {
    } else if notes[0].id == id {
    } else {
        lemma_catalog_get_index(notes.subrange(1, notes.len() as int), id);
        match catalog_get(notes, id) {
            Option::Some(n) => {
                let i = choose|i: int|
                    0 <= i < notes.subrange(1, notes.len() as int).len() && (
                    #[trigger] notes.subrange(1, notes.len() as int)[i]).id == id
                        && notes.subrange(1, notes.len() as int)[i] == n;
                assert(notes[i + 1].id == id && notes[i + 1] == n);
            }
            Option::None => {
                assert forall|i: int| 0 <= i < notes.len() implies (#[trigger] notes[i]).id
                    != id by {
                    if i > 0 {
                        assert(notes.subrange(1, notes.len() as int)[i - 1] == notes[i]);
                    }
                }
            }
        }
    }
}

/// Replacing the note at `i` (same id) changes only that id's answer.
pub proof fn lemma_catalog_get_update(
    pre: Seq<NoteView>,
    post: Seq<NoteView>,
    i: int,
    q: Seq<char>,
)
    requires
        0 <= i < pre.len(),
        post.len() == pre.len(),
        post[i].id == pre[i].id,
        forall|j: int| 0 <= j < pre.len() && j != i ==> post[j] == pre[j],
        forall|a: int, b: int|
            0 <= a < b < pre.len() ==> (#[trigger] pre[a]).id != (#[trigger] pre[b]).id,
    ensures
        catalog_get(post, q) == (if q == pre[i].id {
            Some(post[i])
        } else {
            catalog_get(pre, q)
        }),
    decreases pre.len(),
{
    if pre.len() == 0 {
    } else if i == 0 {
        if q == pre[0].id {
        } else {
            assert(post.subrange(1, post.len() as int) =~= pre.subrange(1, pre.len() as int));
        }
    } else {
        assert(post[0] == pre[0]);
        if q == pre[0].id {
        } else {
            let pre1 = pre.subrange(1, pre.len() as int);
            let post1 = post.subrange(1, post.len() as int);
            assert forall|a: int, b: int| 0 <= a < b < pre1.len() implies (
            #[trigger] pre1[a]).id != (#[trigger] pre1[b]).id by {
                assert(pre1[a] == pre[a + 1] && pre1[b] == pre[b + 1]);
            }
            assert forall|j: int| 0 <= j < pre1.len() && j != i - 1 implies post1[j]
                == pre1[j] by {
                assert(post1[j] == post[j + 1] && pre1[j] == pre[j + 1]);
            }
            assert(post1[i - 1] == post[i] && pre1[i - 1] == pre[i]);
            lemma_catalog_get_update(pre1, post1, i - 1, q);
        }
    }
}

/// Appending a note with a fresh id adds only that id's answer.
pub proof fn lemma_catalog_get_push(pre: Seq<NoteView>, post: Seq<NoteView>, q: Seq<char>)
    requires
        post.len() == pre.len() + 1,
        forall|j: int| 0 <= j < pre.len() ==> post[j] == pre[j],
        forall|j: int| 0 <= j < pre.len() ==> (#[trigger] pre[j]).id != post[post.len() - 1].id,
    ensures
        catalog_get(post, q) == (if q == post[post.len() - 1].id {
            Some(post[post.len() - 1])
        } else {
            catalog_get(pre, q)
        }),
    decreases pre.len(),
{
    if pre.len() == 0 {
        assert(post.subrange(1, post.len() as int) =~= Seq::<NoteView>::empty());
    } else {
        assert(post[0] == pre[0]);
        if q == pre[0].id {
        } else {
            let pre1 = pre.subrange(1, pre.len() as int);
            let post1 = post.subrange(1, post.len() as int);
            assert forall|j: int| 0 <= j < pre1.len() implies post1[j] == pre1[j] by {
                assert(post1[j] == post[j + 1] && pre1[j] == pre[j + 1]);
            }
            assert(post1[post1.len() - 1] == post[post.len() - 1]);
            assert forall|j: int| 0 <= j < pre1.len() implies (#[trigger] pre1[j]).id
                != post[post.len() - 1].id by {
                assert(pre1[j] == pre[j + 1]);
            }
            lemma_catalog_get_push(pre1, post1, q);
        }
    }
}

/// Removing the note at `i` clears only that id's answer.
pub proof fn lemma_catalog_get_remove(
    pre: Seq<NoteView>,
    post: Seq<NoteView>,
    i: int,
    q: Seq<char>,
)
    requires
        0 <= i < pre.len(),
        post.len() == pre.len() - 1,
        forall|j: int| 0 <= j < i ==> post[j] == pre[j],
        forall|j: int| i <= j < post.len() ==> post[j] == pre[j + 1],
        forall|a: int, b: int|
            0 <= a < b < pre.len() ==> (#[trigger] pre[a]).id != (#[trigger] pre[b]).id,
    ensures
        catalog_get(post, q) == (if q == pre[i].id {
            None::<NoteView>
        } else {
            catalog_get(pre, q)
        }),
{
    lemma_catalog_get_index(pre, q);
    lemma_catalog_get_index(post, q);
    if q == pre[i].id {
        if catalog_get(post, q) is Some {
            let j = choose|j: int|
                0 <= j < post.len() && (#[trigger] post[j]).id == q && post[j]
                    == catalog_get(post, q)->0;
            if j < i {
                assert(pre[j].id == q);
            } else {
                assert(pre[j + 1].id == q);
            }
        }
    } else {
        match catalog_get(pre, q) {
            Option::Some(n) => {
                let j = choose|j: int|
                    0 <= j < pre.len() && (#[trigger] pre[j]).id == q && pre[j] == n;
                assert(j != i);
                if j < i {
                    assert(post[j].id == q && post[j] == n);
                } else {
                    assert(post[j - 1].id == q && post[j - 1] == n);
                }
                match catalog_get(post, q) {
                    Option::Some(n2) => {
                        let j2 = choose|j2: int|
                            0 <= j2 < post.len() && (#[trigger] post[j2]).id == q && post[j2]
                                == n2;
                        let pj2: int = if j2 < i {
                            j2
                        } else {
                            j2 + 1
                        };
                        assert(pre[pj2].id == q && pre[pj2] == n2);
                        if pj2 != j {
                            assert(false);
                        }
                    }
                    Option::None => {
                        assert(false);
                    }
                }
            }
            Option::None => {
                if catalog_get(post, q) is Some {
                    let j2 = choose|j2: int|
                        0 <= j2 < post.len() && (#[trigger] post[j2]).id == q && post[j2]
                            == catalog_get(post, q)->0;
                    if j2 < i {
                        assert(pre[j2].id == q);
                    } else {
                        assert(pre[j2 + 1].id == q);
                    }
                }
            }
        }
    }
}

/// With unique ids, the note at index `j` is what `catalog_get` answers
/// for its id.
pub proof fn lemma_get_of_index(notes: Seq<NoteView>, j: int)
    requires
        0 <= j < notes.len(),
        forall|a: int, b: int|
            0 <= a < b < notes.len() ==> (#[trigger] notes[a]).id != (#[trigger] notes[b]).id,
    ensures
        catalog_get(notes, notes[j].id) == Some(notes[j]),
{
    lemma_catalog_get_index(notes, notes[j].id);
    if catalog_get(notes, notes[j].id) is None {
        assert(notes[j].id != notes[j].id);
    }
    let n = catalog_get(notes, notes[j].id)->0;
    let i2 = choose|i2: int|
        0 <= i2 < notes.len() && (#[trigger] notes[i2]).id == notes[j].id && notes[i2] == n;
    if i2 != j {
        assert(false);
    }
}

/// The view-level restatement of id uniqueness.
pub proof fn lemma_wf_unique_views(c: &Catalog)
    requires
        c.wf(),
    ensures
        forall|a: int, b: int|
            0 <= a < b < c.view_notes().len() ==> (#[trigger] c.view_notes()[a]).id != (
            #[trigger] c.view_notes()[b]).id,
{
    assert forall|a: int, b: int|
        0 <= a < b < c.view_notes().len() implies (#[trigger] c.view_notes()[a]).id != (
    #[trigger] c.view_notes()[b]).id by {
        assert(c.view_notes()[a] == c.notes@[a]@);
        assert(c.view_notes()[b] == c.notes@[b]@);
    }
}

pub open spec fn note_views(notes: Seq<Note>) -> Seq<NoteView> {
    notes.map_values(|n: Note| n@)
}

/// The ids of the non-trashed notes among the first `i`, in order.
pub open spec fn active_ids(notes: Seq<NoteView>, i: int) -> Seq<Seq<char>>
    decreases i,
{
    if i <= 0 {
        Seq::empty()
    } else {
        active_ids(notes, i - 1) + (if !notes[i - 1].is_trashed {
            seq![notes[i - 1].id]
        } else {
            Seq::empty()
        })
    }
}

/// What the active ids are: the id of every non-trashed note, each once.
pub proof fn lemma_active_ids(notes: Seq<NoteView>, i: int)
    requires
        0 <= i <= notes.len(),
    ensures
        forall|k: int|
            0 <= k < active_ids(notes, i).len() ==> exists|j: int|
                0 <= j < i && !(#[trigger] notes[j]).is_trashed && notes[j].id
                    == #[trigger] active_ids(notes, i)[k],
        forall|j: int|
            0 <= j < i && !(#[trigger] notes[j]).is_trashed ==> exists|k: int|
                0 <= k < active_ids(notes, i).len() && active_ids(notes, i)[k] == notes[j].id,
    decreases i,
{
    if i > 0 {
        lemma_active_ids(notes, i - 1);
        let cur = active_ids(notes, i);
        let pre = active_ids(notes, i - 1);
        assert forall|k: int|
            0 <= k < cur.len() implies exists|j: int|
            0 <= j < i && !(#[trigger] notes[j]).is_trashed && notes[j].id
                == #[trigger] cur[k] by {
            if k < pre.len() {
                assert(cur[k] == pre[k]);
                let j0 = choose|j0: int|
                    0 <= j0 < i - 1 && !(#[trigger] notes[j0]).is_trashed && notes[j0].id
                        == pre[k];
                assert(0 <= j0 < i && !notes[j0].is_trashed && notes[j0].id == cur[k]);
            } else {
                assert(!notes[i - 1].is_trashed);
                assert(cur[k] == notes[i - 1].id);
            }
        }
        assert forall|j: int|
            0 <= j < i && !(#[trigger] notes[j]).is_trashed implies exists|k: int|
            0 <= k < cur.len() && cur[k] == notes[j].id by {
            if j < i - 1 {
                let k0 = choose|k0: int| 0 <= k0 < pre.len() && pre[k0] == notes[j].id;
                assert(cur[k0] == notes[j].id);
            } else {
                assert(cur[cur.len() - 1] == notes[i - 1].id);
            }
        }
    }
}

/// The catalog: notes (unique ids), the tag table, the wiki-link edges,
/// the activity log and the settings.
#[derive(Debug)]
pub struct Catalog {
    pub notes: Vec<Note>,
    pub tag_defs: Vec<Tag>,
    pub links: Vec<GraphEdge>,
    pub activity: Vec<ActivityEvent>,
    pub settings: Vec<(String, String)>,
}

impl Catalog {
    /// Note identifiers are unique.
    pub open spec fn wf(&self) -> bool {
        forall|i: int, j: int|
            0 <= i < j < self.notes@.len() ==> (#[trigger] self.notes@[i])@.id
                != (#[trigger] self.notes@[j])@.id
    }

    pub open spec fn view_notes(&self) -> Seq<NoteView> {
        note_views(self.notes@)
    }

    pub fn new() -> (r: Catalog)
        ensures
            r.wf(),
            r.view_notes().len() == 0,
            r.tag_defs@.len() == 0,
            r.links@.len() == 0,
            r.activity@.len() == 0,
            r.settings@.len() == 0,
    {
        Catalog {
            notes: Vec::new(),
            tag_defs: Vec::new(),
            links: Vec::new(),
            activity: Vec::new(),
            settings: Vec::new(),
        }
    }

    /// The index of the note with this id.
    pub fn find_note(&self, id: &str) -> (r: Option<usize>)
        ensures
            match r {
                Option::Some(i) => i < self.notes@.len() && self.notes@[i as int]@.id == id@,
                Option::None => forall|i: int|
                    0 <= i < self.notes@.len() ==> (#[trigger] self.notes@[i])@.id != id@,
            },
    {
        let mut i: usize = 0;
        while i < self.notes.len()
            invariant
                i <= self.notes@.len(),
                forall|j: int| 0 <= j < i ==> (#[trigger] self.notes@[j])@.id != id@,
            decreases self.notes@.len() - i,
        {
            if str_eq(self.notes[i].id.as_str(), id) {
                return Some(i);
            }
            i = i + 1;
        }
        None
    }

    /// Bridge between an index answer and the map view.
    proof fn lemma_found(&self, id: Seq<char>, i: int)
        requires
            self.wf(),
            0 <= i < self.view_notes().len(),
            self.view_notes()[i].id == id,
        ensures
            catalog_get(self.view_notes(), id) == Some(self.view_notes()[i]),
    {
        lemma_catalog_get_index(self.view_notes(), id);
        if catalog_get(self.view_notes(), id) is None {
            assert(self.view_notes()[i].id != id);
        }
        let n = catalog_get(self.view_notes(), id)->0;
        let i2 = choose|i2: int|
            0 <= i2 < self.view_notes().len() && (#[trigger] self.view_notes()[i2]).id == id
                && self.view_notes()[i2] == n;
        if i2 != i {
            assert(self.notes@[i2]@.id == self.notes@[i]@.id);
            assert(false);
        }
    }

    proof fn lemma_not_found(&self, id: Seq<char>)
        requires
            forall|i: int|
                0 <= i < self.notes@.len() ==> (#[trigger] self.notes@[i])@.id != id,
        ensures
            catalog_get(self.view_notes(), id) is None,
    {
        lemma_catalog_get_index(self.view_notes(), id);
        if catalog_get(self.view_notes(), id) is Some {
            let n = catalog_get(self.view_notes(), id)->0;
            let i2 = choose|i2: int|
                0 <= i2 < self.view_notes().len() && (#[trigger] self.view_notes()[i2]).id
                    == id && self.view_notes()[i2] == n;
            assert(self.notes@[i2]@.id == id);
            assert(false);
        }
    }

    /// The note stored under `id`, or a not-found error.
    pub fn fetch_note(&self, id: &str) -> (r: Result<Note, crate::Error>)
        requires
            self.wf(),
        ensures
            match r {
                Result::Ok(n) => catalog_get(self.view_notes(), id@) == Some(n@),
                Result::Err(e) => catalog_get(self.view_notes(), id@) is None && e.kind
                    == crate::ErrorKind::NotFound,
            },
    {
        match self.find_note(id) {
            Option::Some(i) => {
                proof {
                    self.lemma_found(id@, i as int);
                }
                Ok(self.notes[i].clone())
            }
            Option::None => {
                proof {
                    self.lemma_not_found(id@);
                }
                Err(
                    crate::Error::new(
                        crate::ErrorKind::NotFound,
                        String::from_str("note not found"),
                    ),
                )
            }
        }
    }

    /// The ids of all non-trashed notes, in catalog order.
    pub fn active_note_ids(&self) -> (r: Vec<String>)
        requires
            self.wf(),
        ensures
            crate::note::str_views(r@) == active_ids(
                self.view_notes(),
                self.view_notes().len() as int,
            ),
    {
        let mut out: Vec<String> = Vec::new();
        let mut i: usize = 0;
        proof {
            assert(crate::note::str_views(out@) =~= active_ids(self.view_notes(), 0));
        }
        while i < self.notes.len()
            invariant
                i <= self.notes@.len(),
                crate::note::str_views(out@) == active_ids(self.view_notes(), i as int),
            decreases self.notes@.len() - i,
        {
            let ghost prev = out@;
            let trashed = self.notes[i].is_trashed;
            if !trashed {
                out.push(self.notes[i].id.clone());
            }
            proof {
                if !trashed {
                    assert(crate::note::str_views(out@) =~= crate::note::str_views(prev)
                        + seq![self.view_notes()[i as int].id]);
                } else {
                    assert(crate::note::str_views(out@) =~= active_ids(
                        self.view_notes(),
                        i as int,
                    ) + Seq::<Seq<char>>::empty());
                }
                assert(crate::note::str_views(out@) =~= active_ids(self.view_notes(), i + 1));
            }
            i = i + 1;
        }
        out
    }

    /// Store the given fingerprint on the note with this id; an absent id
    /// changes nothing.
    pub fn update_sync_hash(&mut self, id: &str, hash: String)
        requires
            old(self).wf(),
        ensures
            final(self).wf(),
            final(self).tag_defs@ == old(self).tag_defs@,
            final(self).links@ == old(self).links@,
            final(self).activity@ == old(self).activity@,
            final(self).settings@ == old(self).settings@,
            forall|q: Seq<char>|
                #[trigger] catalog_get(final(self).view_notes(), q) == (match catalog_get(
                    old(self).view_notes(),
                    q,
                ) {
                    Option::Some(o) => if q == id@ {
                        Some(NoteView { sync_hash: Some(hash@), ..o })
                    } else {
                        Some(o)
                    },
                    Option::None => None::<NoteView>,
                }),
    {
        let found = self.find_note(id);
        let ghost pre = self.view_notes();
        match found {
            Option::Some(i) => {
                proof {
                    self.lemma_found(id@, i as int);
                }
                let mut n = self.notes[i].clone();
                n.sync_hash = Some(hash);
                self.notes.set(i, n);
                proof {
                    assert forall|q: Seq<char>|
                        #[trigger] catalog_get(self.view_notes(), q) == (match catalog_get(
                            pre,
                            q,
                        ) {
                            Option::Some(o) => if q == id@ {
                                Some(self.view_notes()[i as int])
                            } else {
                                Some(o)
                            },
                            Option::None => None::<NoteView>,
                        }) by {
                        lemma_catalog_get_update(pre, self.view_notes(), i as int, q);
                        if q != pre[i as int].id {
                            lemma_catalog_get_index(pre, q);
                        }
                    }
                }
            }
            Option::None => {
                proof {
                    self.lemma_not_found(id@);
                    assert forall|q: Seq<char>|
                        #[trigger] catalog_get(self.view_notes(), q) == (match catalog_get(
                            pre,
                            q,
                        ) {
                            Option::Some(o) => Some(o),
                            Option::None => None::<NoteView>,
                        }) by {}
                }
            }
        }
    }

    /// Trash the note with this id if it is currently active, stamping the
    /// removal time; report whether a row changed. Absent or already
    /// trashed notes change nothing.
    pub fn trash_if_active(&mut self, id: &str, now: &str) -> (changed: bool)
        requires
            old(self).wf(),
        ensures
            final(self).wf(),
            final(self).tag_defs@ == old(self).tag_defs@,
            final(self).links@ == old(self).links@,
            final(self).activity@ == old(self).activity@,
            final(self).settings@ == old(self).settings@,
            changed == (match catalog_get(old(self).view_notes(), id@) {
                Option::Some(o) => !o.is_trashed,
                Option::None => false,
            }),
            forall|q: Seq<char>|
                #[trigger] catalog_get(final(self).view_notes(), q) == (match catalog_get(
                    old(self).view_notes(),
                    q,
                ) {
                    Option::Some(o) => if q == id@ && !o.is_trashed {
                        Some(NoteView { is_trashed: true, updated_at: now@, ..o })
                    } else {
                        Some(o)
                    },
                    Option::None => None::<NoteView>,
                }),
    {
        let found = self.find_note(id);
        let ghost pre = self.view_notes();
        match found {
            Option::Some(i) => {
                proof {
                    self.lemma_found(id@, i as int);
                }
                if self.notes[i].is_trashed {
                    proof {
                        assert forall|q: Seq<char>|
                            #[trigger] catalog_get(self.view_notes(), q) == (match catalog_get(
                                pre,
                                q,
                            ) {
                                Option::Some(o) => Some(o),
                                Option::None => None::<NoteView>,
                            }) by {}
                    }
                    return false;
                }
                let mut n = self.notes[i].clone();
                n.is_trashed = true;
                n.updated_at = String::from_str(now);
                self.notes.set(i, n);
                proof {
                    assert forall|q: Seq<char>|
                        #[trigger] catalog_get(self.view_notes(), q) == (match catalog_get(
                            pre,
                            q,
                        ) {
                            Option::Some(o) => if q == id@ && !o.is_trashed {
                                Some(NoteView { is_trashed: true, updated_at: now@, ..o })
                            } else {
                                Some(o)
                            },
                            Option::None => None::<NoteView>,
                        }) by {
                        lemma_catalog_get_update(pre, self.view_notes(), i as int, q);
                        if q != pre[i as int].id {
                            lemma_catalog_get_index(pre, q);
                        }
                    }
                }
                true
            }
            Option::None => {
                proof {
                    self.lemma_not_found(id@);
                    assert forall|q: Seq<char>|
                        #[trigger] catalog_get(self.view_notes(), q) == (match catalog_get(
                            pre,
                            q,
                        ) {
                            Option::Some(o) => Some(o),
                            Option::None => None::<NoteView>,
                        }) by {}
                }
                false
            }
        }
    }
}

/// How an upsert from a vault file merges into an existing record: the
/// file's text fields win, the catalog-only fields survive.
pub open spec fn merged_note(o: NoteView, f: NoteView, hash: Seq<char>) -> NoteView {
    NoteView {
        id: o.id,
        title: f.title,
        content: f.content,
        created_at: o.created_at,
        updated_at: f.updated_at,
        is_trashed: o.is_trashed,
        is_pinned: f.is_pinned,
        word_count: f.word_count,
        file_path: o.file_path,
        sync_hash: Some(hash),
        tags: f.tags,
        state: o.state,
        workspace_id: o.workspace_id,
        version: o.version,
    }
}

impl Catalog {
    /// Insert or update a note read from a vault file. On an existing id
    /// the catalog-only fields — editorial state, workspace, trashed flag,
    /// creation time — are preserved; the stored fingerprint becomes
    /// `hash` either way, and the note's tag set is replaced by the
    /// file's.
    pub fn upsert_from_file(&mut self, file_note: &Note, hash: String)
        requires
            old(self).wf(),
        ensures
            final(self).wf(),
            final(self).activity@ == old(self).activity@,
            final(self).settings@ == old(self).settings@,
            forall|k: int|
                0 <= k < file_note.tags@.len() ==> tag_names(final(self).tag_defs@).contains(
                    (#[trigger] file_note.tags@[k])@,
                ),
            forall|q: Seq<char>|
                #[trigger] catalog_get(final(self).view_notes(), q) == (if q == file_note@.id {
                    match catalog_get(old(self).view_notes(), q) {
                        Option::Some(o) => Some(merged_note(o, file_note@, hash@)),
                        Option::None => Some(
                            NoteView { sync_hash: Some(hash@), ..file_note@ },
                        ),
                    }
                } else {
                    catalog_get(old(self).view_notes(), q)
                }),
    {
        let found = self.find_note(file_note.id.as_str());
        let ghost pre = self.view_notes();
        match found {
            Option::Some(i) => {
                proof {
                    self.lemma_found(file_note@.id, i as int);
                }
                let old_note = &self.notes[i];
                let n = Note {
                    id: old_note.id.clone(),
                    title: file_note.title.clone(),
                    content: file_note.content.clone(),
                    created_at: old_note.created_at.clone(),
                    updated_at: file_note.updated_at.clone(),
                    is_trashed: old_note.is_trashed,
                    is_pinned: file_note.is_pinned,
                    word_count: file_note.word_count,
                    file_path: crate::note::clone_opt_string(&old_note.file_path),
                    sync_hash: Some(hash),
                    tags: crate::note::clone_string_vec(&file_note.tags),
                    state: old_note.state.clone(),
                    workspace_id: crate::note::clone_opt_string(&old_note.workspace_id),
                    version: old_note.version,
                };
                proof {
                    assert(n@ == merged_note(pre[i as int], file_note@, hash@));
                }
                self.notes.set(i, n);
                proof {
                    assert forall|q: Seq<char>|
                        #[trigger] catalog_get(self.view_notes(), q) == (if q == file_note@.id {
                            match catalog_get(pre, q) {
                                Option::Some(o) => Some(merged_note(o, file_note@, hash@)),
                                Option::None => Some(
                                    NoteView { sync_hash: Some(hash@), ..file_note@ },
                                ),
                            }
                        } else {
                            catalog_get(pre, q)
                        }) by {
                        lemma_catalog_get_update(pre, self.view_notes(), i as int, q);
                    }
                }
            }
            Option::None => {
                proof {
                    self.lemma_not_found(file_note@.id);
                }
                let mut n = file_note.clone();
                n.sync_hash = Some(hash);
                self.notes.push(n);
                proof {
                    let post = self.view_notes();
                    assert(post[post.len() - 1] == NoteView {
                        sync_hash: Some(hash@),
                        ..file_note@
                    });
                    assert forall|j: int| 0 <= j < pre.len() implies post[j] == pre[j] by {}
                    assert forall|j: int| 0 <= j < pre.len() implies (#[trigger] pre[j]).id
                        != post[post.len() - 1].id by {
                        assert(pre[j].id == self.notes@[j]@.id);
                    }
                    assert forall|q: Seq<char>|
                        #[trigger] catalog_get(self.view_notes(), q) == (if q == file_note@.id {
                            match catalog_get(pre, q) {
                                Option::Some(o) => Some(merged_note(o, file_note@, hash@)),
                                Option::None => Some(
                                    NoteView { sync_hash: Some(hash@), ..file_note@ },
                                ),
                            }
                        } else {
                            catalog_get(pre, q)
                        }) by {
                        lemma_catalog_get_push(pre, self.view_notes(), q);
                    }
                    assert(self.wf()) by {
                        assert forall|a: int, b: int|
                            0 <= a < b < self.notes@.len() implies (
                        #[trigger] self.notes@[a])@.id != (#[trigger] self.notes@[b])@.id by {
                            if b == self.notes@.len() - 1 {
                                assert(pre[a].id != post[post.len() - 1].id);
                            }
                        }
                    }
                }
            }
        }
        let ghost mid_notes = self.view_notes();
        self.refresh_tags(&file_note.tags);
        self.sync_note_links(file_note.id.as_str(), file_note.content.as_str());
        proof {
            assert(self.view_notes() == mid_notes);
        }
    }
}


// ---- tags table maintenance ----

/// How many of the notes bear the tag `name`.
pub open spec fn tag_count(notes: Seq<NoteView>, name: Seq<char>, i: int) -> nat
    decreases i,
{
    if i <= 0 {
        0
    } else {
        tag_count(notes, name, i - 1) + (if note_has_tag(notes[i - 1], name) {
            1nat
        } else {
            0nat
        })
    }
}

pub open spec fn note_has_tag(n: NoteView, name: Seq<char>) -> bool {
    exists|k: int| 0 <= k < n.tags.len() && n.tags[k] == name
}

/// A tag row's recorded parent is the hierarchical parent of its name:
/// the prefix before the last `/`, or none for a leaf.
pub open spec fn parent_matches(t: Tag) -> bool {
    match t.parent_name {
        Option::Some(p) => crate::tags::parent_tag_spec(t.name@) == Some(p@),
        Option::None => crate::tags::parent_tag_spec(t.name@) is None,
    }
}

pub open spec fn tag_names(defs: Seq<Tag>) -> Set<Seq<char>> {
    Set::new(|t: Seq<char>| exists|i: int| 0 <= i < defs.len() && (#[trigger] defs[i]).name@ == t)
}

impl Catalog {
    /// True when the tag table has a row for `name`.
    fn find_tag(&self, name: &str) -> (r: Option<usize>)
        ensures
            match r {
                Option::Some(i) => i < self.tag_defs@.len() && self.tag_defs@[i as int].name@
                    == name@,
                Option::None => forall|i: int|
                    0 <= i < self.tag_defs@.len() ==> (#[trigger] self.tag_defs@[i]).name@
                        != name@,
            },
    {
        let mut i: usize = 0;
        while i < self.tag_defs.len()
            invariant
                i <= self.tag_defs@.len(),
                forall|j: int|
                    0 <= j < i ==> (#[trigger] self.tag_defs@[j]).name@ != name@,
            decreases self.tag_defs@.len() - i,
        {
            if str_eq(self.tag_defs[i].name.as_str(), name) {
                return Some(i);
            }
            i = i + 1;
        }
        None
    }

    /// Count the notes bearing `name`.
    fn count_tag(&self, name: &str) -> (r: u64)
        ensures
            r == tag_count(self.view_notes(), name@, self.view_notes().len() as int),
    {
        let mut count: u64 = 0;
        let mut i: usize = 0;
        while i < self.notes.len()
            invariant
                i <= self.notes@.len(),
                count == tag_count(self.view_notes(), name@, i as int),
                count <= i,
            decreases self.notes@.len() - i,
        {
            let mut has: bool = false;
            let note_tags = &self.notes[i].tags;
            let mut k: usize = 0;
            while k < note_tags.len()
                invariant
                    k <= note_tags@.len(),
                    note_tags@ == self.notes@[i as int].tags@,
                    i < self.notes@.len(),
                    has == exists|m: int|
                        0 <= m < k && self.view_notes()[i as int].tags[m] == name@,
                decreases note_tags@.len() - k,
            {
                if str_eq(note_tags[k].as_str(), name) {
                    proof {
                        assert(self.view_notes()[i as int].tags[k as int] == name@);
                    }
                    has = true;
                }
                k = k + 1;
            }
            proof {
                assert(has == note_has_tag(self.view_notes()[i as int], name@));
            }
            if has {
                count = count + 1;
            }
            i = i + 1;
        }
        count
    }

    /// Make sure the tag table has a row for every name in `names`
    /// (recording the hierarchical parent of a new row), and refresh every
    /// row's cached note count.
    pub fn refresh_tags(&mut self, names: &Vec<String>)
        requires
            old(self).wf(),
        ensures
            final(self).wf(),
            final(self).notes@ == old(self).notes@,
            final(self).links@ == old(self).links@,
            final(self).activity@ == old(self).activity@,
            final(self).settings@ == old(self).settings@,
            forall|k: int|
                0 <= k < names@.len() ==> tag_names(final(self).tag_defs@).contains(
                    (#[trigger] names@[k])@,
                ),
            forall|t: Seq<char>|
                #[trigger] tag_names(final(self).tag_defs@).contains(t) ==> (tag_names(
                    old(self).tag_defs@,
                ).contains(t) || exists|k: int| 0 <= k < names@.len() && (#[trigger] names@[k])@ == t),
            forall|i: int|
                0 <= i < final(self).tag_defs@.len()
                    ==> (#[trigger] final(self).tag_defs@[i]).note_count == tag_count(
                    final(self).view_notes(),
                    final(self).tag_defs@[i].name@,
                    final(self).view_notes().len() as int,
                ),
            forall|i: int|
                0 <= i < final(self).tag_defs@.len() && !tag_names(old(self).tag_defs@).contains(
                    (#[trigger] final(self).tag_defs@[i]).name@,
                ) ==> parent_matches(final(self).tag_defs@[i]),
    {
        let mut k: usize = 0;
        while k < names.len()
            invariant
                self.wf(),
                self.notes@ == old(self).notes@,
                self.links@ == old(self).links@,
                self.activity@ == old(self).activity@,
                self.settings@ == old(self).settings@,
                k <= names@.len(),
                forall|m: int|
                    0 <= m < k ==> tag_names(self.tag_defs@).contains((#[trigger] names@[m])@),
                forall|t: Seq<char>|
                    #[trigger] tag_names(self.tag_defs@).contains(t) ==> (tag_names(
                        old(self).tag_defs@,
                    ).contains(t) || exists|m: int|
                        0 <= m < names@.len() && (#[trigger] names@[m])@ == t),
                forall|i: int|
                    0 <= i < self.tag_defs@.len() && !tag_names(old(self).tag_defs@).contains(
                        (#[trigger] self.tag_defs@[i]).name@,
                    ) ==> parent_matches(self.tag_defs@[i]),
                forall|i: int|
                    0 <= i < old(self).tag_defs@.len() ==> old(self).tag_defs@[i]
                        == #[trigger] self.tag_defs@[i],
                old(self).tag_defs@.len() <= self.tag_defs@.len(),
            decreases names@.len() - k,
        {
            let name = &names[k];
            match self.find_tag(name.as_str()) {
                Option::Some(_) => {
                    proof {
                        let i0 = choose|i0: int|
                            0 <= i0 < self.tag_defs@.len() && (#[trigger] self.tag_defs@[
                                i0
                            ]).name@ == name@;
                        assert(tag_names(self.tag_defs@).contains(name@));
                    }
                }
                Option::None => {
                    let parent = crate::tags::get_parent_tag(name.as_str());
                    let row_count: u64 = self.tag_defs.len() as u64;
                    let next_id: u64 = if row_count < 0xffff_ffff_ffff_ffffu64 {
                        row_count + 1
                    } else {
                        0
                    };
                    let row = Tag {
                        id: next_id,
                        name: name.clone(),
                        parent_name: parent,
                        note_count: 0,
                        is_pinned: false,
                    };
                    let ghost pre_defs = self.tag_defs@;
                    self.tag_defs.push(row);
                    proof {
                        assert(self.tag_defs@[self.tag_defs@.len() - 1].name@ == name@);
                        assert(tag_names(self.tag_defs@).contains(name@));
                        assert forall|t: Seq<char>|
                            #[trigger] tag_names(self.tag_defs@).contains(t) implies (tag_names(
                                old(self).tag_defs@,
                            ).contains(t) || exists|m: int|
                                0 <= m < names@.len() && (#[trigger] names@[m])@ == t) by {
                            let i0 = choose|i0: int|
                                0 <= i0 < self.tag_defs@.len() && (#[trigger] self.tag_defs@[
                                    i0
                                ]).name@ == t;
                            if i0 < pre_defs.len() {
                                assert(pre_defs[i0].name@ == t);
                                assert(tag_names(pre_defs).contains(t));
                            } else {
                                assert(names@[k as int]@ == t);
                            }
                        }
                        assert forall|m: int|
                            0 <= m < k + 1 implies tag_names(self.tag_defs@).contains(
                            (#[trigger] names@[m])@) by {
                            if m < k {
                                let i0 = choose|i0: int|
                                    0 <= i0 < pre_defs.len() && (#[trigger] pre_defs[i0]).name@
                                        == names@[m]@;
                                assert(self.tag_defs@[i0].name@ == names@[m]@);
                            }
                        }
                    }
                }
            }
            k = k + 1;
        }
        // refresh every cached count
        let mut i: usize = 0;
        while i < self.tag_defs.len()
            invariant
                self.wf(),
                self.notes@ == old(self).notes@,
                self.links@ == old(self).links@,
                self.activity@ == old(self).activity@,
                self.settings@ == old(self).settings@,
                i <= self.tag_defs@.len(),
                tag_names(self.tag_defs@) =~= tag_names(old_defs_snapshot(self.tag_defs@)),
                forall|m: int|
                    0 <= m < names@.len() ==> tag_names(self.tag_defs@).contains(
                        (#[trigger] names@[m])@,
                    ),
                forall|t: Seq<char>|
                    #[trigger] tag_names(self.tag_defs@).contains(t) ==> (tag_names(
                        old(self).tag_defs@,
                    ).contains(t) || exists|m: int|
                        0 <= m < names@.len() && (#[trigger] names@[m])@ == t),
                forall|j: int|
                    0 <= j < i ==> (#[trigger] self.tag_defs@[j]).note_count == tag_count(
                        self.view_notes(),
                        self.tag_defs@[j].name@,
                        self.view_notes().len() as int,
                    ),
                forall|j: int|
                    0 <= j < self.tag_defs@.len() && !tag_names(old(self).tag_defs@).contains(
                        (#[trigger] self.tag_defs@[j]).name@,
                    ) ==> parent_matches(self.tag_defs@[j]),
            decreases self.tag_defs@.len() - i,
        {
            let name = self.tag_defs[i].name.clone();
            let c = self.count_tag(name.as_str());
            let mut row = replace_tag_row(&self.tag_defs[i], c);
            let ghost pre_defs = self.tag_defs@;
            self.tag_defs.set(i, row);
            proof {
                assert(self.tag_defs@[i as int].name@ == pre_defs[i as int].name@);
                assert(parent_matches(pre_defs[i as int]) ==> parent_matches(
                    self.tag_defs@[i as int],
                ));
                assert forall|j: int|
                    0 <= j < self.tag_defs@.len() && !tag_names(old(self).tag_defs@).contains(
                        (#[trigger] self.tag_defs@[j]).name@,
                    ) implies parent_matches(self.tag_defs@[j]) by {
                    if j != i {
                        assert(self.tag_defs@[j] == pre_defs[j]);
                    }
                }
                assert(tag_names(self.tag_defs@) =~= tag_names(pre_defs)) by {
                    assert forall|t: Seq<char>|
                        tag_names(self.tag_defs@).contains(t)
                            == tag_names(pre_defs).contains(t) by {
                        if tag_names(self.tag_defs@).contains(t) {
                            let i0 = choose|i0: int|
                                0 <= i0 < self.tag_defs@.len() && (#[trigger] self.tag_defs@[
                                    i0
                                ]).name@ == t;
                            assert(pre_defs[i0].name@ == t);
                        }
                        if tag_names(pre_defs).contains(t) {
                            let i0 = choose|i0: int|
                                0 <= i0 < pre_defs.len() && (#[trigger] pre_defs[i0]).name@
                                    == t;
                            assert(self.tag_defs@[i0].name@ == t);
                        }
                    }
                }
            }
            i = i + 1;
        }
    }
}

/// Identity helper naming the tag-table snapshot an invariant refers to.
pub open spec fn old_defs_snapshot(defs: Seq<Tag>) -> Seq<Tag> {
    defs
}

/// Copy a tag row with a fresh cached count.
fn replace_tag_row(t: &Tag, count: u64) -> (r: Tag)
    ensures
        r.name@ == t.name@,
        r.id == t.id,
        r.is_pinned == t.is_pinned,
        r.note_count == count,
        (match r.parent_name {
            Option::Some(p) => t.parent_name is Some && p@ == t.parent_name->0@,
            Option::None => t.parent_name is None,
        }),
{
    Tag {
        id: t.id,
        name: t.name.clone(),
        parent_name: crate::note::clone_opt_string(&t.parent_name),
        note_count: count,
        is_pinned: t.is_pinned,
    }
}


// ---- wiki links ----

pub open spec fn wiki_open() -> Seq<char> {
    seq!['[', '[']
}

/// The `[[title]]` occurrences of a body, scanned left to right: after
/// `[[`, the title runs to the nearest `]`, which must be non-empty and
/// followed by a second `]`; the scan resumes after the match.
pub open spec fn wiki_titles(s: Seq<char>, i: int) -> Seq<Seq<char>>
    decreases s.len() - i,
    via wiki_titles_decreases
{
    match crate::text::find_sub_from(s, wiki_open(), i) {
        Option::None => Seq::empty(),
        Option::Some(o) => match crate::text::find_char_from(s, ']', o + 2) {
            Option::None => Seq::empty(),
            Option::Some(e) => if e > o + 2 && e + 1 < s.len() && s[e + 1] == ']' {
                seq![s.subrange(o + 2, e)] + wiki_titles(s, e + 2)
            } else {
                wiki_titles(s, o + 1)
            },
        },
    }
}

#[via_fn]
proof fn wiki_titles_decreases(s: Seq<char>, i: int) {
    match crate::text::find_sub_from(s, wiki_open(), i) {
        Option::None => {}
        Option::Some(o) => {
            crate::text::lemma_find_sub_from_some(s, wiki_open(), i, o);
            match crate::text::find_char_from(s, ']', o + 2) {
                Option::None => {}
                Option::Some(e) => {
                    crate::text::lemma_find_char_from_some(s, ']', o + 2, e);
                }
            }
        }
    }
}

/// Scan a body for its `[[title]]` occurrences.
pub fn scan_wiki_titles(content: &str) -> (r: Vec<String>)
    ensures
        crate::note::str_views(r@) == wiki_titles(content@, 0),
{
    let v = crate::text::to_char_vec(content);
    let n: usize = v.len();
    let mut pat: Vec<char> = Vec::new();
    pat.push('[');
    pat.push('[');
    assert(pat@ =~= wiki_open());
    let mut out: Vec<String> = Vec::new();
    let mut i: usize = 0;
    proof {
        assert(crate::note::str_views(out@) + wiki_titles(v@, 0) =~= wiki_titles(v@, 0));
    }
    loop
        invariant
            n == v@.len(),
            v@ == content@,
            pat@ == wiki_open(),
            i <= n,
            wiki_titles(v@, 0) == crate::note::str_views(out@) + wiki_titles(v@, i as int),
        decreases n - i,
    {
        match crate::text::find_sub(&v, &pat, i) {
            Option::None => {
                assert(wiki_titles(v@, i as int) =~= Seq::<Seq<char>>::empty());
                assert(crate::note::str_views(out@) =~= wiki_titles(v@, 0));
                return out;
            }
            Option::Some(o) => {
                proof {
                    crate::text::lemma_find_sub_from_some(v@, wiki_open(), i as int, o as int);
                }
                match crate::text::find_char(&v, ']', o + 2) {
                    Option::None => {
                        assert(wiki_titles(v@, i as int) =~= Seq::<Seq<char>>::empty());
                        assert(crate::note::str_views(out@) =~= wiki_titles(v@, 0));
                        return out;
                    }
                    Option::Some(e) => {
                        proof {
                            crate::text::lemma_find_char_from_some(v@, ']', o + 2, e as int);
                        }
                        if e > o + 2 && e + 1 < n && v[e + 1] == ']' {
                            let title_chars = crate::text::slice_chars(&v, o + 2, e);
                            let title = crate::text::from_char_vec(&title_chars);
                            let ghost prev = out@;
                            out.push(title);
                            i = e + 2;
                            proof {
                                assert(crate::note::str_views(out@) =~= crate::note::str_views(
                                    prev,
                                ) + seq![v@.subrange(o + 2, e as int)]);
                                assert(wiki_titles(v@, 0) =~= crate::note::str_views(out@)
                                    + wiki_titles(v@, i as int));
                            }
                        } else {
                            i = o + 1;
                        }
                    }
                }
            }
        }
    }
}

/// The first non-trashed note with exactly this title, if any.
pub open spec fn resolve_title_spec(notes: Seq<NoteView>, title: Seq<char>) -> Option<
    Seq<char>,
>
    decreases notes.len(),
{
    if notes.len() == 0 {
        None
    } else if !notes[0].is_trashed && notes[0].title == title {
        Some(notes[0].id)
    } else {
        resolve_title_spec(notes.subrange(1, notes.len() as int), title)
    }
}

pub open spec fn edge_view(e: &GraphEdge) -> (Seq<char>, Seq<char>, Seq<char>) {
    (e.source@, e.target@, e.link_type@)
}

impl Catalog {
    /// Resolve a wiki-link title against the non-trashed notes.
    fn resolve_title(&self, title: &str) -> (r: Option<String>)
        ensures
            match r {
                Option::Some(id) => resolve_title_spec(self.view_notes(), title@) == Some(id@),
                Option::None => resolve_title_spec(self.view_notes(), title@) is None,
            },
    {
        let mut i: usize = 0;
        proof {
            assert(self.view_notes().subrange(0, self.view_notes().len() as int)
                =~= self.view_notes());
        }
        while i < self.notes.len()
            invariant
                i <= self.notes@.len(),
                resolve_title_spec(self.view_notes(), title@) == resolve_title_spec(
                    self.view_notes().subrange(i as int, self.view_notes().len() as int),
                    title@,
                ),
            decreases self.notes@.len() - i,
        {
            let ghost suf = self.view_notes().subrange(
                i as int,
                self.view_notes().len() as int,
            );
            proof {
                assert(suf[0] == self.view_notes()[i as int]);
                assert(suf.subrange(1, suf.len() as int) =~= self.view_notes().subrange(
                    i + 1,
                    self.view_notes().len() as int,
                ));
            }
            if !self.notes[i].is_trashed && str_eq(
                self.notes[i].title.as_str(),
                title,
            ) {
                return Some(self.notes[i].id.clone());
            }
            i = i + 1;
        }
        proof {
            assert(self.view_notes().subrange(
                self.view_notes().len() as int,
                self.view_notes().len() as int,
            ) =~= Seq::<NoteView>::empty());
        }
        None
    }

    /// Rebuild the wiki-link edges whose source is `note_id` from the
    /// body: delete them all, then add one `wiki_link` edge per resolvable
    /// `[[title]]` whose target is another, non-trashed note; duplicates
    /// are kept out.
    #[verifier::rlimit(100)]
    pub fn sync_note_links(&mut self, note_id: &str, content: &str)
        requires
            old(self).wf(),
        ensures
            final(self).wf(),
            final(self).notes@ == old(self).notes@,
            final(self).tag_defs@ == old(self).tag_defs@,
            final(self).activity@ == old(self).activity@,
            final(self).settings@ == old(self).settings@,
            // edges of other sources are kept, both ways
            forall|k: int|
                0 <= k < final(self).links@.len() && (#[trigger] final(self).links@[k]).source@ != note_id@ ==> exists|m: int|
                    0 <= m < old(self).links@.len() && edge_view(&old(self).links@[m])
                        == edge_view(&final(self).links@[k]),
            forall|m: int|
                0 <= m < old(self).links@.len() && (#[trigger] old(self).links@[m]).source@
                    != note_id@ ==> exists|k: int|
                    0 <= k < final(self).links@.len() && edge_view(&final(self).links@[k])
                        == edge_view(&old(self).links@[m]),
            // edges from this note are exactly the resolvable titles
            forall|k: int|
                0 <= k < final(self).links@.len() && (#[trigger] final(self).links@[k]).source@ == note_id@ ==> final(self).links@[k].link_type@
                    == "wiki_link"@ && final(self).links@[k].target@ != note_id@ && exists|
                    t: int|
                    0 <= t < wiki_titles(content@, 0).len() && resolve_title_spec(
                        old(self).view_notes(),
                        wiki_titles(content@, 0)[t],
                    ) == Some(final(self).links@[k].target@),
            forall|t: int|
                0 <= t < wiki_titles(content@, 0).len() && (match resolve_title_spec(
                    old(self).view_notes(),
                    #[trigger] wiki_titles(content@, 0)[t],
                ) {
                    Option::Some(tid) => tid != note_id@,
                    Option::None => false,
                }) ==> exists|k: int|
                    0 <= k < final(self).links@.len() && (#[trigger] final(self).links@[k]).source@ == note_id@ && final(self).links@[k].target@
                        == resolve_title_spec(old(self).view_notes(), wiki_titles(content@, 0)[t])->0,
            // no duplicate edge from this note
            forall|k1: int, k2: int|
                0 <= k1 < k2 < final(self).links@.len() && (#[trigger] final(self).links@[k1]).source@ == note_id@ && (#[trigger] final(self).links@[k2]).source@ == note_id@ ==> final(self).links@[k1].target@
                    != final(self).links@[k2].target@,
    {
        // keep the edges of other sources
        let mut kept: Vec<GraphEdge> = Vec::new();
        let mut m: usize = 0;
        while m < self.links.len()
            invariant
                m <= self.links@.len(),
                forall|k: int|
                    0 <= k < kept@.len() ==> (#[trigger] kept@[k]).source@ != note_id@
                        && exists|m0: int|
                        0 <= m0 < m && edge_view(&self.links@[m0]) == edge_view(&kept@[k]),
                forall|m0: int|
                    0 <= m0 < m && (#[trigger] self.links@[m0]).source@ != note_id@
                        ==> exists|k: int|
                        0 <= k < kept@.len() && edge_view(&kept@[k]) == edge_view(
                            &self.links@[m0],
                        ),
            decreases self.links@.len() - m,
        {
            let keep_it = !str_eq(self.links[m].source.as_str(), note_id);
            if keep_it {
                let e = &self.links[m];
                let copy = GraphEdge {
                    source: e.source.clone(),
                    target: e.target.clone(),
                    link_type: e.link_type.clone(),
                };
                let ghost prev = kept@;
                proof {
                    assert(edge_view(&copy) == edge_view(&self.links@[m as int]));
                }
                kept.push(copy);
                proof {
                    assert forall|k: int|
                        0 <= k < kept@.len() implies (#[trigger] kept@[k]).source@ != note_id@
                            && exists|m0: int|
                            0 <= m0 < m + 1 && edge_view(&self.links@[m0]) == edge_view(
                                &kept@[k],
                            ) by {
                        if k < prev.len() {
                            assert(kept@[k] == prev[k]);
                            let m0 = choose|m0: int|
                                0 <= m0 < m && edge_view(&self.links@[m0]) == edge_view(
                                    &prev[k],
                                );
                            assert(edge_view(&self.links@[m0]) == edge_view(&kept@[k]));
                        } else {
                            assert(edge_view(&self.links@[m as int]) == edge_view(&kept@[k]));
                        }
                    }
                    assert forall|m0: int|
                        0 <= m0 < m + 1 && (#[trigger] self.links@[m0]).source@ != note_id@
                            implies exists|k: int|
                        0 <= k < kept@.len() && edge_view(&kept@[k]) == edge_view(
                            &self.links@[m0],
                        ) by {
                        if m0 < m {
                            let k0 = choose|k0: int|
                                0 <= k0 < prev.len() && edge_view(&prev[k0]) == edge_view(
                                    &self.links@[m0],
                                );
                            assert(edge_view(&kept@[k0]) == edge_view(&self.links@[m0]));
                        } else {
                            assert(edge_view(&kept@[kept@.len() - 1]) == edge_view(
                                &self.links@[m0],
                            ));
                        }
                    }
                }
            }
            m = m + 1;
        }
        let titles = scan_wiki_titles(content);
        let ghost old_links = self.links@;
        let ghost kept0 = kept@;
        let ghost notes_before = self.view_notes();
        let ghost title_views = crate::note::str_views(titles@);
        let mut added: Vec<GraphEdge> = Vec::new();
        let mut t: usize = 0;
        while t < titles.len()
            invariant
                t <= titles@.len(),
                old_links == self.links@,
                title_views == crate::note::str_views(titles@),
                title_views == wiki_titles(content@, 0),
                notes_before == self.view_notes(),
                forall|j: int|
                    0 <= j < titles@.len() ==> (#[trigger] titles@[j])@ == title_views[j],
                forall|k: int|
                    0 <= k < added@.len() ==> (#[trigger] added@[k]).source@ == note_id@
                        && added@[k].link_type@ == "wiki_link"@ && added@[k].target@
                        != note_id@ && exists|t0: int|
                        0 <= t0 < t && resolve_title_spec(notes_before, title_views[t0])
                            == Some(added@[k].target@),
                forall|t0: int|
                    0 <= t0 < t && (match resolve_title_spec(
                        notes_before,
                        #[trigger] title_views[t0],
                    ) {
                        Option::Some(tid) => tid != note_id@,
                        Option::None => false,
                    }) ==> exists|k: int|
                        0 <= k < added@.len() && (#[trigger] added@[k]).target@
                            == resolve_title_spec(notes_before, title_views[t0])->0,
                forall|k1: int, k2: int|
                    0 <= k1 < k2 < added@.len() ==> (#[trigger] added@[k1]).target@ != (
                    #[trigger] added@[k2]).target@,
            decreases titles@.len() - t,
        {
            let resolved = self.resolve_title(titles[t].as_str());
            proof {
                assert(titles@[t as int]@ == title_views[t as int]);
            }
            match resolved {
                Option::Some(tid) => {
                    if !str_eq(tid.as_str(), note_id) {
                        // skip a target already recorded
                        let mut dup: bool = false;
                        let mut k: usize = 0;
                        while k < added.len()
                            invariant
                                k <= added@.len(),
                                dup == exists|k0: int|
                                    0 <= k0 < k && (#[trigger] added@[k0]).target@ == tid@,
                            decreases added@.len() - k,
                        {
                            if str_eq(added[k].target.as_str(), tid.as_str()) {
                                proof {
                                    assert(added@[k as int].target@ == tid@);
                                }
                                dup = true;
                            }
                            k = k + 1;
                        }
                        if !dup {
                            let ghost tid_v = tid@;
                            let e = GraphEdge {
                                source: String::from_str(note_id),
                                target: tid,
                                link_type: String::from_str("wiki_link"),
                            };
                            let ghost prev = added@;
                            added.push(e);
                            proof {
                                assert(added@[added@.len() - 1].target@ == tid_v);
                                assert(resolve_title_spec(notes_before, title_views[t as int])
                                    == Some(tid_v));
                                assert forall|k: int|
                                    0 <= k < added@.len() implies (#[trigger] added@[
                                    k
                                ]).source@ == note_id@ && added@[k].link_type@ == "wiki_link"@
                                    && added@[k].target@ != note_id@ && exists|t0: int|
                                    0 <= t0 < t + 1 && resolve_title_spec(
                                        notes_before,
                                        title_views[t0],
                                    ) == Some(added@[k].target@) by {
                                    if k < prev.len() {
                                        assert(added@[k] == prev[k]);
                                        let t0 = choose|t0: int|
                                            0 <= t0 < t && resolve_title_spec(
                                                notes_before,
                                                title_views[t0],
                                            ) == Some(prev[k].target@);
                                        assert(0 <= t0 < t + 1 && resolve_title_spec(
                                            notes_before,
                                            title_views[t0],
                                        ) == Some(added@[k].target@));
                                    } else {
                                        let t0 = t as int;
                                        assert(0 <= t0 < t + 1 && resolve_title_spec(
                                            notes_before,
                                            title_views[t0],
                                        ) == Some(added@[k].target@));
                                    }
                                }
                                assert forall|k1: int, k2: int|
                                    0 <= k1 < k2 < added@.len() implies (
                                #[trigger] added@[k1]).target@ != (#[trigger] added@[
                                    k2
                                ]).target@ by {
                                    if k2 == added@.len() - 1 {
                                        assert(added@[k1] == prev[k1]);
                                        if prev[k1].target@ == tid_v {
                                            assert(false);
                                        }
                                    } else {
                                        assert(added@[k1] == prev[k1] && added@[k2] == prev[
                                            k2
                                        ]);
                                    }
                                }
                                assert forall|t0: int|
                                    0 <= t0 < t + 1 && (match resolve_title_spec(
                                        notes_before,
                                        #[trigger] title_views[t0],
                                    ) {
                                        Option::Some(tid0) => tid0 != note_id@,
                                        Option::None => false,
                                    }) implies exists|k: int|
                                    0 <= k < added@.len() && (#[trigger] added@[k]).target@
                                        == resolve_title_spec(
                                        notes_before,
                                        title_views[t0],
                                    )->0 by {
                                    if t0 < t {
                                        let k0 = choose|k0: int|
                                            0 <= k0 < prev.len() && (#[trigger] prev[
                                                k0
                                            ]).target@ == resolve_title_spec(
                                                notes_before,
                                                title_views[t0],
                                            )->0;
                                        assert(added@[k0] == prev[k0]);
                                    } else {
                                        assert(added@[added@.len() - 1].target@
                                            == resolve_title_spec(
                                            notes_before,
                                            title_views[t0],
                                        )->0);
                                    }
                                }
                            }
                        } else {
                            proof {
                                let k0 = choose|k0: int|
                                    0 <= k0 < added@.len() && (#[trigger] added@[k0]).target@
                                        == tid@;
                                assert(added@[k0].target@ == resolve_title_spec(
                                    notes_before,
                                    title_views[t as int],
                                )->0);
                                assert forall|t0: int|
                                    0 <= t0 < t + 1 && (match resolve_title_spec(
                                        notes_before,
                                        #[trigger] title_views[t0],
                                    ) {
                                        Option::Some(tid0) => tid0 != note_id@,
                                        Option::None => false,
                                    }) implies exists|k: int|
                                    0 <= k < added@.len() && (#[trigger] added@[k]).target@
                                        == resolve_title_spec(
                                        notes_before,
                                        title_views[t0],
                                    )->0 by {
                                    if t0 == t {
                                        assert(added@[k0].target@ == resolve_title_spec(
                                            notes_before,
                                            title_views[t0],
                                        )->0);
                                    }
                                }
                            }
                            proof {
                                let ghost cur = added@;
                                assert forall|k: int|
                                    0 <= k < cur.len() implies exists|t0: int|
                                    0 <= t0 < t + 1 && resolve_title_spec(
                                        notes_before,
                                        title_views[t0],
                                    ) == Some((#[trigger] cur[k]).target@) by {
                                    let t0 = choose|t0: int|
                                        0 <= t0 < t && resolve_title_spec(
                                            notes_before,
                                            title_views[t0],
                                        ) == Some(cur[k].target@);
                                    assert(0 <= t0 < t + 1);
                                }
                            }
                        }
                    } else {
                        proof {
                        let ghost cur = added@;
                        assert forall|k: int|
                            0 <= k < cur.len() implies exists|t0: int|
                            0 <= t0 < t + 1 && resolve_title_spec(
                                notes_before,
                                title_views[t0],
                            ) == Some((#[trigger] cur[k]).target@) by {
                            let t0 = choose|t0: int|
                                0 <= t0 < t && resolve_title_spec(
                                    notes_before,
                                    title_views[t0],
                                ) == Some(cur[k].target@);
                            assert(0 <= t0 < t + 1);
                        }
                        }
                    }
                }
                Option::None => {
                    proof {
                    let ghost cur = added@;
                    assert forall|k: int|
                        0 <= k < cur.len() implies exists|t0: int|
                        0 <= t0 < t + 1 && resolve_title_spec(
                            notes_before,
                            title_views[t0],
                        ) == Some((#[trigger] cur[k]).target@) by {
                        let t0 = choose|t0: int|
                            0 <= t0 < t && resolve_title_spec(
                                notes_before,
                                title_views[t0],
                            ) == Some(cur[k].target@);
                        assert(0 <= t0 < t + 1);
                    }
                    }
                }
            }
            t = t + 1;
        }
        let mut j: usize = 0;
        let ghost added_all = added@;
        while j < added.len()
            invariant
                j <= added@.len(),
                added@ == added_all,
                kept@ == kept0 + added_all.subrange(0, j as int),
            decreases added@.len() - j,
        {
            let e = &added[j];
            let copy = GraphEdge {
                source: e.source.clone(),
                target: e.target.clone(),
                link_type: e.link_type.clone(),
            };
            proof {
                assert(copy == added_all[j as int]);
            }
            let ghost prevk = kept@;
            kept.push(copy);
            j = j + 1;
            proof {
                assert(added_all.subrange(0, j as int) =~= added_all.subrange(0, j - 1)
                    + seq![added_all[j - 1]]);
                assert(kept@ =~= kept0 + added_all.subrange(0, j as int));
            }
        }
        self.links = kept;
        proof {
            let fl = self.links@;
            let base = kept0.len() as int;
            assert(added_all.subrange(0, added_all.len() as int) =~= added_all);
            assert(fl == kept0 + added_all);
            assert forall|k: int|
                0 <= k < fl.len() && (#[trigger] fl[k]).source@ != note_id@ implies exists|
                m0: int|
                0 <= m0 < old_links.len() && edge_view(&old_links[m0]) == edge_view(&fl[k]) by {
                if k < base {
                    assert(fl[k] == kept0[k]);
                } else {
                    assert(fl[k] == added_all[k - base]);
                    assert(fl[k].source@ == note_id@);
                }
            }
            assert forall|m0: int|
                0 <= m0 < old_links.len() && (#[trigger] old_links[m0]).source@ != note_id@
                    implies exists|k: int|
                0 <= k < fl.len() && edge_view(&fl[k]) == edge_view(&old_links[m0]) by {
                let k0 = choose|k0: int|
                    0 <= k0 < kept0.len() && edge_view(&kept0[k0]) == edge_view(&old_links[m0]);
                assert(fl[k0] == kept0[k0]);
                assert(edge_view(&fl[k0]) == edge_view(&old_links[m0]));
            }
            assert forall|k: int|
                0 <= k < fl.len() && (#[trigger] fl[k]).source@ == note_id@ implies fl[
                k
            ].link_type@ == "wiki_link"@ && fl[k].target@ != note_id@ && exists|t0: int|
                0 <= t0 < wiki_titles(content@, 0).len() && resolve_title_spec(
                    old(self).view_notes(),
                    wiki_titles(content@, 0)[t0],
                ) == Some(fl[k].target@) by {
                if k < base {
                    assert(fl[k] == kept0[k]);
                    assert(false);
                } else {
                    assert(fl[k] == added_all[k - base]);
                }
            }
            assert forall|t0: int|
                0 <= t0 < wiki_titles(content@, 0).len() && (match resolve_title_spec(
                    old(self).view_notes(),
                    #[trigger] wiki_titles(content@, 0)[t0],
                ) {
                    Option::Some(tid) => tid != note_id@,
                    Option::None => false,
                }) implies exists|k: int|
                0 <= k < fl.len() && (#[trigger] fl[k]).source@ == note_id@ && fl[k].target@
                    == resolve_title_spec(
                    old(self).view_notes(),
                    wiki_titles(content@, 0)[t0],
                )->0 by {
                let k0 = choose|k0: int|
                    0 <= k0 < added_all.len() && (#[trigger] added_all[k0]).target@
                        == resolve_title_spec(notes_before, title_views[t0])->0;
                assert(fl[base + k0] == added_all[k0]);
                assert(fl[base + k0].source@ == note_id@);
            }
            assert forall|k1: int, k2: int|
                0 <= k1 < k2 < fl.len() && (#[trigger] fl[k1]).source@ == note_id@ && (
            #[trigger] fl[k2]).source@ == note_id@ implies fl[k1].target@ != fl[k2].target@ by {
                if k1 < base {
                    assert(fl[k1] == kept0[k1]);
                    assert(false);
                } else {
                    assert(fl[k1] == added_all[k1 - base]);
                    assert(fl[k2] == added_all[k2 - base]);
                }
            }
        }
    }
}


impl Catalog {
    /// Move the note with this id to a new editorial state. The call
    /// succeeds exactly when the note exists and (current, new) is one of
    /// the allowed transitions: draft to review, review to published,
    /// review to draft, published to review.
    pub fn set_note_state(&mut self, id: &str, state: &str, now: &str) -> (r: Result<
        Note,
        crate::Error,
    >)
        requires
            old(self).wf(),
        ensures
            final(self).wf(),
            final(self).tag_defs@ == old(self).tag_defs@,
            final(self).links@ == old(self).links@,
            final(self).activity@ == old(self).activity@,
            final(self).settings@ == old(self).settings@,
            (catalog_get(old(self).view_notes(), id@) is Some && crate::note::valid_transition(
                (catalog_get(old(self).view_notes(), id@)->0).state,
                state@,
            )) ==> r is Ok,
            match r {
                Result::Ok(n) => {
                    &&& catalog_get(old(self).view_notes(), id@) is Some
                    &&& crate::note::valid_transition(
                        (catalog_get(old(self).view_notes(), id@)->0).state,
                        state@,
                    )
                    &&& n@ == NoteView {
                        state: state@,
                        updated_at: now@,
                        ..catalog_get(old(self).view_notes(), id@)->0
                    }
                    &&& forall|q: Seq<char>|
                        #[trigger] catalog_get(final(self).view_notes(), q) == (if q == id@ {
                            Some(n@)
                        } else {
                            catalog_get(old(self).view_notes(), q)
                        })
                },
                Result::Err(e) => {
                    &&& final(self).view_notes() == old(self).view_notes()
                    &&& (e.kind == crate::ErrorKind::NotFound <==> catalog_get(
                        old(self).view_notes(),
                        id@,
                    ) is None)
                    &&& (e.kind == crate::ErrorKind::Malformed <==> (catalog_get(
                        old(self).view_notes(),
                        id@,
                    ) is Some && !crate::note::valid_transition(
                        (catalog_get(old(self).view_notes(), id@)->0).state,
                        state@,
                    )))
                },
            },
    {
        let found = self.find_note(id);
        let ghost pre = self.view_notes();
        match found {
            Option::Some(i) => {
                proof {
                    self.lemma_found(id@, i as int);
                }
                if !crate::note::is_valid_transition(self.notes[i].state.as_str(), state) {
                    return Err(
                        crate::Error::new(
                            crate::ErrorKind::Malformed,
                            String::from_str("invalid state transition"),
                        ),
                    );
                }
                let mut n = self.notes[i].clone();
                n.state = String::from_str(state);
                n.updated_at = String::from_str(now);
                let reply = n.clone();
                self.notes.set(i, n);
                proof {
                    assert forall|q: Seq<char>|
                        #[trigger] catalog_get(self.view_notes(), q) == (if q == id@ {
                            Some(reply@)
                        } else {
                            catalog_get(pre, q)
                        }) by {
                        lemma_catalog_get_update(pre, self.view_notes(), i as int, q);
                    }
                }
                Ok(reply)
            }
            Option::None => {
                proof {
                    self.lemma_not_found(id@);
                }
                Err(
                    crate::Error::new(
                        crate::ErrorKind::NotFound,
                        String::from_str("note not found"),
                    ),
                )
            }
        }
    }
}

} // verus!
