//! The vault: the directory of `<id>.md` files, modelled as a list of
//! named files. Placeholder stubs left by the cloud-sync daemon (hidden
//! names ending in `.icloud`) are never listed and never parsed.
use vstd::prelude::*;
use crate::codec::{parse_spec, FmView};
use crate::note::{
    plain_field, str_views, word_count_spec, Note, NoteView,
};
use crate::tags::{is_tag_of, strip_fences};
use crate::text::{starts_with, str_eq, to_char_vec, from_char_vec};

verus! {

/// Availability of the vault directory on the host.
#[derive(Debug, Clone)]
pub struct ICloudStatus {
    pub available: bool,
    pub directory: String,
    pub writable: bool,
    pub error: Option<String>,
}

/// A hidden placeholder stub produced by the cloud daemon: the leaf name
/// starts with `.` and ends with `.icloud`.
pub open spec fn is_placeholder_name(name: Seq<char>) -> bool {
    name.len() > 0 && name[0] == '.' && name.len() >= 7 && name.subrange(
        name.len() - 7,
        name.len() as int,
    ) == ".icloud"@
}

/// A name the vault enumerates: not hidden, with the extension `md`.
pub open spec fn is_markdown_name(name: Seq<char>) -> bool {
    name.len() >= 4 && name[0] != '.' && name.subrange(name.len() - 3, name.len() as int)
        == ".md"@
}

/// An enumerated name is never a placeholder: enumeration skips every
/// hidden file, and placeholders are hidden.
pub proof fn lemma_markdown_never_placeholder(name: Seq<char>)
    ensures
        is_markdown_name(name) ==> !is_placeholder_name(name),
{
}

/// Check whether a leaf name is a cloud placeholder stub.
pub fn is_icloud_placeholder(name: &str) -> (r: bool)
    ensures
        r == is_placeholder_name(name@),
{
    let v = to_char_vec(name);
    let n: usize = v.len();
    if n == 0 || v[0] != '.' || n < 7 {
        return false;
    }
    let suffix = crate::text::slice_chars(&v, n - 7, n);
    let sfx = from_char_vec(&suffix);
    str_eq(sfx.as_str(), ".icloud")
}

/// Check whether a leaf name is one the vault enumerates.
pub fn is_markdown_leaf(name: &str) -> (r: bool)
    ensures
        r == is_markdown_name(name@),
{
    let v = to_char_vec(name);
    let n: usize = v.len();
    if n < 4 || v[0] == '.' {
        return false;
    }
    let suffix = crate::text::slice_chars(&v, n - 3, n);
    let sfx = from_char_vec(&suffix);
    str_eq(sfx.as_str(), ".md")
}

/// The file name of a note: its identifier with the `md` extension.
pub fn md_file_name(id: &str) -> (r: String)
    ensures
        r@ == id@ + ".md"@,
{
    let mut out = String::from_str(id);
    out.append(".md");
    out
}

/// One file of the vault directory.
#[derive(Debug)]
pub struct VaultFile {
    pub name: String,
    pub text: String,
}

/// The mathematical view of a vault file.
pub ghost struct VaultFileView {
    pub name: Seq<char>,
    pub text: Seq<char>,
}

impl View for VaultFile {
    type V = VaultFileView;

    open spec fn view(&self) -> VaultFileView {
        VaultFileView { name: self.name@, text: self.text@ }
    }
}

pub open spec fn vault_views(files: Seq<VaultFile>) -> Seq<VaultFileView> {
    files.map_values(|f: VaultFile| f@)
}

/// The vault directory: files with unique names.
#[derive(Debug)]
pub struct Vault {
    pub files: Vec<VaultFile>,
}

/// The text of the file named `name`, if present.
pub open spec fn vault_get(files: Seq<VaultFileView>, name: Seq<char>) -> Option<Seq<char>>
    decreases files.len(),
{
    if files.len() == 0 {
        None
    } else if files[0].name == name {
        Some(files[0].text)
    } else {
        vault_get(files.subrange(1, files.len() as int), name)
    }
}

impl Vault {
    /// File names are unique.
    pub open spec fn wf(&self) -> bool {
        forall|i: int, j: int|
            0 <= i < j < self.files@.len() ==> (#[trigger] self.files@[i])@.name
                != (#[trigger] self.files@[j])@.name
    }

    pub open spec fn view_files(&self) -> Seq<VaultFileView> {
        vault_views(self.files@)
    }

    pub fn new() -> (r: Vault)
        ensures
            r.wf(),
            r.view_files().len() == 0,
    {
        Vault { files: Vec::new() }
    }

    /// The index of the file named `name`.
    fn find(&self, name: &str) -> (r: Option<usize>)
        ensures
            match r {
                Option::Some(i) => i < self.files@.len() && self.files@[i as int]@.name
                    == name@,
                Option::None => forall|i: int|
                    0 <= i < self.files@.len() ==> (#[trigger] self.files@[i])@.name != name@,
            },
    {
        let mut i: usize = 0;
        while i < self.files.len()
            invariant
                i <= self.files@.len(),
                forall|j: int|
                    0 <= j < i ==> (#[trigger] self.files@[j])@.name != name@,
            decreases self.files@.len() - i,
        {
            if str_eq(self.files[i].name.as_str(), name) {
                return Some(i);
            }
            i = i + 1;
        }
        None
    }

    /// The text of the file named `name`, if present.
    pub fn read(&self, name: &str) -> (r: Option<String>)
        requires
            self.wf(),
        ensures
            match r {
                Option::Some(t) => vault_get(self.view_files(), name@) == Some(t@),
                Option::None => vault_get(self.view_files(), name@) is None,
            },
    {
        let found = self.find(name);
        match found {
            Option::Some(i) => {
                proof {
                    lemma_vault_get_index(self.view_files(), name@);
                    if vault_get(self.view_files(), name@) is None {
                        assert(self.view_files()[i as int].name != name@);
                    }
                    let t = vault_get(self.view_files(), name@)->0;
                    let i2 = choose|i2: int|
                        0 <= i2 < self.view_files().len() && (#[trigger] self.view_files()[
                            i2
                        ]).name == name@ && self.view_files()[i2].text == t;
                    if i2 != i as int {
                        assert(self.files@[i2]@.name == self.files@[i as int]@.name);
                        assert(false);
                    }
                    assert(self.files@[i as int]@.text == t);
                }
                Some(self.files[i].text.clone())
            }
            Option::None => {
                proof {
                    lemma_vault_get_index(self.view_files(), name@);
                    if vault_get(self.view_files(), name@) is Some {
                        let t = vault_get(self.view_files(), name@)->0;
                        let i2 = choose|i2: int|
                            0 <= i2 < self.view_files().len() && (#[trigger] self.view_files()[
                                i2
                            ]).name == name@ && self.view_files()[i2].text == t;
                        assert(self.files@[i2]@.name == name@);
                        assert(false);
                    }
                }
                None
            }
        }
    }

    /// Write (create or overwrite) the file named `name`.
    pub fn write(&mut self, name: String, text: String)
        requires
            old(self).wf(),
        ensures
            final(self).wf(),
            forall|q: Seq<char>|
                #[trigger] vault_get(final(self).view_files(), q) == (if q == name@ {
                    Some(text@)
                } else {
                    vault_get(old(self).view_files(), q)
                }),
            final(self).view_files().len() <= old(self).view_files().len() + 1,
    {
        let found = self.find(name.as_str());
        let ghost pre = self.view_files();
        match found {
            Option::Some(i) => {
                let f = VaultFile { name, text };
                self.files.set(i, f);
                proof {
                    assert forall|q: Seq<char>|
                        #[trigger] vault_get(self.view_files(), q) == (if q == pre[i as int].name {
                            Some(self.view_files()[i as int].text)
                        } else {
                            vault_get(pre, q)
                        }) by {
                        lemma_vault_get_update(pre, self.view_files(), i as int, q);
                    }
                }
            }
            Option::None => {
                let f = VaultFile { name, text };
                self.files.push(f);
                proof {
                    assert forall|q: Seq<char>|
                        #[trigger] vault_get(self.view_files(), q) == (if q == self.view_files()[
                            self.view_files().len() - 1
                        ].name {
                            Some(self.view_files()[self.view_files().len() - 1].text)
                        } else {
                            vault_get(pre, q)
                        }) by {
                        lemma_vault_get_push(pre, self.view_files(), q);
                    }
                }
            }
        }
    }

    /// Remove the file named `name`; absent files are left alone.
    pub fn remove(&mut self, name: &str)
        requires
            old(self).wf(),
        ensures
            final(self).wf(),
            forall|q: Seq<char>|
                #[trigger] vault_get(final(self).view_files(), q) == (if q == name@ {
                    None::<Seq<char>>
                } else {
                    vault_get(old(self).view_files(), q)
                }),
    {
        let found = self.find(name);
        let ghost pre = self.view_files();
        match found {
            Option::Some(i) => {
                self.files.remove(i);
                proof {
                    assert forall|q: Seq<char>|
                        #[trigger] vault_get(self.view_files(), q) == (if q == name@ {
                            None::<Seq<char>>
                        } else {
                            vault_get(pre, q)
                        }) by {
                        lemma_vault_get_remove(pre, self.view_files(), i as int, q);
                    }
                }
            }
            Option::None => {
                proof {
                    assert forall|q: Seq<char>|
                        #[trigger] vault_get(self.view_files(), q) == (if q == name@ {
                            None::<Seq<char>>
                        } else {
                            vault_get(pre, q)
                        }) by {
                        lemma_vault_get_index(pre, q);
                        if q == name@ {
                            if vault_get(pre, q) is Some {
                            }
                        }
                    }
                }
            }
        }
    }

    /// The names of the enumerated files: extension exactly `md`, hidden
    /// names skipped — so no placeholder is ever opened.
    pub fn list_markdown(&self) -> (r: Vec<String>)
        requires
            self.wf(),
        ensures
            crate::note::str_views(r@) == md_names(
                self.view_files(),
                self.view_files().len() as int,
            ),
    {
        let mut out: Vec<String> = Vec::new();
        let mut i: usize = 0;
        proof {
            assert(crate::note::str_views(out@) =~= md_names(self.view_files(), 0));
        }
        while i < self.files.len()
            invariant
                self.wf(),
                i <= self.files@.len(),
                crate::note::str_views(out@) == md_names(self.view_files(), i as int),
            decreases self.files@.len() - i,
        {
            let ghost prev = out@;
            let is_md = is_markdown_leaf(self.files[i].name.as_str());
            if is_md {
                out.push(self.files[i].name.clone());
            }
            proof {
                if is_md {
                    assert(crate::note::str_views(out@) =~= crate::note::str_views(prev)
                        + seq![self.view_files()[i as int].name]);
                } else {
                    assert(crate::note::str_views(out@) =~= md_names(
                        self.view_files(),
                        i as int,
                    ) + Seq::<Seq<char>>::empty());
                }
                assert(crate::note::str_views(out@) =~= md_names(self.view_files(), i + 1));
            }
            i = i + 1;
        }
        out
    }
}

/// The names of the markdown files among the first `i` files, in order.
pub open spec fn md_names(files: Seq<VaultFileView>, i: int) -> Seq<Seq<char>>
    decreases i,
{
    if i <= 0 {
        Seq::empty()
    } else {
        md_names(files, i - 1) + (if is_markdown_name(files[i - 1].name) {
            seq![files[i - 1].name]
        } else {
            Seq::empty()
        })
    }
}

/// What the enumerated names are: exactly the markdown names of the
/// files, each once, never hidden and never a placeholder.
pub proof fn lemma_md_names(files: Seq<VaultFileView>, i: int)
    requires
        0 <= i <= files.len(),
    ensures
        forall|k: int|
            0 <= k < md_names(files, i).len() ==> is_markdown_name(
                #[trigger] md_names(files, i)[k],
            ) && !is_placeholder_name(md_names(files, i)[k]) && exists|j: int|
                0 <= j < i && files[j].name == md_names(files, i)[k],
        forall|j: int|
            0 <= j < i && is_markdown_name((#[trigger] files[j]).name) ==> exists|k: int|
                0 <= k < md_names(files, i).len() && md_names(files, i)[k] == files[j].name,
    decreases i,
{
    if i > 0 {
        lemma_md_names(files, i - 1);
        let cur = md_names(files, i);
        let pre = md_names(files, i - 1);
        assert forall|k: int|
            0 <= k < cur.len() implies is_markdown_name(#[trigger] cur[k])
                && !is_placeholder_name(cur[k]) && exists|j: int|
                0 <= j < i && files[j].name == cur[k] by {
            if k < pre.len() {
                assert(cur[k] == pre[k]);
                let j0 = choose|j0: int| 0 <= j0 < i - 1 && files[j0].name == pre[k];
                assert(0 <= j0 < i && files[j0].name == cur[k]);
            } else {
                assert(is_markdown_name(files[i - 1].name));
                assert(cur[k] == files[i - 1].name);
                assert(0 <= i - 1 < i && files[i - 1].name == cur[k]);
            }
        }
        assert forall|j: int|
            0 <= j < i && is_markdown_name((#[trigger] files[j]).name) implies exists|k: int|
            0 <= k < cur.len() && cur[k] == files[j].name by {
            if j < i - 1 {
                let k0 = choose|k0: int| 0 <= k0 < pre.len() && pre[k0] == files[j].name;
                assert(cur[k0] == files[j].name);
            } else {
                assert(cur[cur.len() - 1] == files[i - 1].name);
            }
        }
    }
}

/// `vault_get` answers for a name exactly when some file carries it, and
/// then with that file's text.
pub proof fn lemma_vault_get_index(files: Seq<VaultFileView>, name: Seq<char>)
    ensures
        match vault_get(files, name) {
            Option::Some(t) => exists|i: int|
                0 <= i < files.len() && (#[trigger] files[i]).name == name && files[i].text
                    == t,
            Option::None => forall|i: int|
                0 <= i < files.len() ==> (#[trigger] files[i]).name != name,
        },
    decreases files.len(),
{
    if files.len() == 0 {
    } else if files[0].name == name {
    } else {
        lemma_vault_get_index(files.subrange(1, files.len() as int), name);
        match vault_get(files, name) {
            Option::Some(t) => {
                let i = choose|i: int|
                    0 <= i < files.subrange(1, files.len() as int).len() && (
                    #[trigger] files.subrange(1, files.len() as int)[i]).name == name
                        && files.subrange(1, files.len() as int)[i].text == t;
                assert(files[i + 1].name == name && files[i + 1].text == t);
            }
            Option::None => {
                assert forall|i: int| 0 <= i < files.len() implies (#[trigger] files[i]).name
                    != name by {
                    if i > 0 {
                        assert(files.subrange(1, files.len() as int)[i - 1] == files[i]);
                    }
                }
            }
        }
    }
}

/// Replacing the file at `i` (same name) changes only that name's answer.
proof fn lemma_vault_get_update(
    pre: Seq<VaultFileView>,
    post: Seq<VaultFileView>,
    i: int,
    q: Seq<char>,
)
    requires
        0 <= i < pre.len(),
        post.len() == pre.len(),
        post[i].name == pre[i].name,
        forall|j: int| 0 <= j < pre.len() && j != i ==> post[j] == pre[j],
        forall|a: int, b: int|
            0 <= a < b < pre.len() ==> (#[trigger] pre[a]).name != (#[trigger] pre[b]).name,
    ensures
        vault_get(post, q) == (if q == pre[i].name {
            Some(post[i].text)
        } else {
            vault_get(pre, q)
        }),
    decreases pre.len(),
{
    if pre.len() == 0 {
    } else if i == 0 {
        if q == pre[0].name {
        } else {
            assert(post.subrange(1, post.len() as int) =~= pre.subrange(1, pre.len() as int));
        }
    } else {
        assert(post[0] == pre[0]);
        if q == pre[0].name {
        } else {
            assert forall|a: int, b: int|
                0 <= a < b < pre.subrange(1, pre.len() as int).len() implies (
            #[trigger] pre.subrange(1, pre.len() as int)[a]).name != (#[trigger] pre.subrange(
                1,
                pre.len() as int,
            )[b]).name by {
                assert(pre.subrange(1, pre.len() as int)[a] == pre[a + 1]);
                assert(pre.subrange(1, pre.len() as int)[b] == pre[b + 1]);
            }
            assert(post.subrange(1, post.len() as int)[i - 1].name == pre.subrange(
                1,
                pre.len() as int,
            )[i - 1].name);
            assert forall|j: int|
                0 <= j < pre.subrange(1, pre.len() as int).len() && j != i - 1 implies
                post.subrange(1, post.len() as int)[j] == pre.subrange(1, pre.len() as int)[j]
                by {
                assert(post.subrange(1, post.len() as int)[j] == post[j + 1]);
                assert(pre.subrange(1, pre.len() as int)[j] == pre[j + 1]);
            }
            lemma_vault_get_update(
                pre.subrange(1, pre.len() as int),
                post.subrange(1, post.len() as int),
                i - 1,
                q,
            );
            assert(pre.subrange(1, pre.len() as int)[i - 1] == pre[i]);
            assert(post.subrange(1, post.len() as int)[i - 1] == post[i]);
        }
    }
}

/// Appending a file with a fresh name adds only that name's answer.
proof fn lemma_vault_get_push(pre: Seq<VaultFileView>, post: Seq<VaultFileView>, q: Seq<char>)
    requires
        post.len() == pre.len() + 1,
        forall|j: int| 0 <= j < pre.len() ==> post[j] == pre[j],
        forall|j: int| 0 <= j < pre.len() ==> (#[trigger] pre[j]).name != post[post.len()
            - 1].name,
    ensures
        vault_get(post, q) == (if q == post[post.len() - 1].name {
            Some(post[post.len() - 1].text)
        } else {
            vault_get(pre, q)
        }),
    decreases pre.len(),
{
    if pre.len() == 0 {
        assert(post.subrange(1, post.len() as int) =~= Seq::<VaultFileView>::empty());
    } else {
        assert(post[0] == pre[0]);
        if q == pre[0].name {
        } else {
            assert forall|j: int|
                0 <= j < pre.subrange(1, pre.len() as int).len() implies post.subrange(
                1,
                post.len() as int,
            )[j] == pre.subrange(1, pre.len() as int)[j] by {
                assert(post.subrange(1, post.len() as int)[j] == post[j + 1]);
                assert(pre.subrange(1, pre.len() as int)[j] == pre[j + 1]);
            }
            assert(post.subrange(1, post.len() as int)[post.len() - 2] == post[post.len()
                - 1]);
            assert forall|j: int|
                0 <= j < pre.subrange(1, pre.len() as int).len() implies (
            #[trigger] pre.subrange(1, pre.len() as int)[j]).name != post[post.len() - 1].name
                by {
                assert(pre.subrange(1, pre.len() as int)[j] == pre[j + 1]);
            }
            lemma_vault_get_push(
                pre.subrange(1, pre.len() as int),
                post.subrange(1, post.len() as int),
                q,
            );
        }
    }
}

/// Removing the file at `i` clears only that name's answer.
proof fn lemma_vault_get_remove(
    pre: Seq<VaultFileView>,
    post: Seq<VaultFileView>,
    i: int,
    q: Seq<char>,
)
    requires
        0 <= i < pre.len(),
        post.len() == pre.len() - 1,
        forall|j: int| 0 <= j < i ==> post[j] == pre[j],
        forall|j: int| i <= j < post.len() ==> post[j] == pre[j + 1],
        forall|a: int, b: int|
            0 <= a < b < pre.len() ==> (#[trigger] pre[a]).name != (#[trigger] pre[b]).name,
    ensures
        vault_get(post, q) == (if q == pre[i].name {
            None::<Seq<char>>
        } else {
            vault_get(pre, q)
        }),
    decreases pre.len(),
{
    lemma_vault_get_index(pre, q);
    lemma_vault_get_index(post, q);
    if q == pre[i].name {
        if vault_get(post, q) is Some {
            let j = choose|j: int|
                0 <= j < post.len() && (#[trigger] post[j]).name == q && post[j].text
                    == vault_get(post, q)->0;
            if j < i {
                assert(pre[j].name == q);
            } else {
                assert(pre[j + 1].name == q);
            }
        }
    } else {
        match vault_get(pre, q) {
            Option::Some(t) => {
                let j = choose|j: int|
                    0 <= j < pre.len() && (#[trigger] pre[j]).name == q && pre[j].text == t;
                assert(j != i);
                if j < i {
                    assert(post[j].name == q && post[j].text == t);
                } else {
                    assert(post[j - 1].name == q && post[j - 1].text == t);
                }
                match vault_get(post, q) {
                    Option::Some(t2) => {
                        let j2 = choose|j2: int|
                            0 <= j2 < post.len() && (#[trigger] post[j2]).name == q
                                && post[j2].text == t2;
                        let pj2: int = if j2 < i {
                            j2
                        } else {
                            j2 + 1
                        };
                        assert(pre[pj2].name == q && pre[pj2].text == t2);
                        if pj2 != j {
                            assert(false);
                        }
                    }
                    Option::None => {
                        assert(false);
                    }
                }
            }
            Option::None => {
                if vault_get(post, q) is Some {
                    let j2 = choose|j2: int|
                        0 <= j2 < post.len() && (#[trigger] post[j2]).name == q && post[
                            j2
                        ].text == vault_get(post, q)->0;
                    if j2 < i {
                        assert(pre[j2].name == q);
                    } else {
                        assert(pre[j2 + 1].name == q);
                    }
                }
            }
        }
    }
}

/// The view-level restatement of name uniqueness.
pub proof fn lemma_wf_unique_names(v: &Vault)
    requires
        v.wf(),
    ensures
        forall|a: int, b: int|
            0 <= a < b < v.view_files().len() ==> (#[trigger] v.view_files()[a]).name != (
            #[trigger] v.view_files()[b]).name,
{
    assert forall|a: int, b: int|
        0 <= a < b < v.view_files().len() implies (#[trigger] v.view_files()[a]).name != (
    #[trigger] v.view_files()[b]).name by {
        assert(v.view_files()[a] == v.files@[a]@);
        assert(v.view_files()[b] == v.files@[b]@);
    }
}

/// With unique names, the file at index `i` is what `vault_get` answers
/// for its name.
pub proof fn lemma_vault_get_of_index(files: Seq<VaultFileView>, i: int)
    requires
        0 <= i < files.len(),
        forall|a: int, b: int|
            0 <= a < b < files.len() ==> (#[trigger] files[a]).name != (#[trigger] files[b]).name,
    ensures
        vault_get(files, files[i].name) == Some(files[i].text),
{
    lemma_vault_get_index(files, files[i].name);
    if vault_get(files, files[i].name) is None {
        assert(files[i].name != files[i].name);
    }
    let t = vault_get(files, files[i].name)->0;
    let i2 = choose|i2: int|
        0 <= i2 < files.len() && (#[trigger] files[i2]).name == files[i].name && files[i2].text
            == t;
    if i2 != i {
        assert(false);
    }
}

/// An identifier the vault can carry as a file: printable, non-empty and
/// not hidden.
pub open spec fn id_ok(id: Seq<char>) -> bool {
    plain_field(id) && id.len() > 0 && id[0] != '.'
}

/// Appending `.md` to distinct identifiers gives distinct names.
pub proof fn lemma_md_suffix_inj(a: Seq<char>, b: Seq<char>)
    requires
        a + ".md"@ == b + ".md"@,
    ensures
        a == b,
{
    reveal_strlit(".md");
    let x = a + ".md"@;
    assert(x.len() == a.len() + 3);
    assert((b + ".md"@).len() == b.len() + 3);
    assert(a.len() == b.len());
    assert forall|k: int| 0 <= k < a.len() implies a[k] == b[k] by {
        assert(x[k] == a[k]);
        assert((b + ".md"@)[k] == b[k]);
    }
    assert(a =~= b);
}

/// The file of a storable identifier is enumerated: not hidden, extension
/// `md`.
pub proof fn lemma_id_ok_md_name(id: Seq<char>)
    requires
        id_ok(id),
    ensures
        is_markdown_name(id + ".md"@),
{
    reveal_strlit(".md");
    let nm = id + ".md"@;
    assert(nm.len() >= 4);
    assert(nm[0] == id[0]);
    assert(nm.subrange(nm.len() - 3, nm.len() as int) =~= ".md"@);
}

/// How the note built from a parsed file relates to the header fields,
/// the body, the file path, the fallback identifier and the import time.
#[verifier::opaque]
pub open spec fn imported_note(
    nv: NoteView,
    fm: FmView,
    body: Seq<char>,
    path: Seq<char>,
    fallback_id: Seq<char>,
    now: Seq<char>,
) -> bool {
    &&& nv.id == (match fm.id {
        Option::Some(i) => i,
        Option::None => fallback_id,
    })
    &&& nv.title == (match fm.title {
        Option::Some(t) => t,
        Option::None => Seq::<char>::empty(),
    })
    &&& nv.content == body
    &&& nv.created_at == (match fm.created_at {
        Option::Some(c) => c,
        Option::None => now,
    })
    &&& nv.updated_at == (match fm.updated_at {
        Option::Some(u) => u,
        Option::None => now,
    })
    &&& nv.is_trashed == false
    &&& nv.is_pinned == fm.is_pinned
    &&& nv.word_count == word_count_spec(body)
    &&& nv.file_path == Some(path)
    &&& nv.sync_hash is None
    &&& nv.tags == (if fm.tags.len() > 0 {
        fm.tags
    } else {
        crate::tags::tag_seq_of(body)
    })
    &&& nv.state == "draft"@
    &&& nv.workspace_id is None
    &&& nv.version == 1
}

/// Build a note from the text of a vault file: header fields when present,
/// defaults otherwise — a fresh identifier, empty title, tags extracted
/// from the body, and the import time for missing timestamps.
pub fn note_from_file(text: &str, path: &str, fallback_id: String, now: &str) -> (r: Result<
    Note,
    crate::Error,
>)
    ensures
        match r {
            Result::Ok(n) => exists|fm: FmView, body: Seq<char>|
                parse_spec(text@) == Some((fm, body)) && imported_note(
                    n@,
                    fm,
                    body,
                    path@,
                    fallback_id@,
                    now@,
                ),
            Result::Err(e) => parse_spec(text@) is None && e.kind
                == crate::ErrorKind::Malformed,
        },
{
    let parsed = crate::codec::parse_frontmatter(text)?;
    let (fm, body) = parsed;
    let ghost fm_v = fm@;
    let ghost body_v = body@;
    let word_count = crate::note::compute_word_count(body.as_str());
    let tags: Vec<String> = if fm.tags.len() > 0 {
        fm.tags
    } else {
        crate::tags::extract_tags(body.as_str())
    };
    let id = match fm.id {
        Option::Some(i) => i,
        Option::None => fallback_id,
    };
    let title = match fm.title {
        Option::Some(t) => t,
        Option::None => String::new(),
    };
    let created_at = match fm.created_at {
        Option::Some(c) => c,
        Option::None => String::from_str(now),
    };
    let updated_at = match fm.updated_at {
        Option::Some(u) => u,
        Option::None => String::from_str(now),
    };
    let n = Note {
        id,
        title,
        content: body,
        created_at,
        updated_at,
        is_trashed: false,
        is_pinned: fm.is_pinned,
        word_count,
        file_path: Some(String::from_str(path)),
        sync_hash: None,
        tags,
        state: String::from_str("draft"),
        workspace_id: None,
        version: 1,
    };
    proof {
        reveal(imported_note);
        assert(parse_spec(text@) == Some((fm_v, body_v)));
        if fm_v.tags.len() > 0 {
            assert(n@.tags =~= fm_v.tags);
        } else {
            assert forall|i: int, j: int|
                0 <= i < j < n@.tags.len() implies crate::text::lex_lt(
                #[trigger] n@.tags[i],
                #[trigger] n@.tags[j],
            ) by {
                assert(n@.tags[i] == tags@[i]@ && n@.tags[j] == tags@[j]@);
            }
            assert forall|t: Seq<char>|
                (exists|k: int| 0 <= k < n@.tags.len() && #[trigger] n@.tags[k] == t)
                    == is_tag_of(strip_fences(body_v), t) by {
                if exists|k: int| 0 <= k < n@.tags.len() && n@.tags[k] == t {
                    let k = choose|k: int| 0 <= k < n@.tags.len() && n@.tags[k] == t;
                    assert(tags@[k]@ == t);
                    assert(crate::tags::str_seq_has(tags@, t));
                }
                if is_tag_of(strip_fences(body_v), t) {
                    assert(crate::tags::str_seq_has(tags@, t));
                    let k = choose|k: int| 0 <= k < tags@.len() && tags@[k]@ == t;
                    assert(n@.tags[k] == t);
                }
            }
            assert forall|t: Seq<char>|
                #[trigger] crate::text::seq_has(n@.tags, t) == is_tag_of(
                strip_fences(body_v),
                t,
            ) by {
                if crate::text::seq_has(n@.tags, t) {
                    let k = choose|k: int| 0 <= k < n@.tags.len() && #[trigger] n@.tags[k] == t;
                    assert(exists|k2: int| 0 <= k2 < n@.tags.len() && n@.tags[k2] == t);
                }
                if is_tag_of(strip_fences(body_v), t) {
                    let k = choose|k: int| 0 <= k < n@.tags.len() && #[trigger] n@.tags[k] == t;
                    assert(crate::text::seq_has(n@.tags, t));
                }
            }
            assert(crate::tags::canonical_tags(n@.tags, body_v));
            crate::tags::lemma_canonical_unique(n@.tags, body_v);
        }
        assert(imported_note(n@, fm_v, body_v, path@, fallback_id@, now@));
    }
    Ok(n)
}

} // verus!
