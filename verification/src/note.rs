//! The note record and its derived quantities: word count, list preview
//! and the editorial state machine.
use vstd::prelude::*;
use crate::text::{is_ws_char, str_eq};

verus! {

/// The primary entity of the catalog.
#[derive(Debug)]
pub struct Note {
    pub id: String,
    pub title: String,
    pub content: String,
    pub created_at: String,
    pub updated_at: String,
    pub is_trashed: bool,
    pub is_pinned: bool,
    pub word_count: u64,
    pub file_path: Option<String>,
    pub sync_hash: Option<String>,
    pub tags: Vec<String>,
    pub state: String,
    pub workspace_id: Option<String>,
    pub version: i32,
}

/// The mathematical view of a note.
pub ghost struct NoteView {
    pub id: Seq<char>,
    pub title: Seq<char>,
    pub content: Seq<char>,
    pub created_at: Seq<char>,
    pub updated_at: Seq<char>,
    pub is_trashed: bool,
    pub is_pinned: bool,
    pub word_count: u64,
    pub file_path: Option<Seq<char>>,
    pub sync_hash: Option<Seq<char>>,
    pub tags: Seq<Seq<char>>,
    pub state: Seq<char>,
    pub workspace_id: Option<Seq<char>>,
    pub version: int,
}

pub open spec fn opt_view(o: Option<String>) -> Option<Seq<char>> {
    match o {
        Option::Some(s) => Some(s@),
        Option::None => None,
    }
}

pub open spec fn str_views(sv: Seq<String>) -> Seq<Seq<char>> {
    sv.map_values(|s: String| s@)
}

impl View for Note {
    type V = NoteView;

    open spec fn view(&self) -> NoteView {
        NoteView {
            id: self.id@,
            title: self.title@,
            content: self.content@,
            created_at: self.created_at@,
            updated_at: self.updated_at@,
            is_trashed: self.is_trashed,
            is_pinned: self.is_pinned,
            word_count: self.word_count,
            file_path: opt_view(self.file_path),
            sync_hash: opt_view(self.sync_hash),
            tags: str_views(self.tags@),
            state: self.state@,
            workspace_id: opt_view(self.workspace_id),
            version: self.version as int,
        }
    }
}

pub fn clone_opt_string(o: &Option<String>) -> (r: Option<String>)
    ensures
        opt_view(r) == opt_view(*o),
{
    match o {
        Option::Some(s) => Some(s.clone()),
        Option::None => None,
    }
}

pub fn clone_string_vec(v: &Vec<String>) -> (r: Vec<String>)
    ensures
        str_views(r@) == str_views(v@),
        r@.len() == v@.len(),
{
    let mut r: Vec<String> = Vec::new();
    let mut i: usize = 0;
    while i < v.len()
        invariant
            i <= v@.len(),
            r@.len() == i,
            forall|j: int| 0 <= j < i ==> r@[j]@ == v@[j]@,
        decreases v@.len() - i,
    {
        r.push(v[i].clone());
        i = i + 1;
    }
    proof {
        assert(str_views(r@) =~= str_views(v@));
    }
    r
}

impl Clone for Note {
    fn clone(&self) -> (r: Note)
        ensures
            r@ == self@,
    {
        let r = Note {
            id: self.id.clone(),
            title: self.title.clone(),
            content: self.content.clone(),
            created_at: self.created_at.clone(),
            updated_at: self.updated_at.clone(),
            is_trashed: self.is_trashed,
            is_pinned: self.is_pinned,
            word_count: self.word_count,
            file_path: clone_opt_string(&self.file_path),
            sync_hash: clone_opt_string(&self.sync_hash),
            tags: clone_string_vec(&self.tags),
            state: self.state.clone(),
            workspace_id: clone_opt_string(&self.workspace_id),
            version: self.version,
        };
        r
    }
}

/// A row of a note listing: the note without its body, plus a preview.
#[derive(Debug)]
pub struct NoteListItem {
    pub id: String,
    pub title: String,
    pub preview: String,
    pub updated_at: String,
    pub is_pinned: bool,
    pub is_trashed: bool,
    pub word_count: u64,
    pub tags: Vec<String>,
    pub state: String,
    pub workspace_id: Option<String>,
}

/// The number of whitespace-separated tokens in `s`: positions where a
/// non-whitespace run begins.
pub open spec fn word_count_from(s: Seq<char>, i: int) -> nat
    decreases s.len() - i,
{
    if i < 0 || i >= s.len() {
        0
    } else if !is_ws_char(s[i]) && (i == 0 || is_ws_char(s[i - 1])) {
        1 + word_count_from(s, i + 1)
    } else {
        word_count_from(s, i + 1)
    }
}

pub open spec fn word_count_spec(s: Seq<char>) -> nat {
    word_count_from(s, 0)
}

proof fn lemma_word_count_from_bound(s: Seq<char>, i: int)
    requires
        0 <= i <= s.len(),
    ensures
        word_count_from(s, i) <= s.len() - i,
    decreases s.len() - i,
{
    if i < s.len() {
        lemma_word_count_from_bound(s, i + 1);
    }
}

/// Count the whitespace-separated tokens of `content`.
pub fn compute_word_count(content: &str) -> (r: u64)
    ensures
        r == word_count_spec(content@),
{
    let v = crate::text::to_char_vec(content);
    let n: usize = v.len();
    proof {
        lemma_word_count_from_bound(v@, 0);
    }
    let mut count: u64 = 0;
    let mut i: usize = 0;
    while i < n
        invariant
            n == v@.len(),
            v@ == content@,
            i <= n,
            count + word_count_from(v@, i as int) == word_count_spec(content@),
            count <= i,
        decreases n - i,
    {
        let here_word = !is_ws_exec(v[i]);
        let starts = here_word && (i == 0 || is_ws_exec(v[i - 1]));
        if starts {
            count = count + 1;
        }
        i = i + 1;
    }
    count
}

pub fn is_ws_exec(c: char) -> (r: bool)
    ensures
        r == is_ws_char(c),
{
    proof {
        lemma_char_code(c);
    }
    let u = c as u32;
    u == 0x09 || u == 0x0A || u == 0x0B || u == 0x0C || u == 0x0D || u == 0x20 || u == 0x85
        || u == 0xA0 || u == 0x1680 || (0x2000 <= u && u <= 0x200A) || u == 0x2028
        || u == 0x2029 || u == 0x202F || u == 0x205F || u == 0x3000
}

/// The UTF-8 encoding width of a character.
pub open spec fn utf8_width(c: char) -> int {
    if (c as int) < 128 {
        1
    } else if (c as int) < 2048 {
        2
    } else if (c as int) < 65536 {
        3
    } else {
        4
    }
}

pub proof fn lemma_char_code(c: char)
    ensures
        c as u32 == c as int,
        0 <= (c as int) && (c as int) < 0x110000,
{
}

/// The UTF-8 byte length of a character sequence.
pub open spec fn utf8_len(s: Seq<char>) -> int
    decreases s.len(),
{
    if s.len() == 0 {
        0
    } else {
        utf8_width(s[0]) + utf8_len(s.subrange(1, s.len() as int))
    }
}

pub proof fn lemma_utf8_len_snoc(s: Seq<char>, c: char)
    ensures
        utf8_len(s + seq![c]) == utf8_len(s) + utf8_width(c),
    decreases s.len(),
{
    if s.len() == 0 {
        assert(s + seq![c] =~= seq![c]);
        assert((s + seq![c]).subrange(1, 1) =~= Seq::<char>::empty());
        assert(utf8_len(s + seq![c]) == utf8_width(c) + utf8_len(
            (s + seq![c]).subrange(1, 1),
        ));
        assert(utf8_len((s + seq![c]).subrange(1, 1)) == 0);
    } else {
        let t = s + seq![c];
        assert(t.subrange(1, t.len() as int) =~= s.subrange(1, s.len() as int) + seq![c]);
        lemma_utf8_len_snoc(s.subrange(1, s.len() as int), c);
        assert(t[0] == s[0]);
        assert(utf8_len(t) == utf8_width(t[0]) + utf8_len(t.subrange(1, t.len() as int)));
        assert(utf8_len(s) == utf8_width(s[0]) + utf8_len(s.subrange(1, s.len() as int)));
    }
}

pub proof fn lemma_utf8_len_nonneg(s: Seq<char>)
    ensures
        utf8_len(s) >= 0,
    decreases s.len(),
{
    if s.len() > 0 {
        lemma_utf8_len_nonneg(s.subrange(1, s.len() as int));
    }
}

/// How many bytes of preview a listing shows.
pub open spec fn preview_byte_limit() -> int {
    200
}

/// The listing preview of a body: the longest prefix of the content whose
/// UTF-8 encoding fits in 200 bytes, so the cut never splits a character.
pub fn preview_of(content: &str) -> (r: String)
    ensures
        exists|k: int|
            0 <= k <= content@.len() && r@ == #[trigger] content@.subrange(0, k) && utf8_len(
                content@.subrange(0, k),
            ) <= preview_byte_limit() && (k == content@.len() || utf8_len(
                content@.subrange(0, k + 1),
            ) > preview_byte_limit()),
{
    let v = crate::text::to_char_vec(content);
    let n: usize = v.len();
    let mut out: Vec<char> = Vec::new();
    let mut bytes: u64 = 0;
    let mut i: usize = 0;
    proof {
        assert(v@.subrange(0, 0) =~= Seq::<char>::empty());
    }
    while i < n
        invariant
            n == v@.len(),
            v@ == content@,
            i <= n,
            out@ =~= v@.subrange(0, i as int),
            bytes == utf8_len(v@.subrange(0, i as int)),
            bytes <= preview_byte_limit(),
        decreases n - i,
    {
        let c = v[i];
        proof {
            lemma_char_code(c);
        }
        let u = c as u32;
        let w: u64 = if u < 128 {
            1
        } else if u < 2048 {
            2
        } else if u < 65536 {
            3
        } else {
            4
        };
        assert(w == utf8_width(c));
        proof {
            assert(v@.subrange(0, i + 1) =~= v@.subrange(0, i as int) + seq![v@[i as int]]);
            lemma_utf8_len_snoc(v@.subrange(0, i as int), v@[i as int]);
        }
        if bytes + w > 200 {
            let r = crate::text::from_char_vec(&out);
            proof {
                let k = i as int;
                assert(r@ == content@.subrange(0, k));
                assert(utf8_len(content@.subrange(0, k)) <= preview_byte_limit());
                assert(utf8_len(content@.subrange(0, k + 1)) > preview_byte_limit());
            }
            return r;
        }
        out.push(c);
        bytes = bytes + w;
        i = i + 1;
    }
    let r = crate::text::from_char_vec(&out);
    proof {
        let k = n as int;
        assert(r@ == content@.subrange(0, k));
        assert(utf8_len(content@.subrange(0, k)) <= preview_byte_limit());
    }
    r
}

/// The three editorial states.
pub open spec fn state_draft() -> Seq<char> {
    "draft"@
}

pub open spec fn state_review() -> Seq<char> {
    "review"@
}

pub open spec fn state_published() -> Seq<char> {
    "published"@
}

/// The allowed editorial transitions: draft and review are adjacent, and
/// review and published are adjacent; nothing else.
pub open spec fn valid_transition(from: Seq<char>, to: Seq<char>) -> bool {
    (from == state_draft() && to == state_review()) || (from == state_review() && to
        == state_published()) || (from == state_review() && to == state_draft()) || (from
        == state_published() && to == state_review())
}

/// Decide whether `from -> to` is an allowed editorial transition.
pub fn is_valid_transition(from: &str, to: &str) -> (r: bool)
    ensures
        r == valid_transition(from@, to@),
{
    (str_eq(from, "draft") && str_eq(to, "review")) || (str_eq(from, "review") && str_eq(
        to,
        "published",
    )) || (str_eq(from, "review") && str_eq(to, "draft")) || (str_eq(from, "published")
        && str_eq(to, "review"))
}

/// Fields that survive the trip through a vault file: values with no
/// newline, no double quote and no backslash serialize into the YAML
/// header and parse back unchanged.
pub open spec fn plain_field(s: Seq<char>) -> bool {
    forall|i: int|
        0 <= i < s.len() ==> (#[trigger] s[i]) != '\n' && s[i] != '"' && s[i] != '\\'
}

/// Titles may carry double quotes (the codec escapes them) but no newline
/// and no backslash.
pub open spec fn title_field(s: Seq<char>) -> bool {
    forall|i: int| 0 <= i < s.len() ==> (#[trigger] s[i]) != '\n' && s[i] != '\\'
}

pub open spec fn plain_fields(tags: Seq<Seq<char>>) -> bool {
    forall|i: int| 0 <= i < tags.len() ==> plain_field(#[trigger] tags[i])
}

/// A note whose header fields round-trip through the vault file format.
pub open spec fn representable(n: NoteView) -> bool {
    plain_field(n.id) && title_field(n.title) && plain_field(n.created_at) && plain_field(
        n.updated_at,
    ) && plain_fields(n.tags)
}

} // verus!
