//! The front-matter codec: a note serializes to `---`, a YAML header with
//! the keys `id`, `title`, `tags`, `created_at`, `updated_at`, `is_pinned`
//! in that order, a closing `---`, and the raw body; parsing inverts it.
use vstd::prelude::*;
use crate::note::{Note, NoteView, opt_view, str_views};
use crate::text::{
    all_ws, find_char_from, find_sub_from, lemma_find_char_from_none,
    lemma_find_char_from_some, lemma_find_sub_from_none, lemma_find_sub_from_some, match_at,
    split_lines, starts_with,
};

verus! {

/// The header fields read from a vault file, before defaulting.
#[derive(Debug)]
pub struct FrontmatterData {
    pub id: Option<String>,
    pub title: Option<String>,
    pub tags: Vec<String>,
    pub created_at: Option<String>,
    pub updated_at: Option<String>,
    pub is_pinned: bool,
}

/// The mathematical view of parsed header fields.
pub ghost struct FmView {
    pub id: Option<Seq<char>>,
    pub title: Option<Seq<char>>,
    pub tags: Seq<Seq<char>>,
    pub created_at: Option<Seq<char>>,
    pub updated_at: Option<Seq<char>>,
    pub is_pinned: bool,
}

impl View for FrontmatterData {
    type V = FmView;

    open spec fn view(&self) -> FmView {
        FmView {
            id: opt_view(self.id),
            title: opt_view(self.title),
            tags: str_views(self.tags@),
            created_at: opt_view(self.created_at),
            updated_at: opt_view(self.updated_at),
            is_pinned: self.is_pinned,
        }
    }
}

pub open spec fn empty_fm() -> FmView {
    FmView {
        id: None,
        title: None,
        tags: Seq::empty(),
        created_at: None,
        updated_at: None,
        is_pinned: false,
    }
}

// ---- serialization, at the specification level ----

/// Double-quote escaping: `"` becomes `\"`; all else is kept.
pub open spec fn esc(s: Seq<char>) -> Seq<char>
    decreases s.len(),
{
    if s.len() == 0 {
        Seq::empty()
    } else {
        (if s[0] == '"' {
            seq!['\\', '"']
        } else {
            seq![s[0]]
        }) + esc(s.subrange(1, s.len() as int))
    }
}

pub open spec fn quoted(s: Seq<char>) -> Seq<char> {
    seq!['"'] + s + seq!['"']
}

pub open spec fn quoted_esc(s: Seq<char>) -> Seq<char> {
    seq!['"'] + esc(s) + seq!['"']
}

pub open spec fn line_nl(l: Seq<char>) -> Seq<char> {
    l + seq!['\n']
}

pub open spec fn bool_text(b: bool) -> Seq<char> {
    if b {
        "true"@
    } else {
        "false"@
    }
}

pub open spec fn dashes() -> Seq<char> {
    seq!['-', '-', '-']
}

/// The closing delimiter preferred by the parser: a newline, `---`, a newline.
pub open spec fn close_pat() -> Seq<char> {
    seq!['\n', '-', '-', '-', '\n']
}

/// The closing delimiter accepted at the very end of the input.
pub open spec fn close_pat_short() -> Seq<char> {
    seq!['\n', '-', '-', '-']
}

pub open spec fn id_line(v: Seq<char>) -> Seq<char> {
    "id: "@ + quoted(v)
}

pub open spec fn title_line(v: Seq<char>) -> Seq<char> {
    "title: "@ + quoted_esc(v)
}

pub open spec fn tag_item_line(t: Seq<char>) -> Seq<char> {
    "  - "@ + quoted(t)
}

pub open spec fn created_line(v: Seq<char>) -> Seq<char> {
    "created_at: "@ + quoted(v)
}

pub open spec fn updated_line(v: Seq<char>) -> Seq<char> {
    "updated_at: "@ + quoted(v)
}

pub open spec fn pinned_line(b: bool) -> Seq<char> {
    "is_pinned: "@ + bool_text(b)
}

pub open spec fn tag_items(ts: Seq<Seq<char>>) -> Seq<char>
    decreases ts.len(),
{
    if ts.len() == 0 {
        Seq::empty()
    } else {
        line_nl(tag_item_line(ts[0])) + tag_items(ts.subrange(1, ts.len() as int))
    }
}

pub open spec fn tags_block(ts: Seq<Seq<char>>) -> Seq<char> {
    if ts.len() == 0 {
        line_nl("tags: []"@)
    } else {
        line_nl("tags:"@) + tag_items(ts)
    }
}

pub open spec fn header_text(nv: NoteView) -> Seq<char> {
    line_nl(id_line(nv.id)) + line_nl(title_line(nv.title)) + tags_block(nv.tags) + line_nl(
        created_line(nv.created_at),
    ) + line_nl(updated_line(nv.updated_at)) + line_nl(pinned_line(nv.is_pinned))
}

/// The whole vault file text of a note.
#[verifier::opaque]
pub open spec fn serialize_spec(nv: NoteView) -> Seq<char> {
    line_nl(dashes()) + header_text(nv) + line_nl(dashes()) + nv.content
}

// ---- serialization, executable ----

proof fn lemma_esc_snoc(s: Seq<char>, c: char)
    ensures
        esc(s + seq![c]) == esc(s) + (if c == '"' {
            seq!['\\', '"']
        } else {
            seq![c]
        }),
    decreases s.len(),
{
    let t = s + seq![c];
    if s.len() == 0 {
        assert(t =~= seq![c]);
        assert(t.subrange(1, t.len() as int) =~= Seq::<char>::empty());
        assert(esc(t) == (if c == '"' {
            seq!['\\', '"']
        } else {
            seq![c]
        }) + esc(t.subrange(1, t.len() as int)));
        assert(esc(t) =~= (if c == '"' {
            seq!['\\', '"']
        } else {
            seq![c]
        }));
    } else {
        assert(t.subrange(1, t.len() as int) =~= s.subrange(1, s.len() as int) + seq![c]);
        lemma_esc_snoc(s.subrange(1, s.len() as int), c);
        assert(t[0] == s[0]);
        assert(esc(t) =~= esc(s) + (if c == '"' {
            seq!['\\', '"']
        } else {
            seq![c]
        }));
    }
}

/// Append `"v"` to `out`, quoting without escapes.
fn push_quoted(out: &mut String, v: &str)
    ensures
        final(out)@ == old(out)@ + quoted(v@),
{
    out.push('"');
    out.append(v);
    out.push('"');
    assert(out@ =~= old(out)@ + quoted(v@));
}

/// Append `"v"` to `out`, escaping every `"` in `v` as `\"`.
fn push_quoted_esc(out: &mut String, v: &str)
    ensures
        final(out)@ == old(out)@ + quoted_esc(v@),
{
    out.push('"');
    let n: usize = v.unicode_len();
    let mut i: usize = 0;
    proof {
        assert(v@.subrange(0, 0) =~= Seq::<char>::empty());
        assert(out@ =~= old(out)@ + seq!['"'] + esc(v@.subrange(0, 0)));
    }
    while i < n
        invariant
            n == v@.len(),
            i <= n,
            out@ == old(out)@ + seq!['"'] + esc(v@.subrange(0, i as int)),
        decreases n - i,
    {
        let c = v.get_char(i);
        proof {
            assert(v@.subrange(0, i + 1) =~= v@.subrange(0, i as int) + seq![v@[i as int]]);
            lemma_esc_snoc(v@.subrange(0, i as int), v@[i as int]);
        }
        if c == '"' {
            out.push('\\');
            out.push('"');
        } else {
            out.push(c);
        }
        proof {
            assert(out@ =~= old(out)@ + seq!['"'] + esc(v@.subrange(0, i + 1)));
        }
        i = i + 1;
    }
    out.push('"');
    proof {
        assert(v@.subrange(0, n as int) =~= v@);
        assert(out@ =~= old(out)@ + quoted_esc(v@));
    }
}

proof fn lemma_tag_items_snoc(ts: Seq<Seq<char>>, i: int)
    requires
        0 <= i < ts.len(),
    ensures
        tag_items(ts.subrange(0, i + 1)) == tag_items(ts.subrange(0, i)) + line_nl(
            tag_item_line(ts[i]),
        ),
    decreases i,
{
    let a = ts.subrange(0, i + 1);
    if i == 0 {
        assert(a.len() == 1);
        assert(a[0] == ts[0]);
        assert(a.subrange(1, a.len() as int) =~= Seq::<Seq<char>>::empty());
        assert(tag_items(a) == line_nl(tag_item_line(a[0])) + tag_items(
            a.subrange(1, a.len() as int),
        ));
        assert(tag_items(a.subrange(1, a.len() as int)) == Seq::<char>::empty());
        assert(tag_items(ts.subrange(0, 0)) == Seq::<char>::empty());
        assert(tag_items(a) =~= tag_items(ts.subrange(0, 0)) + line_nl(tag_item_line(ts[0])));
    } else {
        let b = ts.subrange(0, i);
        assert(a[0] == ts[0] && b[0] == ts[0]);
        assert(a.subrange(1, a.len() as int) =~= ts.subrange(1, ts.len() as int).subrange(
            0,
            i,
        ));
        assert(b.subrange(1, b.len() as int) =~= ts.subrange(1, ts.len() as int).subrange(
            0,
            i - 1,
        ));
        lemma_tag_items_snoc(ts.subrange(1, ts.len() as int), i - 1);
        assert(ts.subrange(1, ts.len() as int)[i - 1] == ts[i]);
        assert(tag_items(a) =~= tag_items(b) + line_nl(tag_item_line(ts[i])));
    }
}

/// Serialize a note into a markdown text with a YAML front-matter header.
#[verifier::rlimit(100)]
pub fn serialize_frontmatter(note: &Note) -> (r: String)
    ensures
        r@ == serialize_spec(note@),
{
    let mut out = String::new();
    out.append("---");
    out.push('\n');
    proof {
        reveal_strlit("---");
        assert("---"@ =~= dashes());
        assert(out@ =~= line_nl(dashes()));
    }
    out.append("id: ");
    push_quoted(&mut out, note.id.as_str());
    out.push('\n');
    proof {
        assert(out@ =~= line_nl(dashes()) + line_nl(id_line(note@.id)));
    }
    out.append("title: ");
    push_quoted_esc(&mut out, note.title.as_str());
    out.push('\n');
    let ghost pre_tags = line_nl(dashes()) + line_nl(id_line(note@.id)) + line_nl(
        title_line(note@.title),
    );
    proof {
        assert(out@ =~= pre_tags);
    }
    if note.tags.len() == 0 {
        out.append("tags: []");
        out.push('\n');
        proof {
            assert(note@.tags.len() == 0);
            assert(out@ =~= pre_tags + tags_block(note@.tags));
        }
    } else {
        out.append("tags:");
        out.push('\n');
        let mut i: usize = 0;
        proof {
            assert(note@.tags.len() == note.tags@.len());
            assert(tag_items(note@.tags.subrange(0, 0)) == Seq::<char>::empty());
            assert(out@ =~= pre_tags + line_nl("tags:"@) + tag_items(note@.tags.subrange(0, 0)));
        }
        while i < note.tags.len()
            invariant
                i <= note.tags@.len(),
                note@.tags.len() == note.tags@.len(),
                out@ == pre_tags + line_nl("tags:"@) + tag_items(note@.tags.subrange(0, i as int)),
                forall|j: int| 0 <= j < note.tags@.len() ==> note@.tags[j] == note.tags@[j]@,
            decreases note.tags@.len() - i,
        {
            out.append("  - ");
            push_quoted(&mut out, note.tags[i].as_str());
            out.push('\n');
            proof {
                lemma_tag_items_snoc(note@.tags, i as int);
                assert(out@ =~= pre_tags + line_nl("tags:"@) + tag_items(
                    note@.tags.subrange(0, i + 1),
                ));
            }
            i = i + 1;
        }
        proof {
            assert(note@.tags.subrange(0, note@.tags.len() as int) =~= note@.tags);
            assert(out@ =~= pre_tags + tags_block(note@.tags));
        }
    }
    let ghost pre_created = pre_tags + tags_block(note@.tags);
    out.append("created_at: ");
    push_quoted(&mut out, note.created_at.as_str());
    out.push('\n');
    out.append("updated_at: ");
    push_quoted(&mut out, note.updated_at.as_str());
    out.push('\n');
    out.append("is_pinned: ");
    if note.is_pinned {
        out.append("true");
    } else {
        out.append("false");
    }
    out.push('\n');
    out.append("---");
    out.push('\n');
    out.append(note.content.as_str());
    proof {
        reveal(serialize_spec);
        reveal_strlit("---");
        assert("---"@ =~= dashes());
        assert(out@ =~= serialize_spec(note@));
    }
    out
}

// ---- parsing, at the specification level ----

/// Undo quoting: read up to the first unescaped `"`, turning `\"` back
/// into `"`; an unterminated value is taken whole.
pub open spec fn unquote(v: Seq<char>) -> Seq<char>
    decreases v.len(),
{
    if v.len() == 0 {
        Seq::empty()
    } else if v[0] == '\\' && v.len() >= 2 && v[1] == '"' {
        seq!['"'] + unquote(v.subrange(2, v.len() as int))
    } else if v[0] == '"' {
        Seq::empty()
    } else {
        seq![v[0]] + unquote(v.subrange(1, v.len() as int))
    }
}

/// The value of a header line after its key: a quoted string is unquoted,
/// anything else is taken verbatim.
pub open spec fn parse_value(v: Seq<char>) -> Seq<char> {
    if v.len() >= 1 && v[0] == '"' {
        unquote(v.subrange(1, v.len() as int))
    } else {
        v
    }
}

/// The value of the first line that starts with `key`.
pub open spec fn field_value(lines: Seq<Seq<char>>, key: Seq<char>) -> Option<Seq<char>>
    decreases lines.len(),
{
    if lines.len() == 0 {
        None
    } else if starts_with(lines[0], key) {
        Some(parse_value(lines[0].subrange(key.len() as int, lines[0].len() as int)))
    } else {
        field_value(lines.subrange(1, lines.len() as int), key)
    }
}

/// The block-sequence items following a `tags:` line.
pub open spec fn tag_items_of(lines: Seq<Seq<char>>) -> Seq<Seq<char>>
    decreases lines.len(),
{
    if lines.len() == 0 {
        Seq::empty()
    } else if starts_with(lines[0], "  - "@) {
        seq![parse_value(lines[0].subrange(4, lines[0].len() as int))] + tag_items_of(
            lines.subrange(1, lines.len() as int),
        )
    } else {
        Seq::empty()
    }
}

/// The tag list of a header: the items after a bare `tags:` line; any
/// other `tags:` value (such as the inline `[]`) yields the empty list.
pub open spec fn tags_of_lines(lines: Seq<Seq<char>>) -> Seq<Seq<char>>
    decreases lines.len(),
{
    if lines.len() == 0 {
        Seq::empty()
    } else if lines[0] == "tags:"@ {
        tag_items_of(lines.subrange(1, lines.len() as int))
    } else if starts_with(lines[0], "tags:"@) {
        Seq::empty()
    } else {
        tags_of_lines(lines.subrange(1, lines.len() as int))
    }
}

/// All fields read from a header text. Missing keys stay empty and
/// `is_pinned` defaults to false.
pub open spec fn header_fm(h: Seq<char>) -> FmView {
    let lines = split_lines(h);
    FmView {
        id: field_value(lines, "id: "@),
        title: field_value(lines, "title: "@),
        tags: tags_of_lines(lines),
        created_at: field_value(lines, "created_at: "@),
        updated_at: field_value(lines, "updated_at: "@),
        is_pinned: match field_value(lines, "is_pinned: "@) {
            Option::Some(v) => v == "true"@,
            Option::None => false,
        },
    }
}

/// What parsing returns: text without a leading `---` is all body; with
/// one, the header runs to the first `\n---\n` (or a trailing `\n---`
/// followed only by whitespace); anything else is malformed.
#[verifier::opaque]
pub open spec fn parse_spec(s: Seq<char>) -> Option<(FmView, Seq<char>)> {
    if !starts_with(s, dashes()) {
        Some((empty_fm(), s))
    } else {
        let rest = s.subrange(3, s.len() as int);
        match find_sub_from(rest, close_pat(), 0) {
            Option::Some(p) => Some(
                (header_fm(rest.subrange(0, p)), rest.subrange(p + 5, rest.len() as int)),
            ),
            Option::None => match find_sub_from(rest, close_pat_short(), 0) {
                Option::Some(p) => if all_ws(rest.subrange(p + 4, rest.len() as int)) {
                    Some((header_fm(rest.subrange(0, p)), Seq::empty()))
                } else {
                    None
                },
                Option::None => None,
            },
        }
    }
}

// ---- parsing, executable ----

pub open spec fn lv_views(lv: Seq<Vec<char>>) -> Seq<Seq<char>> {
    lv.map_values(|l: Vec<char>| l@)
}

/// Split `v` at newlines.
fn split_lines_exec(v: &Vec<char>) -> (r: Vec<Vec<char>>)
    ensures
        lv_views(r@) == split_lines(v@),
{
    let n: usize = v.len();
    let mut out: Vec<Vec<char>> = Vec::new();
    let mut i: usize = 0;
    proof {
        assert(v@.subrange(0, n as int) =~= v@);
        assert(lv_views(out@) + split_lines(v@) =~= split_lines(v@));
    }
    loop
        invariant
            n == v@.len(),
            i <= n,
            split_lines(v@) == lv_views(out@) + split_lines(v@.subrange(i as int, n as int)),
        decreases n - i,
    {
        let ghost suf = v@.subrange(i as int, n as int);
        match crate::text::find_char(v, '\n', i) {
            Option::None => {
                proof {
                    crate::text::lemma_find_char_suffix(v@, '\n', i as int);
                    assert(split_lines(suf) == seq![suf]);
                }
                let line = crate::text::slice_chars(v, i, n);
                out.push(line);
                proof {
                    assert(lv_views(out@) =~= split_lines(v@));
                }
                return out;
            }
            Option::Some(p) => {
                proof {
                    crate::text::lemma_find_char_from_some(v@, '\n', i as int, p as int);
                    crate::text::lemma_find_char_suffix(v@, '\n', i as int);
                    assert(find_char_from(suf, '\n', 0) == Some(p - i));
                    assert(split_lines(suf) == seq![suf.subrange(0, p - i)] + split_lines(
                        suf.subrange(p - i + 1, suf.len() as int),
                    ));
                    assert(suf.subrange(0, p - i) =~= v@.subrange(i as int, p as int));
                    assert(suf.subrange(p - i + 1, suf.len() as int) =~= v@.subrange(
                        p + 1,
                        n as int,
                    ));
                }
                let line = crate::text::slice_chars(v, i, p);
                let ghost prev = out@;
                let ghost line_v = line@;
                out.push(line);
                i = p + 1;
                proof {
                    assert(lv_views(out@) =~= lv_views(prev) + seq![line_v]);
                    assert(split_lines(v@) =~= lv_views(out@) + split_lines(
                        v@.subrange(i as int, n as int),
                    ));
                }
            }
        }
    }
}

/// Undo quoting from `from` on.
fn unquote_exec(v: &Vec<char>, from: usize) -> (r: Vec<char>)
    requires
        from <= v@.len(),
    ensures
        r@ == unquote(v@.subrange(from as int, v@.len() as int)),
{
    let n: usize = v.len();
    let mut out: Vec<char> = Vec::new();
    let mut i: usize = from;
    proof {
        assert(out@ + unquote(v@.subrange(from as int, n as int)) =~= unquote(
            v@.subrange(from as int, n as int),
        ));
    }
    loop
        invariant
            n == v@.len(),
            from <= i <= n,
            unquote(v@.subrange(from as int, n as int)) == out@ + unquote(
                v@.subrange(i as int, n as int),
            ),
        decreases n - i,
    {
        let ghost suf = v@.subrange(i as int, n as int);
        if i >= n {
            proof {
                assert(suf =~= Seq::<char>::empty());
                assert(out@ + unquote(suf) =~= out@);
            }
            return out;
        }
        let c = v[i];
        if c == '\\' && i + 1 < n && v[i + 1] == '"' {
            proof {
                assert(suf[0] == '\\' && suf.len() >= 2 && suf[1] == '"');
                assert(suf.subrange(2, suf.len() as int) =~= v@.subrange(i + 2, n as int));
            }
            out.push('"');
            i = i + 2;
            proof {
                assert(out@ + unquote(v@.subrange(i as int, n as int)) =~= unquote(
                    v@.subrange(from as int, n as int),
                ));
            }
        } else if c == '"' {
            proof {
                assert(suf[0] == '"' && !(suf[0] == '\\' && suf.len() >= 2 && suf[1] == '"'));
                assert(unquote(suf) =~= Seq::<char>::empty());
                assert(out@ + unquote(suf) =~= out@);
            }
            return out;
        } else {
            proof {
                assert(suf[0] == c && c != '"');
                assert(!(suf[0] == '\\' && suf.len() >= 2 && suf[1] == '"') ==> true);
                assert(suf.subrange(1, suf.len() as int) =~= v@.subrange(i + 1, n as int));
            }
            out.push(c);
            i = i + 1;
            proof {
                assert(out@ + unquote(v@.subrange(i as int, n as int)) =~= unquote(
                    v@.subrange(from as int, n as int),
                ));
            }
        }
    }
}

/// The parsed value of `line` after its first `from` characters.
fn parse_value_exec(line: &Vec<char>, from: usize) -> (r: Vec<char>)
    requires
        from <= line@.len(),
    ensures
        r@ == parse_value(line@.subrange(from as int, line@.len() as int)),
{
    let n: usize = line.len();
    if from < n && line[from] == '"' {
        proof {
            assert(line@.subrange(from as int, n as int)[0] == '"');
            assert(line@.subrange(from as int, n as int).subrange(
                1,
                (n - from) as int,
            ) =~= line@.subrange(from + 1, n as int));
        }
        unquote_exec(line, from + 1)
    } else {
        proof {
            if from < n {
                assert(line@.subrange(from as int, n as int)[0] != '"');
            }
        }
        crate::text::slice_chars(line, from, n)
    }
}

/// True when `v` starts with `pre`.
fn starts_with_exec(v: &Vec<char>, pre: &Vec<char>) -> (r: bool)
    ensures
        r == starts_with(v@, pre@),
{
    if pre.len() > v.len() {
        return false;
    }
    crate::text::match_at_exec(v, pre, 0)
}

fn chars_eq(a: &Vec<char>, b: &Vec<char>) -> (r: bool)
    ensures
        r == (a@ == b@),
{
    if a.len() != b.len() {
        assert(a@ != b@);
        return false;
    }
    let r = crate::text::match_at_exec(a, b, 0);
    proof {
        if match_at(a@, b@, 0) {
            assert(a@.subrange(0, a@.len() as int) =~= a@);
        } else {
            if a@ == b@ {
                assert(a@.subrange(0, b@.len() as int) =~= b@);
            }
        }
    }
    r
}

/// The first line with the given key, as `field_value`.
fn field_value_exec(lines: &Vec<Vec<char>>, key: &Vec<char>) -> (r: Option<Vec<char>>)
    ensures
        match r {
            Option::Some(val) => field_value(lv_views(lines@), key@) == Some(val@),
            Option::None => field_value(lv_views(lines@), key@) is None,
        },
{
    let m: usize = lines.len();
    let mut j: usize = 0;
    proof {
        assert(lv_views(lines@).subrange(0, m as int) =~= lv_views(lines@));
    }
    while j < m
        invariant
            m == lines@.len(),
            j <= m,
            field_value(lv_views(lines@), key@) == field_value(
                lv_views(lines@).subrange(j as int, m as int),
                key@,
            ),
        decreases m - j,
    {
        let ghost sufl = lv_views(lines@).subrange(j as int, m as int);
        proof {
            assert(sufl[0] == lines@[j as int]@);
            assert(sufl.subrange(1, sufl.len() as int) =~= lv_views(lines@).subrange(
                j + 1,
                m as int,
            ));
        }
        if starts_with_exec(&lines[j], key) {
            let val = parse_value_exec(&lines[j], key.len());
            return Some(val);
        }
        j = j + 1;
    }
    None
}

/// The tag items following the first bare `tags:` line, as Strings.
fn tags_exec(lines: &Vec<Vec<char>>, tags_key: &Vec<char>, item_key: &Vec<char>) -> (r: Vec<
    String,
>)
    requires
        tags_key@ == "tags:"@,
        item_key@ == "  - "@,
    ensures
        str_views(r@) == tags_of_lines(lv_views(lines@)),
{
    let m: usize = lines.len();
    let mut j: usize = 0;
    proof {
        assert(lv_views(lines@).subrange(0, m as int) =~= lv_views(lines@));
    }
    while j < m
        invariant
            m == lines@.len(),
            j <= m,
            tags_key@ == "tags:"@,
            item_key@ == "  - "@,
            tags_of_lines(lv_views(lines@)) == tags_of_lines(
                lv_views(lines@).subrange(j as int, m as int),
            ),
        decreases m - j,
    {
        let ghost sufl = lv_views(lines@).subrange(j as int, m as int);
        proof {
            assert(sufl[0] == lines@[j as int]@);
            assert(sufl.subrange(1, sufl.len() as int) =~= lv_views(lines@).subrange(
                j + 1,
                m as int,
            ));
        }
        if chars_eq(&lines[j], tags_key) {
            // collect the items that follow
            let mut out: Vec<String> = Vec::new();
            let mut k: usize = j + 1;
            proof {
                assert(tags_of_lines(sufl) == tag_items_of(
                    lv_views(lines@).subrange(j + 1, m as int),
                ));
                assert(str_views(out@) + tag_items_of(
                    lv_views(lines@).subrange(k as int, m as int),
                ) =~= tag_items_of(lv_views(lines@).subrange(k as int, m as int)));
            }
            while k < m
                invariant
                    m == lines@.len(),
                    j + 1 <= k <= m,
                    item_key@ == "  - "@,
                    tags_of_lines(lv_views(lines@)) == str_views(out@) + tag_items_of(
                        lv_views(lines@).subrange(k as int, m as int),
                    ),
                decreases m - k,
            {
                let ghost sufk = lv_views(lines@).subrange(k as int, m as int);
                proof {
                    assert(sufk[0] == lines@[k as int]@);
                    assert(sufk.subrange(1, sufk.len() as int) =~= lv_views(lines@).subrange(
                        k + 1,
                        m as int,
                    ));
                }
                if starts_with_exec(&lines[k], item_key) {
                    proof {
                        reveal_strlit("  - ");
                    }
                    let val = parse_value_exec(&lines[k], item_key.len());
                    let s = crate::text::from_char_vec(&val);
                    let ghost prev = out@;
                    out.push(s);
                    k = k + 1;
                    proof {
                        assert(str_views(out@) =~= str_views(prev) + seq![val@]);
                        assert(tags_of_lines(lv_views(lines@)) =~= str_views(out@)
                            + tag_items_of(lv_views(lines@).subrange(k as int, m as int)));
                    }
                } else {
                    proof {
                        assert(tag_items_of(sufk) =~= Seq::<Seq<char>>::empty());
                        assert(tags_of_lines(lv_views(lines@)) =~= str_views(out@));
                    }
                    return out;
                }
            }
            proof {
                assert(lv_views(lines@).subrange(m as int, m as int) =~= Seq::<
                    Seq<char>,
                >::empty());
                assert(tags_of_lines(lv_views(lines@)) =~= str_views(out@));
            }
            return out;
        }
        if starts_with_exec(&lines[j], tags_key) {
            let out: Vec<String> = Vec::new();
            proof {
                assert(tags_of_lines(lv_views(lines@)) =~= str_views(out@));
            }
            return out;
        }
        j = j + 1;
    }
    let out: Vec<String> = Vec::new();
    proof {
        assert(lv_views(lines@).subrange(m as int, m as int) =~= Seq::<Seq<char>>::empty());
        assert(tags_of_lines(lv_views(lines@)) =~= str_views(out@));
    }
    out
}

fn opt_chars_to_string(o: Option<Vec<char>>) -> (r: Option<String>)
    ensures
        match r {
            Option::Some(s) => o is Some && s@ == o->0@,
            Option::None => o is None,
        },
{
    match o {
        Option::Some(v) => Some(crate::text::from_char_vec(&v)),
        Option::None => None,
    }
}

/// True when every character of `v` from `from` on is whitespace.
fn all_ws_exec(v: &Vec<char>, from: usize) -> (r: bool)
    requires
        from <= v@.len(),
    ensures
        r == all_ws(v@.subrange(from as int, v@.len() as int)),
{
    let n: usize = v.len();
    let ghost suf = v@.subrange(from as int, n as int);
    let mut i: usize = from;
    while i < n
        invariant
            n == v@.len(),
            from <= i <= n,
            suf == v@.subrange(from as int, n as int),
            forall|k: int| 0 <= k < i - from ==> crate::text::is_ws_char(#[trigger] suf[k]),
        decreases n - i,
    {
        if !crate::note::is_ws_exec(v[i]) {
            assert(suf[i - from] == v@[i as int]);
            return false;
        }
        i = i + 1;
    }
    true
}

/// Read the header fields out of a header text.
fn parse_header(header: &Vec<char>) -> (r: FrontmatterData)
    ensures
        r@ == header_fm(header@),
{
    let lines = split_lines_exec(header);
    let key_id = crate::text::to_char_vec("id: ");
    let key_title = crate::text::to_char_vec("title: ");
    let key_created = crate::text::to_char_vec("created_at: ");
    let key_updated = crate::text::to_char_vec("updated_at: ");
    let key_pinned = crate::text::to_char_vec("is_pinned: ");
    let key_tags = crate::text::to_char_vec("tags:");
    let key_item = crate::text::to_char_vec("  - ");
    let true_chars = crate::text::to_char_vec("true");
    let id = opt_chars_to_string(field_value_exec(&lines, &key_id));
    let title = opt_chars_to_string(field_value_exec(&lines, &key_title));
    let created_at = opt_chars_to_string(field_value_exec(&lines, &key_created));
    let updated_at = opt_chars_to_string(field_value_exec(&lines, &key_updated));
    let tags = tags_exec(&lines, &key_tags, &key_item);
    let is_pinned = match field_value_exec(&lines, &key_pinned) {
        Option::Some(val) => chars_eq(&val, &true_chars),
        Option::None => false,
    };
    let r = FrontmatterData { id, title, tags, created_at, updated_at, is_pinned };
    r
}

/// Parse a markdown text with YAML front matter into header fields and a
/// body. Text without a leading `---` is all body; a malformed header
/// (no closing delimiter) is an error.
pub fn parse_frontmatter(content: &str) -> (r: Result<(FrontmatterData, String), crate::Error>)
    ensures
        match r {
            Result::Ok((fm, body)) => parse_spec(content@) == Some((fm@, body@)),
            Result::Err(e) => parse_spec(content@) is None && e.kind
                == crate::ErrorKind::Malformed,
        },
{
    proof {
        reveal(parse_spec);
    }
    let v = crate::text::to_char_vec(content);
    let n: usize = v.len();
    let has_dashes = n >= 3 && v[0] == '-' && v[1] == '-' && v[2] == '-';
    proof {
        if has_dashes {
            assert(v@.subrange(0, 3) =~= dashes());
        } else {
            if starts_with(v@, dashes()) {
                assert(v@.subrange(0, 3)[0] == '-' && v@.subrange(0, 3)[1] == '-'
                    && v@.subrange(0, 3)[2] == '-');
            }
        }
    }
    if !has_dashes {
        let fm = FrontmatterData {
            id: None,
            title: None,
            tags: Vec::new(),
            created_at: None,
            updated_at: None,
            is_pinned: false,
        };
        proof {
            assert(str_views(fm.tags@) =~= Seq::<Seq<char>>::empty());
        }
        let body = String::from_str(content);
        return Ok((fm, body));
    }
    let rest = crate::text::slice_chars(&v, 3, n);
    let mut close: Vec<char> = Vec::new();
    close.push('\n');
    close.push('-');
    close.push('-');
    close.push('-');
    close.push('\n');
    assert(close@ =~= close_pat());
    match crate::text::find_sub(&rest, &close, 0) {
        Option::Some(p) => {
            proof {
                lemma_find_sub_from_some(rest@, close_pat(), 0, p as int);
            }
            let header = crate::text::slice_chars(&rest, 0, p);
            let body_chars = crate::text::slice_chars(&rest, p + 5, rest.len());
            let fm = parse_header(&header);
            let body = crate::text::from_char_vec(&body_chars);
            return Ok((fm, body));
        }
        Option::None => {}
    }
    let mut close_short: Vec<char> = Vec::new();
    close_short.push('\n');
    close_short.push('-');
    close_short.push('-');
    close_short.push('-');
    assert(close_short@ =~= close_pat_short());
    match crate::text::find_sub(&rest, &close_short, 0) {
        Option::Some(p) => {
            proof {
                lemma_find_sub_from_some(rest@, close_pat_short(), 0, p as int);
            }
            if all_ws_exec(&rest, p + 4) {
                let header = crate::text::slice_chars(&rest, 0, p);
                let fm = parse_header(&header);
                let body = String::new();
                return Ok((fm, body));
            }
            Err(
                crate::Error::new(
                    crate::ErrorKind::Malformed,
                    String::from_str("invalid front matter: no closing delimiter"),
                ),
            )
        }
        Option::None => {
            Err(
                crate::Error::new(
                    crate::ErrorKind::Malformed,
                    String::from_str("invalid front matter: no closing delimiter"),
                ),
            )
        }
    }
}

} // verus!
