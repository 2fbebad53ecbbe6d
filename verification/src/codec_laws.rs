//! The round-trip law of the front-matter codec: parsing a serialized note
//! recovers exactly the fields that were written, for every note whose
//! fields are representable in the file format.
use vstd::prelude::*;
use crate::codec::{
    bool_text, close_pat, close_pat_short, dashes, empty_fm, esc, field_value, header_fm,
    header_text, id_line, line_nl, parse_spec, parse_value, pinned_line, quoted, quoted_esc,
    serialize_spec, created_line, updated_line, tag_item_line, tag_items, tag_items_of,
    tags_block, tags_of_lines, title_line, unquote, FmView,
};
use crate::note::{plain_field, plain_fields, representable, title_field, NoteView};
use crate::text::{
    find_char_from, find_sub_from, lemma_find_char_from_complete, lemma_find_char_from_some,
    lemma_find_sub_from_some, match_at, split_lines, starts_with,
};
use crate::tags::lemma_find_sub_from_complete;

verus! {

/// No newline anywhere in `s`.
pub open spec fn no_nl(s: Seq<char>) -> bool {
    forall|k: int| 0 <= k < s.len() ==> (#[trigger] s[k]) != '\n'
}

/// A header piece: non-empty, ends with a newline, does not begin with a
/// dash, and no interior newline is followed by a dash.
spec fn chunk_ok(s: Seq<char>) -> bool {
    s.len() > 0 && s[s.len() - 1] == '\n' && s[0] != '-' && (forall|k: int|
        0 <= k < s.len() - 1 ==> ((#[trigger] s[k]) == '\n' ==> s[k + 1] != '-'))
}

proof fn lemma_chunk_concat(a: Seq<char>, b: Seq<char>)
    requires
        chunk_ok(a),
        chunk_ok(b),
    ensures
        chunk_ok(a + b),
{
    let s = a + b;
    assert(s[s.len() - 1] == b[b.len() - 1]);
    assert(s[0] == a[0]);
    assert forall|k: int| 0 <= k < s.len() - 1 && (#[trigger] s[k]) == '\n' implies s[k + 1]
        != '-' by {
        if k < a.len() - 1 {
            assert(s[k] == a[k] && s[k + 1] == a[k + 1]);
        } else if k == a.len() - 1 {
            assert(s[k + 1] == b[0]);
        } else {
            assert(s[k] == b[k - a.len()] && s[k + 1] == b[k + 1 - a.len()]);
        }
    }
}

proof fn lemma_quoted_no_nl(v: Seq<char>)
    requires
        no_nl(v),
    ensures
        no_nl(quoted(v)),
{
    let q = quoted(v);
    assert forall|k: int| 0 <= k < q.len() implies (#[trigger] q[k]) != '\n' by {
        if k == 0 {
        } else if k <= v.len() {
            assert(q[k] == v[k - 1]);
        } else {
            assert(q[k] == '"');
        }
    }
}

proof fn lemma_esc_no_nl(t: Seq<char>)
    requires
        no_nl(t),
    ensures
        no_nl(esc(t)),
    decreases t.len(),
{
    if t.len() == 0 {
    } else {
        assert(no_nl(t.subrange(1, t.len() as int)));
        lemma_esc_no_nl(t.subrange(1, t.len() as int));
        let head: Seq<char> = if t[0] == '"' {
            seq!['\\', '"']
        } else {
            seq![t[0]]
        };
        let e = esc(t);
        assert(e == head + esc(t.subrange(1, t.len() as int)));
        assert forall|k: int| 0 <= k < e.len() implies (#[trigger] e[k]) != '\n' by {
            if k < head.len() {
                assert(e[k] == head[k]);
            } else {
                assert(e[k] == esc(t.subrange(1, t.len() as int))[k - head.len()]);
            }
        }
    }
}

proof fn lemma_quoted_esc_no_nl(t: Seq<char>)
    requires
        no_nl(t),
    ensures
        no_nl(quoted_esc(t)),
{
    lemma_esc_no_nl(t);
    let q = quoted_esc(t);
    assert forall|k: int| 0 <= k < q.len() implies (#[trigger] q[k]) != '\n' by {
        if k == 0 {
        } else if k <= esc(t).len() {
            assert(q[k] == esc(t)[k - 1]);
        } else {
            assert(q[k] == '"');
        }
    }
}

/// A line of the form `key` + `payload` followed by a newline is a good
/// header piece when neither part holds a newline and the key does not
/// begin with a dash.
proof fn lemma_key_line_chunk(key: Seq<char>, payload: Seq<char>)
    requires
        no_nl(key),
        no_nl(payload),
        key.len() > 0,
        key[0] != '-',
    ensures
        chunk_ok(line_nl(key + payload)),
{
    let l = key + payload;
    assert forall|k: int| 0 <= k < l.len() implies (#[trigger] l[k]) != '\n' by {
        if k < key.len() {
            assert(l[k] == key[k]);
        } else {
            assert(l[k] == payload[k - key.len()]);
        }
    }
    let s = line_nl(l);
    assert(s[s.len() - 1] == '\n');
    assert(s[0] == key[0]);
    assert forall|k: int| 0 <= k < s.len() - 1 && (#[trigger] s[k]) == '\n' implies s[k + 1]
        != '-' by {
        assert(s[k] == l[k]);
    }
}

proof fn lemma_keys_no_nl()
    ensures
        no_nl("id: "@),
        no_nl("title: "@),
        no_nl("tags:"@),
        no_nl("tags: []"@),
        no_nl("  - "@),
        no_nl("created_at: "@),
        no_nl("updated_at: "@),
        no_nl("is_pinned: "@),
        no_nl("true"@),
        no_nl("false"@),
        "id: "@.len() == 4,
        "title: "@.len() == 7,
        "tags:"@.len() == 5,
        "tags: []"@.len() == 8,
        "  - "@.len() == 4,
        "created_at: "@.len() == 12,
        "updated_at: "@.len() == 12,
        "is_pinned: "@.len() == 11,
        "id: "@[0] == 'i' && "id: "@[1] == 'd',
        "title: "@[0] == 't' && "title: "@[1] == 'i',
        "tags:"@[0] == 't' && "tags:"@[1] == 'a',
        "tags: []"@[0] == 't' && "tags: []"@[1] == 'a',
        "  - "@[0] == ' ',
        "created_at: "@[0] == 'c',
        "updated_at: "@[0] == 'u',
        "is_pinned: "@[0] == 'i' && "is_pinned: "@[1] == 's',
        "true"@[0] == 't',
        "false"@[0] == 'f',
        "true"@.len() == 4,
        "false"@.len() == 5,
        "tags:"@ == "tags: []"@.subrange(0, 5),
{
    reveal_strlit("id: ");
    reveal_strlit("title: ");
    reveal_strlit("tags:");
    reveal_strlit("tags: []");
    reveal_strlit("  - ");
    reveal_strlit("created_at: ");
    reveal_strlit("updated_at: ");
    reveal_strlit("is_pinned: ");
    reveal_strlit("true");
    reveal_strlit("false");
    assert("tags:"@ =~= "tags: []"@.subrange(0, 5));
}

proof fn lemma_tag_items_chunk(ts: Seq<Seq<char>>)
    requires
        plain_fields(ts),
        ts.len() > 0,
    ensures
        chunk_ok(tag_items(ts)),
    decreases ts.len(),
{
    lemma_keys_no_nl();
    assert(plain_field(ts[0]));
    assert(no_nl(ts[0]));
    lemma_quoted_no_nl(ts[0]);
    lemma_key_line_chunk("  - "@, quoted(ts[0]));
    let rest = ts.subrange(1, ts.len() as int);
    if rest.len() == 0 {
        assert(tag_items(ts) == line_nl(tag_item_line(ts[0])) + tag_items(rest));
        assert(tag_items(rest) == Seq::<char>::empty());
        assert(tag_items(ts) =~= line_nl(tag_item_line(ts[0])));
    } else {
        assert(plain_fields(rest));
        lemma_tag_items_chunk(rest);
        lemma_chunk_concat(line_nl(tag_item_line(ts[0])), tag_items(rest));
    }
}

proof fn lemma_header_chunk(nv: NoteView)
    requires
        representable(nv),
    ensures
        chunk_ok(header_text(nv)),
{
    lemma_keys_no_nl();
    lemma_quoted_no_nl(nv.id);
    lemma_quoted_esc_no_nl(nv.title);
    lemma_quoted_no_nl(nv.created_at);
    lemma_quoted_no_nl(nv.updated_at);
    lemma_key_line_chunk("id: "@, quoted(nv.id));
    lemma_key_line_chunk("title: "@, quoted_esc(nv.title));
    lemma_key_line_chunk("created_at: "@, quoted(nv.created_at));
    lemma_key_line_chunk("updated_at: "@, quoted(nv.updated_at));
    lemma_key_line_chunk("is_pinned: "@, bool_text(nv.is_pinned));
    if nv.tags.len() == 0 {
        assert("tags: []"@ =~= "tags: []"@ + Seq::<char>::empty());
        lemma_key_line_chunk("tags: []"@, Seq::<char>::empty());
        assert(chunk_ok(tags_block(nv.tags)));
    } else {
        assert("tags:"@ =~= "tags:"@ + Seq::<char>::empty());
        lemma_key_line_chunk("tags:"@, Seq::<char>::empty());
        lemma_tag_items_chunk(nv.tags);
        lemma_chunk_concat(line_nl("tags:"@), tag_items(nv.tags));
    }
    lemma_chunk_concat(line_nl(id_line(nv.id)), line_nl(title_line(nv.title)));
    lemma_chunk_concat(
        line_nl(id_line(nv.id)) + line_nl(title_line(nv.title)),
        tags_block(nv.tags),
    );
    lemma_chunk_concat(
        line_nl(id_line(nv.id)) + line_nl(title_line(nv.title)) + tags_block(nv.tags),
        line_nl(created_line(nv.created_at)),
    );
    lemma_chunk_concat(
        line_nl(id_line(nv.id)) + line_nl(title_line(nv.title)) + tags_block(nv.tags)
            + line_nl(created_line(nv.created_at)),
        line_nl(updated_line(nv.updated_at)),
    );
    lemma_chunk_concat(
        line_nl(id_line(nv.id)) + line_nl(title_line(nv.title)) + tags_block(nv.tags)
            + line_nl(created_line(nv.created_at)) + line_nl(updated_line(nv.updated_at)),
        line_nl(pinned_line(nv.is_pinned)),
    );
}

/// In the serialized text, the first closing delimiter stands exactly at
/// the end of the header.
proof fn lemma_find_close(nv: NoteView)
    requires
        representable(nv),
    ensures
        starts_with(serialize_spec(nv), dashes()),
        find_sub_from(
            serialize_spec(nv).subrange(3, serialize_spec(nv).len() as int),
            close_pat(),
            0,
        ) == Some(header_text(nv).len() as int),
{
    reveal(serialize_spec);
    lemma_header_chunk(nv);
    let s = serialize_spec(nv);
    let h = header_text(nv);
    let p = h.len() as int;
    let rest = s.subrange(3, s.len() as int);
    assert(s.subrange(0, 3) =~= dashes());
    assert(rest =~= seq!['\n'] + h + line_nl(dashes()) + nv.content);
    // the delimiter matches at p
    assert(rest.subrange(p, p + 5) =~= close_pat()) by {
        assert(rest[p] == h[p - 1]);
        assert(h[p - 1] == '\n');
        assert(rest[p + 1] == '-' && rest[p + 2] == '-' && rest[p + 3] == '-');
        assert(rest[p + 4] == '\n');
    }
    assert(match_at(rest, close_pat(), p));
    lemma_find_sub_from_complete(rest, close_pat(), 0, p);
    let q = find_sub_from(rest, close_pat(), 0)->0;
    lemma_find_sub_from_some(rest, close_pat(), 0, q);
    if q < p {
        // a match earlier than p would put a dash right after a newline
        // inside the header, which chunk_ok rules out
        assert(rest.subrange(q, q + 5) == close_pat());
        assert(rest[q] == close_pat()[0]) by {
            assert(rest.subrange(q, q + 5)[0] == rest[q]);
        }
        assert(rest[q + 1] == close_pat()[1]) by {
            assert(rest.subrange(q, q + 5)[1] == rest[q + 1]);
        }
        assert(rest[q] == '\n' && rest[q + 1] == '-');
        if q == 0 {
            assert(rest[1] == h[0]);
            assert(false);
        } else {
            assert(rest[q] == h[q - 1] && rest[q + 1] == h[q]);
            assert(h[q - 1] == '\n' && q - 1 < h.len() - 1);
            assert(false);
        }
    }
    assert(q == p);
}

/// Splitting `a` + newline + `b` peels off the line `a`.
proof fn lemma_split_cons(a: Seq<char>, b: Seq<char>)
    requires
        no_nl(a),
    ensures
        split_lines(a + seq!['\n'] + b) == seq![a] + split_lines(b),
{
    let s = a + seq!['\n'] + b;
    assert(s[a.len() as int] == '\n');
    lemma_find_char_from_complete(s, '\n', 0, a.len() as int);
    let q = find_char_from(s, '\n', 0)->0;
    lemma_find_char_from_some(s, '\n', 0, q);
    if q < a.len() {
        assert(s[q] == a[q]);
        assert(false);
    }
    assert(q == a.len());
    assert(s.subrange(0, q) =~= a);
    assert(s.subrange(q + 1, s.len() as int) =~= b);
    assert(split_lines(s) == seq![a] + split_lines(b));
}

/// A text with no newline splits into itself alone.
proof fn lemma_split_single(a: Seq<char>)
    requires
        no_nl(a),
    ensures
        split_lines(a) == seq![a],
{
    if find_char_from(a, '\n', 0) is Some {
        let q = find_char_from(a, '\n', 0)->0;
        lemma_find_char_from_some(a, '\n', 0, q);
        assert(false);
    }
}

/// The line sequence of the serialized tags block, when non-empty.
pub open spec fn item_lines_of(ts: Seq<Seq<char>>) -> Seq<Seq<char>> {
    ts.map_values(|t: Seq<char>| tag_item_line(t))
}

/// The lines a serialized header splits into.
pub open spec fn header_lines(nv: NoteView) -> Seq<Seq<char>> {
    seq![Seq::<char>::empty(), id_line(nv.id), title_line(nv.title)] + (if nv.tags.len() == 0 {
        seq!["tags: []"@]
    } else {
        seq!["tags:"@] + item_lines_of(nv.tags)
    }) + seq![
        created_line(nv.created_at),
        updated_line(nv.updated_at),
        pinned_line(nv.is_pinned),
    ]
}

proof fn lemma_line_no_nl(key: Seq<char>, payload: Seq<char>)
    requires
        no_nl(key),
        no_nl(payload),
    ensures
        no_nl(key + payload),
{
    let l = key + payload;
    assert forall|k: int| 0 <= k < l.len() implies (#[trigger] l[k]) != '\n' by {
        if k < key.len() {
            assert(l[k] == key[k]);
        } else {
            assert(l[k] == payload[k - key.len()]);
        }
    }
}

proof fn lemma_split_items(ts: Seq<Seq<char>>, suffix: Seq<char>)
    requires
        plain_fields(ts),
    ensures
        split_lines(tag_items(ts) + suffix) == item_lines_of(ts) + split_lines(suffix),
    decreases ts.len(),
{
    lemma_keys_no_nl();
    if ts.len() == 0 {
        assert(tag_items(ts) + suffix =~= suffix);
        assert(item_lines_of(ts) + split_lines(suffix) =~= split_lines(suffix));
    } else {
        let rest = ts.subrange(1, ts.len() as int);
        assert(plain_fields(rest));
        lemma_split_items(rest, suffix);
        assert(no_nl(ts[0]));
        lemma_quoted_no_nl(ts[0]);
        lemma_line_no_nl("  - "@, quoted(ts[0]));
        assert(tag_items(ts) + suffix =~= tag_item_line(ts[0]) + seq!['\n'] + (tag_items(rest)
            + suffix));
        lemma_split_cons(tag_item_line(ts[0]), tag_items(rest) + suffix);
        assert(item_lines_of(ts) =~= seq![tag_item_line(ts[0])] + item_lines_of(rest));
        assert(split_lines(tag_items(ts) + suffix) =~= item_lines_of(ts) + split_lines(
            suffix,
        ));
    }
}

/// The header region of a serialized note splits into exactly the
/// expected lines.
proof fn lemma_split_header(nv: NoteView)
    requires
        representable(nv),
    ensures
        split_lines(
            seq!['\n'] + header_text(nv).subrange(0, header_text(nv).len() - 1),
        ) == header_lines(nv),
{
    lemma_keys_no_nl();
    let h = header_text(nv);
    let l1 = id_line(nv.id);
    let l2 = title_line(nv.title);
    let l4 = created_line(nv.created_at);
    let l5 = updated_line(nv.updated_at);
    let l6 = pinned_line(nv.is_pinned);
    lemma_quoted_no_nl(nv.id);
    lemma_quoted_esc_no_nl(nv.title);
    lemma_quoted_no_nl(nv.created_at);
    lemma_quoted_no_nl(nv.updated_at);
    lemma_line_no_nl("id: "@, quoted(nv.id));
    lemma_line_no_nl("title: "@, quoted_esc(nv.title));
    lemma_line_no_nl("created_at: "@, quoted(nv.created_at));
    lemma_line_no_nl("updated_at: "@, quoted(nv.updated_at));
    lemma_line_no_nl("is_pinned: "@, bool_text(nv.is_pinned));
    let g = seq!['\n'] + h.subrange(0, h.len() - 1);
    let tail3 = line_nl(l4) + line_nl(l5) + l6;
    let tb_part: Seq<char> = if nv.tags.len() == 0 {
        line_nl("tags: []"@)
    } else {
        line_nl("tags:"@) + tag_items(nv.tags)
    };
    assert(g =~= Seq::<char>::empty() + seq!['\n'] + (l1 + seq!['\n'] + (l2 + seq!['\n'] + (
    tb_part + tail3))));
    lemma_split_cons(
        Seq::<char>::empty(),
        l1 + seq!['\n'] + (l2 + seq!['\n'] + (tb_part + tail3)),
    );
    lemma_split_cons(l1, l2 + seq!['\n'] + (tb_part + tail3));
    lemma_split_cons(l2, tb_part + tail3);
    // the last three lines
    assert(tail3 =~= l4 + seq!['\n'] + (l5 + seq!['\n'] + l6));
    lemma_split_cons(l4, l5 + seq!['\n'] + l6);
    lemma_split_cons(l5, l6);
    lemma_split_single(l6);
    assert(split_lines(tail3) =~= seq![l4, l5, l6]);
    if nv.tags.len() == 0 {
        assert(tb_part + tail3 =~= "tags: []"@ + seq!['\n'] + tail3);
        lemma_split_cons("tags: []"@, tail3);
        assert(split_lines(tb_part + tail3) =~= seq!["tags: []"@] + seq![l4, l5, l6]);
        assert(split_lines(g) =~= header_lines(nv));
    } else {
        assert(tb_part + tail3 =~= "tags:"@ + seq!['\n'] + (tag_items(nv.tags) + tail3));
        lemma_split_cons("tags:"@, tag_items(nv.tags) + tail3);
        lemma_split_items(nv.tags, tail3);
        assert(split_lines(tb_part + tail3) =~= seq!["tags:"@] + (item_lines_of(nv.tags)
            + seq![l4, l5, l6]));
        assert(split_lines(g) =~= header_lines(nv));
    }
}

// ---- reading the fields back ----

proof fn lemma_unquote_plain(v: Seq<char>)
    requires
        plain_field(v),
    ensures
        unquote(v + seq!['"']) == v,
    decreases v.len(),
{
    let s = v + seq!['"'];
    if v.len() == 0 {
        assert(s =~= seq!['"']);
        assert(unquote(s) =~= v);
    } else {
        assert(s[0] == v[0] && v[0] != '"' && v[0] != '\\');
        assert(s.subrange(1, s.len() as int) =~= v.subrange(1, v.len() as int) + seq!['"']);
        assert(plain_field(v.subrange(1, v.len() as int)));
        lemma_unquote_plain(v.subrange(1, v.len() as int));
        assert(unquote(s) =~= v);
    }
}

proof fn lemma_unquote_esc(t: Seq<char>)
    requires
        title_field(t),
    ensures
        unquote(esc(t) + seq!['"']) == t,
    decreases t.len(),
{
    let s = esc(t) + seq!['"'];
    if t.len() == 0 {
        assert(s =~= seq!['"']);
        assert(unquote(s) =~= t);
    } else {
        let rest = t.subrange(1, t.len() as int);
        assert(title_field(rest));
        lemma_unquote_esc(rest);
        if t[0] == '"' {
            assert(esc(t) == seq!['\\', '"'] + esc(rest));
            assert(s[0] == '\\' && s[1] == '"');
            assert(s.subrange(2, s.len() as int) =~= esc(rest) + seq!['"']);
            assert(unquote(s) =~= seq!['"'] + rest);
            assert(seq!['"'] + rest =~= t);
        } else {
            assert(esc(t) == seq![t[0]] + esc(rest));
            assert(s[0] == t[0] && t[0] != '\\' && t[0] != '"');
            assert(s.subrange(1, s.len() as int) =~= esc(rest) + seq!['"']);
            assert(unquote(s) =~= seq![t[0]] + rest);
            assert(seq![t[0]] + rest =~= t);
        }
    }
}

/// `field_value` finds the line at index `j` when no earlier line starts
/// with the key.
proof fn lemma_field_value_at(lines: Seq<Seq<char>>, key: Seq<char>, j: int)
    requires
        0 <= j < lines.len(),
        starts_with(lines[j], key),
        forall|k: int| 0 <= k < j ==> !starts_with(#[trigger] lines[k], key),
    ensures
        field_value(lines, key) == Some(
            parse_value(lines[j].subrange(key.len() as int, lines[j].len() as int)),
        ),
    decreases j,
{
    if j == 0 {
    } else {
        let rest = lines.subrange(1, lines.len() as int);
        lemma_field_value_at(rest, key, j - 1);
    }
}

/// A quoted value after a key parses back to the value.
proof fn lemma_line_value_plain(key: Seq<char>, v: Seq<char>)
    requires
        plain_field(v),
    ensures
        parse_value((key + quoted(v)).subrange(key.len() as int, (key + quoted(v)).len() as int))
            == v,
{
    let l = key + quoted(v);
    assert(l.subrange(key.len() as int, l.len() as int) =~= quoted(v));
    assert(quoted(v)[0] == '"');
    assert(quoted(v).subrange(1, quoted(v).len() as int) =~= v + seq!['"']);
    lemma_unquote_plain(v);
}

proof fn lemma_line_value_esc(key: Seq<char>, t: Seq<char>)
    requires
        title_field(t),
    ensures
        parse_value(
            (key + quoted_esc(t)).subrange(key.len() as int, (key + quoted_esc(t)).len() as int),
        ) == t,
{
    let l = key + quoted_esc(t);
    assert(l.subrange(key.len() as int, l.len() as int) =~= quoted_esc(t));
    assert(quoted_esc(t)[0] == '"');
    assert(quoted_esc(t).subrange(1, quoted_esc(t).len() as int) =~= esc(t) + seq!['"']);
    lemma_unquote_esc(t);
}

/// The items of a serialized tags block parse back to the tag list; the
/// following line stops the scan.
proof fn lemma_items_parse(ts: Seq<Seq<char>>, rest: Seq<Seq<char>>)
    requires
        plain_fields(ts),
        rest.len() > 0,
        !starts_with(rest[0], "  - "@),
    ensures
        tag_items_of(item_lines_of(ts) + rest) == ts,
    decreases ts.len(),
{
    lemma_keys_no_nl();
    let all = item_lines_of(ts) + rest;
    if ts.len() == 0 {
        assert(all =~= rest);
        assert(tag_items_of(all) =~= ts);
    } else {
        let t0 = ts[0];
        let l0 = tag_item_line(t0);
        assert(all[0] == l0);
        assert(starts_with(l0, "  - "@)) by {
            assert(l0.subrange(0, 4) =~= "  - "@);
        }
        lemma_line_value_plain("  - "@, t0);
        assert(parse_value(l0.subrange(4, l0.len() as int)) == t0);
        let ts1 = ts.subrange(1, ts.len() as int);
        assert(all.subrange(1, all.len() as int) =~= item_lines_of(ts1) + rest);
        lemma_items_parse(ts1, rest);
        assert(tag_items_of(all) =~= seq![t0] + ts1);
        assert(seq![t0] + ts1 =~= ts);
    }
}

/// Reading every field out of the header lines of a serialized note.
proof fn lemma_header_fields(nv: NoteView)
    requires
        representable(nv),
    ensures
        header_fm(seq!['\n'] + header_text(nv).subrange(0, header_text(nv).len() - 1))
            == (FmView {
            id: Some(nv.id),
            title: Some(nv.title),
            tags: nv.tags,
            created_at: Some(nv.created_at),
            updated_at: Some(nv.updated_at),
            is_pinned: nv.is_pinned,
        }),
{
    lemma_keys_no_nl();
    lemma_split_header(nv);
    let lines = header_lines(nv);
    let tlen: int = if nv.tags.len() == 0 {
        1
    } else {
        1 + nv.tags.len() as int
    };
    let l1 = id_line(nv.id);
    let l2 = title_line(nv.title);
    let l4 = created_line(nv.created_at);
    let l5 = updated_line(nv.updated_at);
    let l6 = pinned_line(nv.is_pinned);
    assert(lines.len() == 6 + tlen);
    assert(lines[0] == Seq::<char>::empty());
    assert(lines[1] == l1);
    assert(lines[2] == l2);
    assert(lines[3 + tlen] == l4);
    assert(lines[4 + tlen] == l5);
    assert(lines[5 + tlen] == l6);

    // every line's first character, for telling keys apart
    assert(l1[0] == 'i' && l1[1] == 'd');
    assert(l2[0] == 't' && l2[1] == 'i');
    assert(l4[0] == 'c');
    assert(l5[0] == 'u');
    assert(l6[0] == 'i' && l6[1] == 's');
    assert forall|x: int| 0 <= x < nv.tags.len() implies (#[trigger] item_lines_of(
        nv.tags,
    )[x])[0] == ' ' by {
        assert(item_lines_of(nv.tags)[x] == tag_item_line(nv.tags[x]));
    }

    // id
    assert(starts_with(l1, "id: "@)) by {
        assert(l1.subrange(0, 4) =~= "id: "@);
    }
    assert(!starts_with(lines[0], "id: "@));
    lemma_field_value_at(lines, "id: "@, 1);
    lemma_line_value_plain("id: "@, nv.id);

    // title
    assert(starts_with(l2, "title: "@)) by {
        assert(l2.subrange(0, 7) =~= "title: "@);
    }
    assert(!starts_with(lines[0], "title: "@));
    assert(!starts_with(l1, "title: "@)) by {
        if starts_with(l1, "title: "@) {
            assert(l1.subrange(0, 7)[0] == l1[0]);
        }
    }
    lemma_field_value_at(lines, "title: "@, 2);
    lemma_line_value_esc("title: "@, nv.title);

    // created_at
    assert(starts_with(l4, "created_at: "@)) by {
        assert(l4.subrange(0, 12) =~= "created_at: "@);
    }
    assert forall|k: int| 0 <= k < 3 + tlen implies !starts_with(
        #[trigger] lines[k],
        "created_at: "@,
    ) by {
        if k > 0 && starts_with(lines[k], "created_at: "@) {
            assert(lines[k].subrange(0, 12)[0] == lines[k][0]);
            assert(lines[k][0] == 'c');
            if k == 1 || k == 2 {
            } else if k == 3 {
                if nv.tags.len() == 0 {
                    assert(lines[3] == "tags: []"@);
                } else {
                    assert(lines[3] == "tags:"@);
                }
            } else {
                assert(lines[k] == item_lines_of(nv.tags)[k - 4]);
            }
        }
    }
    lemma_field_value_at(lines, "created_at: "@, 3 + tlen);
    lemma_line_value_plain("created_at: "@, nv.created_at);

    // updated_at
    assert(starts_with(l5, "updated_at: "@)) by {
        assert(l5.subrange(0, 12) =~= "updated_at: "@);
    }
    assert forall|k: int| 0 <= k < 4 + tlen implies !starts_with(
        #[trigger] lines[k],
        "updated_at: "@,
    ) by {
        if k > 0 && starts_with(lines[k], "updated_at: "@) {
            assert(lines[k].subrange(0, 12)[0] == lines[k][0]);
            assert(lines[k][0] == 'u');
            if k == 1 || k == 2 {
            } else if k == 3 {
                if nv.tags.len() == 0 {
                    assert(lines[3] == "tags: []"@);
                } else {
                    assert(lines[3] == "tags:"@);
                }
            } else if k < 3 + tlen {
                assert(lines[k] == item_lines_of(nv.tags)[k - 4]);
            } else {
                assert(lines[k] == l4);
            }
        }
    }
    lemma_field_value_at(lines, "updated_at: "@, 4 + tlen);
    lemma_line_value_plain("updated_at: "@, nv.updated_at);

    // is_pinned
    assert(starts_with(l6, "is_pinned: "@)) by {
        assert(l6.subrange(0, 11) =~= "is_pinned: "@);
    }
    assert forall|k: int| 0 <= k < 5 + tlen implies !starts_with(
        #[trigger] lines[k],
        "is_pinned: "@,
    ) by {
        if k > 0 && starts_with(lines[k], "is_pinned: "@) {
            assert(lines[k].subrange(0, 11)[0] == lines[k][0]);
            assert(lines[k].subrange(0, 11)[1] == lines[k][1]);
            assert(lines[k][0] == 'i' && lines[k][1] == 's');
            if k == 1 {
                assert(l1[1] == 'd');
            } else if k == 2 {
            } else if k == 3 {
                if nv.tags.len() == 0 {
                    assert(lines[3] == "tags: []"@);
                } else {
                    assert(lines[3] == "tags:"@);
                }
            } else if k < 3 + tlen {
                assert(lines[k] == item_lines_of(nv.tags)[k - 4]);
            } else {
            }
        }
    }
    lemma_field_value_at(lines, "is_pinned: "@, 5 + tlen);
    assert(l6.subrange(11, l6.len() as int) =~= bool_text(nv.is_pinned));
    assert(bool_text(nv.is_pinned)[0] != '"');
    assert(parse_value(bool_text(nv.is_pinned)) == bool_text(nv.is_pinned));
    assert((bool_text(nv.is_pinned) == "true"@) == nv.is_pinned) by {
        if nv.is_pinned {
        } else {
            assert("false"@.len() != "true"@.len());
        }
    }

    // tags
    assert(lines[0] != "tags:"@ && !starts_with(lines[0], "tags:"@));
    assert(!starts_with(l1, "tags:"@) && l1 != "tags:"@) by {
        if starts_with(l1, "tags:"@) {
            assert(l1.subrange(0, 5)[0] == l1[0]);
        }
    }
    assert(!starts_with(l2, "tags:"@) && l2 != "tags:"@) by {
        if starts_with(l2, "tags:"@) {
            assert(l2.subrange(0, 5)[1] == l2[1]);
        }
    }
    if nv.tags.len() == 0 {
        assert(lines[3] == "tags: []"@);
        assert(lines[3] != "tags:"@);
        assert(starts_with(lines[3], "tags:"@)) by {
            assert("tags: []"@.subrange(0, 5) =~= "tags:"@);
        }
        lemma_tags_walk(lines, 3, Seq::empty());
        assert(tags_of_lines(lines) == nv.tags);
    } else {
        assert(lines[3] == "tags:"@);
        let after = lines.subrange(4, lines.len() as int);
        assert(after =~= item_lines_of(nv.tags) + seq![l4, l5, l6]);
        assert(!starts_with(l4, "  - "@)) by {
            if starts_with(l4, "  - "@) {
                assert(l4.subrange(0, 4)[0] == l4[0]);
            }
        }
        lemma_items_parse(nv.tags, seq![l4, l5, l6]);
        lemma_tags_walk(lines, 3, nv.tags);
    }
    let g = seq!['\n'] + header_text(nv).subrange(0, header_text(nv).len() - 1);
    assert(split_lines(g) == lines);
    let got = header_fm(g);
    assert(got.id == Some(nv.id));
    assert(got.title == Some(nv.title));
    assert(got.tags == nv.tags);
    assert(got.created_at == Some(nv.created_at));
    assert(got.updated_at == Some(nv.updated_at));
    assert(got.is_pinned == nv.is_pinned);
}

/// `tags_of_lines` walks to the first `tags:`-prefixed line.
proof fn lemma_tags_walk(lines: Seq<Seq<char>>, j: int, expect: Seq<Seq<char>>)
    requires
        0 <= j < lines.len(),
        forall|k: int|
            0 <= k < j ==> (#[trigger] lines[k]) != "tags:"@ && !starts_with(lines[k], "tags:"@),
        (lines[j] == "tags:"@ && tag_items_of(lines.subrange(j + 1, lines.len() as int))
            == expect) || (lines[j] != "tags:"@ && starts_with(lines[j], "tags:"@) && expect
            == Seq::<Seq<char>>::empty()),
    ensures
        tags_of_lines(lines) == expect,
    decreases j,
{
    if j == 0 {
        if lines[0] == "tags:"@ {
            let one: int = 1;
            assert(lines.subrange(1, lines.len() as int) == lines.subrange(
                one,
                lines.len() as int,
            ));
        }
    } else {
        let rest = lines.subrange(1, lines.len() as int);
        assert(rest[j - 1] == lines[j]);
        assert(rest.subrange(j - 1 + 1, rest.len() as int) =~= lines.subrange(
            j + 1,
            lines.len() as int,
        ));
        lemma_tags_walk(rest, j - 1, expect);
    }
}

/// Parsing inverts serialization: for any note whose fields are
/// representable in the file format, the parsed header carries exactly
/// the serialized fields and the body comes back verbatim.
pub proof fn lemma_round_trip(nv: NoteView)
    requires
        representable(nv),
    ensures
        parse_spec(serialize_spec(nv)) == Some(
            (
                FmView {
                    id: Some(nv.id),
                    title: Some(nv.title),
                    tags: nv.tags,
                    created_at: Some(nv.created_at),
                    updated_at: Some(nv.updated_at),
                    is_pinned: nv.is_pinned,
                },
                nv.content,
            ),
        ),
{
    reveal(parse_spec);
    reveal(serialize_spec);
    lemma_find_close(nv);
    let s = serialize_spec(nv);
    let h = header_text(nv);
    let p = h.len() as int;
    let rest = s.subrange(3, s.len() as int);
    assert(rest =~= seq!['\n'] + h + line_nl(dashes()) + nv.content);
    assert(rest.subrange(0, p) =~= seq!['\n'] + h.subrange(0, h.len() - 1)) by {
        lemma_header_chunk(nv);
    }
    assert(rest.subrange(p + 5, rest.len() as int) =~= nv.content);
    lemma_header_fields(nv);
}

} // verus!
