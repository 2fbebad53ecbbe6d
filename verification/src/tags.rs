//! Hierarchical tag extraction from markdown bodies.
//!
//! A tag is written `#name` where `name` is one or more word runs
//! (`[A-Za-z0-9_]+`) joined by `/`. Text inside fenced code blocks
//! (` ``` `...` ``` `) is ignored; inline code spans are not.
use vstd::prelude::*;
use crate::text::{
    find_sub_from, lemma_find_sub_from_none, lemma_find_sub_from_some, lex_le, lex_lt,
    lemma_lex_le_antisym, lemma_lex_le_refl, lemma_lex_le_total, lemma_lex_le_trans,
    lex_le_exec, match_at, rfind_char_upto, slice_chars, str_eq, to_char_vec, from_char_vec,
};

verus! {

pub open spec fn is_word_char(c: char) -> bool {
    (('a' as int) <= (c as int) <= ('z' as int)) || (('A' as int) <= (c as int) <= (
    'Z' as int)) || (('0' as int) <= (c as int) <= ('9' as int)) || c == '_'
}

pub fn is_word_char_exec(c: char) -> (r: bool)
    ensures
        r == is_word_char(c),
{
    ('a' <= c && c <= 'z') || ('A' <= c && c <= 'Z') || ('0' <= c && c <= '9') || c == '_'
}

/// The first index at or after `j` that is past the end or holds a
/// non-word character.
pub open spec fn word_end(s: Seq<char>, j: int) -> int
    decreases s.len() - j,
{
    if j < 0 || j >= s.len() || !is_word_char(s[j]) {
        j
    } else {
        word_end(s, j + 1)
    }
}

pub proof fn lemma_word_end_props(s: Seq<char>, j: int)
    requires
        0 <= j <= s.len(),
    ensures
        j <= word_end(s, j) <= s.len(),
        forall|k: int| j <= k < word_end(s, j) ==> is_word_char(#[trigger] s[k]),
        word_end(s, j) < s.len() ==> !is_word_char(s[word_end(s, j)]),
    decreases s.len() - j,
{
    if j < 0 || j >= s.len() || !is_word_char(s[j]) {
    } else {
        lemma_word_end_props(s, j + 1);
    }
}

/// The end of the tag name whose first word run starts at `j`: word runs
/// joined by `/`, taken greedily.
pub open spec fn tag_name_end(s: Seq<char>, j: int) -> int
    decreases s.len() - j,
    via tag_name_end_decreases
{
    if !(0 <= j < s.len() && is_word_char(s[j])) {
        j
    } else {
        let e = word_end(s, j);
        if e < s.len() && s[e] == '/' && e + 1 < s.len() && is_word_char(s[e + 1]) {
            tag_name_end(s, e + 1)
        } else {
            e
        }
    }
}

#[via_fn]
proof fn tag_name_end_decreases(s: Seq<char>, j: int) {
    if 0 <= j < s.len() && is_word_char(s[j]) {
        lemma_word_end_props(s, j);
    }
}

/// Every character of a tag name is a word character or `/`, and the name
/// ends within the sequence.
pub proof fn lemma_tag_name_chars(s: Seq<char>, j: int)
    requires
        0 <= j < s.len(),
        is_word_char(s[j]),
    ensures
        j < tag_name_end(s, j) <= s.len(),
        forall|k: int|
            j <= k < tag_name_end(s, j) ==> (is_word_char(#[trigger] s[k]) || s[k] == '/'),
    decreases s.len() - j,
{
    lemma_word_end_props(s, j);
    let e = word_end(s, j);
    if e < s.len() && s[e] == '/' && e + 1 < s.len() && is_word_char(s[e + 1]) {
        lemma_tag_name_chars(s, e + 1);
    }
}

/// A `#` that begins a tag.
pub open spec fn is_tag_start(s: Seq<char>, i: int) -> bool {
    0 <= i && i + 1 < s.len() && s[i] == '#' && is_word_char(s[i + 1])
}

/// The tag name captured by the tag starting at `i`.
pub open spec fn tag_at(s: Seq<char>, i: int) -> Seq<char> {
    s.subrange(i + 1, tag_name_end(s, i + 1))
}

/// `t` is one of the tags of `s` (fenced code already removed).
pub open spec fn is_tag_of(s: Seq<char>, t: Seq<char>) -> bool {
    exists|i: int| is_tag_start(s, i) && tag_at(s, i) == t
}

pub open spec fn fence_pat() -> Seq<char> {
    seq!['`', '`', '`']
}

/// `s` with every fenced code block removed: each ` ``` ` opener paired
/// with the nearest closing ` ``` ` is dropped together with its contents;
/// an unclosed opener is kept as ordinary text.
pub open spec fn strip_fences(s: Seq<char>) -> Seq<char>
    decreases s.len(),
    via strip_fences_decreases
{
    match find_sub_from(s, fence_pat(), 0) {
        Option::None => s,
        Option::Some(o) => match find_sub_from(s, fence_pat(), o + 3) {
            Option::None => s,
            Option::Some(c) => s.subrange(0, o) + strip_fences(
                s.subrange(c + 3, s.len() as int),
            ),
        },
    }
}

#[via_fn]
proof fn strip_fences_decreases(s: Seq<char>) {
    match find_sub_from(s, fence_pat(), 0) {
        Option::None => {}
        Option::Some(o) => {
            lemma_find_sub_from_some(s, fence_pat(), 0, o);
            match find_sub_from(s, fence_pat(), o + 3) {
                Option::None => {}
                Option::Some(c) => {
                    lemma_find_sub_from_some(s, fence_pat(), o + 3, c);
                }
            }
        }
    }
}

/// A body with no ` ``` ` at all is left unchanged by fence stripping.
pub proof fn lemma_strip_fences_no_fence(s: Seq<char>)
    requires
        find_sub_from(s, fence_pat(), 0) is None,
    ensures
        strip_fences(s) == s,
{
}

/// Occurrences of `pat` within the suffix `s[i..]` are exactly the
/// occurrences of `pat` in `s` from `i + f` on, shifted by `i`.
pub proof fn lemma_find_sub_suffix(s: Seq<char>, pat: Seq<char>, i: int, f: int)
    requires
        0 <= i <= s.len(),
        0 <= f,
        pat.len() > 0,
    ensures
        match find_sub_from(s, pat, i + f) {
            Option::Some(p) => find_sub_from(s.subrange(i, s.len() as int), pat, f) == Some(
                p - i,
            ),
            Option::None => find_sub_from(s.subrange(i, s.len() as int), pat, f) is None,
        },
{
    let suf = s.subrange(i, s.len() as int);
    assert forall|k: int| 0 <= k implies match_at(suf, pat, k) == match_at(s, pat, i + k) by {
        if k + pat.len() <= suf.len() {
            assert(suf.subrange(k, k + pat.len() as int) =~= s.subrange(
                i + k,
                i + k + pat.len() as int,
            ));
        }
    }
    match find_sub_from(s, pat, i + f) {
        Option::Some(p) => {
            lemma_find_sub_from_some(s, pat, i + f, p);
            assert(match_at(s, pat, p));
            assert(p - i < suf.len());
            assert(match_at(suf, pat, p - i));
            lemma_find_sub_from_complete(suf, pat, f, p - i);
            let q = find_sub_from(suf, pat, f)->0;
            lemma_find_sub_from_some(suf, pat, f, q);
            assert(match_at(s, pat, i + q));
            assert(q >= p - i);
            assert(find_sub_from(suf, pat, f) == Some(p - i));
        }
        Option::None => {
            lemma_find_sub_from_none(s, pat, i + f);
            if find_sub_from(suf, pat, f) is Some {
                let q = find_sub_from(suf, pat, f)->0;
                lemma_find_sub_from_some(suf, pat, f, q);
                assert(match_at(s, pat, i + q));
            }
        }
    }
}

/// If the pattern matches somewhere at or after `from`, the search finds
/// an occurrence no later than it.
pub proof fn lemma_find_sub_from_complete(s: Seq<char>, pat: Seq<char>, from: int, m: int)
    requires
        0 <= from <= m,
        pat.len() > 0,
        match_at(s, pat, m),
    ensures
        find_sub_from(s, pat, from) is Some,
        find_sub_from(s, pat, from)->0 <= m,
    decreases m - from,
{
    if from + pat.len() > s.len() {
        assert(false);
    } else if match_at(s, pat, from) {
    } else {
        lemma_find_sub_from_complete(s, pat, from + 1, m);
    }
}

/// Append `v[from..to]` to `out`.
fn push_range(out: &mut Vec<char>, v: &Vec<char>, from: usize, to: usize)
    requires
        from <= to <= v@.len(),
    ensures
        final(out)@ == old(out)@ + v@.subrange(from as int, to as int),
{
    let mut i: usize = from;
    while i < to
        invariant
            from <= i <= to <= v@.len(),
            out@ =~= old(out)@ + v@.subrange(from as int, i as int),
        decreases to - i,
    {
        out.push(v[i]);
        i = i + 1;
    }
    assert(out@ =~= old(out)@ + v@.subrange(from as int, to as int));
}

/// `v` with every fenced code block removed, as `strip_fences`.
pub fn strip_fences_exec(v: &Vec<char>) -> (r: Vec<char>)
    ensures
        r@ == strip_fences(v@),
{
    let n: usize = v.len();
    let mut fence: Vec<char> = Vec::new();
    fence.push('`');
    fence.push('`');
    fence.push('`');
    assert(fence@ =~= fence_pat());
    let mut out: Vec<char> = Vec::new();
    let mut i: usize = 0;
    proof {
        assert(v@.subrange(0, n as int) =~= v@);
        assert(out@ + strip_fences(v@) =~= strip_fences(v@));
    }
    loop
        invariant
            n == v@.len(),
            fence@ == fence_pat(),
            i <= n,
            strip_fences(v@) == out@ + strip_fences(v@.subrange(i as int, n as int)),
        decreases n - i,
    {
        let ghost suf = v@.subrange(i as int, n as int);
        match crate::text::find_sub(v, &fence, i) {
            Option::None => {
                proof {
                    lemma_find_sub_suffix(v@, fence_pat(), i as int, 0);
                }
                assert(strip_fences(suf) == suf);
                push_range(&mut out, v, i, n);
                assert(out@ =~= strip_fences(v@));
                return out;
            }
            Option::Some(o) => {
                proof {
                    lemma_find_sub_from_some(v@, fence_pat(), i as int, o as int);
                    lemma_find_sub_suffix(v@, fence_pat(), i as int, 0);
                    assert(find_sub_from(suf, fence_pat(), 0) == Some(o - i));
                }
                match crate::text::find_sub(v, &fence, o + 3) {
                    Option::None => {
                        proof {
                            lemma_find_sub_suffix(v@, fence_pat(), i as int, (o - i) + 3);
                        }
                        assert(strip_fences(suf) == suf);
                        push_range(&mut out, v, i, n);
                        assert(out@ =~= strip_fences(v@));
                        return out;
                    }
                    Option::Some(c) => {
                        proof {
                            lemma_find_sub_from_some(v@, fence_pat(), o + 3, c as int);
                            lemma_find_sub_suffix(v@, fence_pat(), i as int, (o - i) + 3);
                            assert(find_sub_from(suf, fence_pat(), (o - i) + 3) == Some(
                                c - i,
                            ));
                            assert(strip_fences(suf) == suf.subrange(0, o - i)
                                + strip_fences(suf.subrange(c - i + 3, suf.len() as int)));
                            assert(suf.subrange(0, o - i) =~= v@.subrange(i as int, o as int));
                            assert(suf.subrange(c - i + 3, suf.len() as int) =~= v@.subrange(
                                c + 3,
                                n as int,
                            ));
                        }
                        push_range(&mut out, v, i, o);
                        i = c + 3;
                        assert(strip_fences(v@) == out@ + strip_fences(
                            v@.subrange(i as int, n as int),
                        ));
                    }
                }
            }
        }
    }
}

/// The end of the word run starting at `j`.
fn word_end_exec(v: &Vec<char>, j: usize) -> (r: usize)
    requires
        j <= v@.len(),
    ensures
        r == word_end(v@, j as int),
        j <= r <= v@.len(),
{
    let n: usize = v.len();
    let mut e: usize = j;
    while e < n && is_word_char_exec(v[e])
        invariant
            n == v@.len(),
            j <= e <= n,
            word_end(v@, j as int) == word_end(v@, e as int),
        decreases n - e,
    {
        e = e + 1;
    }
    e
}

/// The end of the tag name starting at `j`.
fn tag_name_end_exec(v: &Vec<char>, j: usize) -> (r: usize)
    requires
        j < v@.len(),
        is_word_char(v@[j as int]),
    ensures
        r == tag_name_end(v@, j as int),
        j < r <= v@.len(),
{
    let n: usize = v.len();
    let mut cur: usize = j;
    loop
        invariant
            n == v@.len(),
            j <= cur < n,
            is_word_char(v@[cur as int]),
            tag_name_end(v@, j as int) == tag_name_end(v@, cur as int),
        decreases n - cur,
    {
        proof {
            lemma_word_end_props(v@, cur as int);
            lemma_tag_name_chars(v@, cur as int);
        }
        let e = word_end_exec(v, cur);
        if e < n && v[e] == '/' && e + 1 < n && is_word_char_exec(v[e + 1]) {
            cur = e + 1;
        } else {
            return e;
        }
    }
}

pub open spec fn str_seq_has(sv: Seq<String>, t: Seq<char>) -> bool {
    exists|j: int| 0 <= j < sv.len() && sv[j]@ == t
}

pub open spec fn strict_sorted(sv: Seq<String>) -> bool {
    forall|i: int, j: int| 0 <= i < j < sv.len() ==> lex_lt(#[trigger] sv[i]@, #[trigger] sv[j]@)
}

/// Insert `t` into the sorted vector `out` unless it is already present.
fn insert_tag(out: &mut Vec<String>, t: String)
    requires
        strict_sorted(old(out)@),
    ensures
        strict_sorted(final(out)@),
        forall|u: Seq<char>|
            str_seq_has(final(out)@, u) == (str_seq_has(old(out)@, u) || u == t@),
{
    let mut p: usize = 0;
    while p < out.len() && !lex_le_exec(t.as_str(), out[p].as_str())
        invariant
            strict_sorted(out@),
            out@ == old(out)@,
            p <= out@.len(),
            forall|j: int| 0 <= j < p ==> lex_lt(#[trigger] out@[j]@, t@),
        decreases out@.len() - p,
    {
        proof {
            lemma_lex_le_total(t@, out@[p as int]@);
            if out@[p as int]@ == t@ {
                lemma_lex_le_refl(t@);
            }
        }
        p = p + 1;
    }
    if p < out.len() && str_eq(t.as_str(), out[p].as_str()) {
        proof {
            assert(str_seq_has(out@, t@));
            assert(forall|u: Seq<char>|
                str_seq_has(out@, u) == (str_seq_has(old(out)@, u) || u == t@));
        }
        return;
    }
    proof {
        if p < out@.len() {
            assert(lex_le(t@, out@[p as int]@));
        }
    }
    let ghost prev = out@;
    out.insert(p, t);
    proof {
        assert forall|i: int, j: int| 0 <= i < j < out@.len() implies lex_lt(
            #[trigger] out@[i]@,
            #[trigger] out@[j]@,
        ) by {
            if j < p {
                assert(out@[i]@ == prev[i]@ && out@[j]@ == prev[j]@);
            } else if i > p {
                assert(out@[i]@ == prev[i - 1]@ && out@[j]@ == prev[j - 1]@);
            } else if j == p {
                assert(out@[i]@ == prev[i]@ && out@[j]@ == t@);
            } else if i == p {
                // out[j] comes from prev[j - 1], which t precedes
                assert(out@[j]@ == prev[j - 1]@);
                assert(lex_le(t@, prev[p as int]@));
                if j - 1 > p {
                    assert(lex_lt(prev[p as int]@, prev[j - 1]@));
                    lemma_lex_le_trans(t@, prev[p as int]@, prev[j - 1]@);
                    if t@ == prev[j - 1]@ {
                        lemma_lex_le_antisym(prev[p as int]@, prev[j - 1]@);
                    }
                } else {
                    assert(t@ != prev[p as int]@);
                }
            } else if i < p && j > p {
                assert(out@[i]@ == prev[i]@ && out@[j]@ == prev[j - 1]@);
            }
        }
        assert forall|u: Seq<char>|
            str_seq_has(out@, u) == (str_seq_has(prev, u) || u == t@) by {
            if str_seq_has(prev, u) {
                let j = choose|j: int| 0 <= j < prev.len() && prev[j]@ == u;
                if j < p {
                    assert(out@[j]@ == u);
                } else {
                    assert(out@[j + 1]@ == u);
                }
            }
            if u == t@ {
                assert(out@[p as int]@ == u);
            }
            if str_seq_has(out@, u) {
                let j = choose|j: int| 0 <= j < out@.len() && out@[j]@ == u;
                if j < p {
                    assert(prev[j]@ == u);
                } else if j == p {
                } else {
                    assert(prev[j - 1]@ == u);
                }
            }
        }
        assert(prev == old(out)@);
        assert(forall|u: Seq<char>|
            str_seq_has(out@, u) == (str_seq_has(old(out)@, u) || u == t@));
    }
}

/// Extract the tags of a markdown body: every `#name` match outside fenced
/// code blocks, sorted and de-duplicated.
pub fn extract_tags(content: &str) -> (r: Vec<String>)
    ensures
        strict_sorted(r@),
        forall|t: Seq<char>| str_seq_has(r@, t) == is_tag_of(strip_fences(content@), t),
{
    let raw = to_char_vec(content);
    let v = strip_fences_exec(&raw);
    let n: usize = v.len();
    let mut out: Vec<String> = Vec::new();
    let mut i: usize = 0;
    while i < n
        invariant
            n == v@.len(),
            v@ == strip_fences(content@),
            i <= n,
            strict_sorted(out@),
            forall|t: Seq<char>|
                str_seq_has(out@, t) == exists|k: int|
                    k < i && is_tag_start(v@, k) && tag_at(v@, k) == t,
        decreases n - i,
    {
        if v[i] == '#' && i + 1 < n && is_word_char_exec(v[i + 1]) {
            let e = tag_name_end_exec(&v, i + 1);
            let name_chars = slice_chars(&v, i + 1, e);
            let name = from_char_vec(&name_chars);
            assert(name@ == tag_at(v@, i as int));
            insert_tag(&mut out, name);
            proof {
                assert(is_tag_start(v@, i as int));
                assert forall|t: Seq<char>|
                    str_seq_has(out@, t) == exists|k: int|
                        k < i + 1 && is_tag_start(v@, k) && tag_at(v@, k) == t by {
                    if str_seq_has(out@, t) {
                        if t == tag_at(v@, i as int) {
                            assert(is_tag_start(v@, i as int) && tag_at(v@, i as int) == t);
                        }
                    }
                }
            }
        } else {
            proof {
                assert(!is_tag_start(v@, i as int));
                assert forall|k: int| k < i + 1 && is_tag_start(v@, k) implies k < i by {}
            }
        }
        i = i + 1;
    }
    proof {
        assert forall|t: Seq<char>|
            str_seq_has(out@, t) == is_tag_of(strip_fences(content@), t) by {
            if is_tag_of(v@, t) {
                let k = choose|k: int| is_tag_start(v@, k) && tag_at(v@, k) == t;
                assert(k < n);
            }
        }
    }
    out
}

/// A tag name holds only word characters and `/`, so it is free of
/// newlines, quotes and backslashes.
pub proof fn lemma_tag_of_plain(s: Seq<char>, t: Seq<char>)
    requires
        is_tag_of(s, t),
    ensures
        crate::note::plain_field(t),
{
    let i = choose|i: int| is_tag_start(s, i) && tag_at(s, i) == t;
    lemma_tag_name_chars(s, i + 1);
    assert forall|k: int| 0 <= k < t.len() implies (#[trigger] t[k]) != '\n' && t[k] != '"'
        && t[k] != '\\' by {
        assert(t[k] == s[i + 1 + k]);
        assert(is_word_char(s[i + 1 + k]) || s[i + 1 + k] == '/');
    }
}

/// A strictly sorted list holding exactly the tags of `body` (fenced code
/// removed).
pub open spec fn canonical_tags(ts: Seq<Seq<char>>, body: Seq<char>) -> bool {
    &&& (forall|i: int, j: int|
        0 <= i < j < ts.len() ==> lex_lt(#[trigger] ts[i], #[trigger] ts[j]))
    &&& (forall|t: Seq<char>|
        #[trigger] crate::text::seq_has(ts, t) == is_tag_of(strip_fences(body), t))
}

/// The canonical tag list of a body: the one strictly sorted list holding
/// exactly its tags.
pub open spec fn tag_seq_of(body: Seq<char>) -> Seq<Seq<char>> {
    choose|ts: Seq<Seq<char>>| canonical_tags(ts, body)
}

/// There is at most one canonical tag list, so any one found is the
/// canonical one.
pub proof fn lemma_canonical_unique(ts: Seq<Seq<char>>, body: Seq<char>)
    requires
        canonical_tags(ts, body),
    ensures
        ts == tag_seq_of(body),
{
    assert(canonical_tags(tag_seq_of(body), body)) by {
        assert(exists|ts2: Seq<Seq<char>>| canonical_tags(ts2, body));
    }
    crate::text::lemma_lex_sorted_unique(ts, tag_seq_of(body));
}

/// The parent of a hierarchical tag: the prefix before the last `/`,
/// or nothing for a leaf tag.
pub open spec fn parent_tag_spec(tag: Seq<char>) -> Option<Seq<char>> {
    match rfind_char_upto(tag, '/', tag.len() - 1) {
        Option::None => None,
        Option::Some(p) => Some(tag.subrange(0, p)),
    }
}

/// For a tag like `work/projects`, return the parent `work`.
pub fn get_parent_tag(tag: &str) -> (r: Option<String>)
    ensures
        match r {
            Option::Some(p) => parent_tag_spec(tag@) == Some(p@),
            Option::None => parent_tag_spec(tag@) is None,
        },
{
    let v = to_char_vec(tag);
    let n: usize = v.len();
    let mut i: usize = n;
    while i > 0
        invariant
            n == v@.len(),
            v@ == tag@,
            i <= n,
            rfind_char_upto(tag@, '/', (n as int) - 1) == rfind_char_upto(
                tag@,
                '/',
                (i as int) - 1,
            ),
        decreases i,
    {
        if v[i - 1] == '/' {
            let chars = slice_chars(&v, 0, i - 1);
            let p = from_char_vec(&chars);
            return Some(p);
        }
        i = i - 1;
    }
    None
}

} // verus!
