//! Character-level utilities shared by the codec, the tag extractor and the
//! catalog: substring search, line splitting, lexicographic order and
//! conversions between `String` and `Vec<char>`.
use vstd::prelude::*;

verus! {

/// Relies on `String::push`: appends the given character to the end of the
/// string, leaving the earlier characters unchanged.
pub assume_specification[ String::push ](s: &mut String, c: char)
    ensures
        final(s)@ == old(s)@.push(c),
;

/// True when `pat` occurs in `s` starting at index `i`.
pub open spec fn match_at(s: Seq<char>, pat: Seq<char>, i: int) -> bool {
    0 <= i && i + pat.len() <= s.len() && s.subrange(i, i + pat.len() as int) == pat
}

/// Index of the first occurrence of `pat` in `s` at or after `from`,
/// or `None` when there is none (the empty pattern never occurs).
pub open spec fn find_sub_from(s: Seq<char>, pat: Seq<char>, from: int) -> Option<int>
    decreases s.len() - from,
{
    if pat.len() == 0 || from < 0 || from + pat.len() > s.len() {
        None
    } else if match_at(s, pat, from) {
        Some(from)
    } else {
        find_sub_from(s, pat, from + 1)
    }
}

/// Index of the first occurrence of the character `c` at or after `from`.
pub open spec fn find_char_from(s: Seq<char>, c: char, from: int) -> Option<int>
    decreases s.len() - from,
{
    if from < 0 || from >= s.len() {
        None
    } else if s[from] == c {
        Some(from)
    } else {
        find_char_from(s, c, from + 1)
    }
}

/// Index of the last occurrence of `c` at or before `i`.
pub open spec fn rfind_char_upto(s: Seq<char>, c: char, i: int) -> Option<int>
    decreases i + 1,
{
    if i < 0 || i >= s.len() {
        None
    } else if s[i] == c {
        Some(i)
    } else {
        rfind_char_upto(s, c, i - 1)
    }
}

/// When `find_char_from` finds an index, the index is in range, holds the
/// character, and nothing earlier does.
pub proof fn lemma_find_char_from_some(s: Seq<char>, c: char, from: int, i: int)
    requires
        find_char_from(s, c, from) == Some(i),
    ensures
        from <= i < s.len(),
        s[i] == c,
        forall|k: int| from <= k < i ==> s[k] != c,
    decreases s.len() - from,
{
    if from < 0 || from >= s.len() {
    } else if s[from] == c {
    } else {
        lemma_find_char_from_some(s, c, from + 1, i);
    }
}

/// When `find_char_from` finds nothing, the character does not occur at or
/// after `from`.
pub proof fn lemma_find_char_from_none(s: Seq<char>, c: char, from: int)
    requires
        from >= 0,
        find_char_from(s, c, from) is None,
    ensures
        forall|k: int| from <= k < s.len() ==> s[k] != c,
    decreases s.len() - from,
{
    if from >= s.len() {
    } else if s[from] == c {
    } else {
        lemma_find_char_from_none(s, c, from + 1);
    }
}

/// When `find_sub_from` finds an index, the pattern matches there and at no
/// earlier position from `from` on.
pub proof fn lemma_find_sub_from_some(s: Seq<char>, pat: Seq<char>, from: int, i: int)
    requires
        find_sub_from(s, pat, from) == Some(i),
    ensures
        from <= i,
        match_at(s, pat, i),
        forall|k: int| from <= k < i ==> !match_at(s, pat, k),
    decreases s.len() - from,
{
    if pat.len() == 0 || from < 0 || from + pat.len() > s.len() {
    } else if match_at(s, pat, from) {
    } else {
        lemma_find_sub_from_some(s, pat, from + 1, i);
    }
}

/// When `find_sub_from` finds nothing, the pattern matches nowhere at or
/// after `from`.
pub proof fn lemma_find_sub_from_none(s: Seq<char>, pat: Seq<char>, from: int)
    requires
        from >= 0,
        pat.len() > 0,
        find_sub_from(s, pat, from) is None,
    ensures
        forall|k: int| k >= from ==> !match_at(s, pat, k),
    decreases s.len() - from,
{
    if from + pat.len() > s.len() {
        assert forall|k: int| k >= from implies !match_at(s, pat, k) by {
            assert(k + pat.len() > s.len());
        }
    } else if match_at(s, pat, from) {
    } else {
        lemma_find_sub_from_none(s, pat, from + 1);
    }
}

/// If the character occurs at or after `from`, the search finds an
/// occurrence no later than it.
pub proof fn lemma_find_char_from_complete(s: Seq<char>, c: char, from: int, m: int)
    requires
        0 <= from <= m < s.len(),
        s[m] == c,
    ensures
        find_char_from(s, c, from) is Some,
        find_char_from(s, c, from)->0 <= m,
    decreases m - from,
{
    if s[from] == c {
    } else {
        lemma_find_char_from_complete(s, c, from + 1, m);
    }
}

/// Occurrences of `c` within the suffix `s[i..]` are the occurrences in
/// `s` from `i` on, shifted by `i`.
pub proof fn lemma_find_char_suffix(s: Seq<char>, c: char, i: int)
    requires
        0 <= i <= s.len(),
    ensures
        match find_char_from(s, c, i) {
            Option::Some(p) => find_char_from(s.subrange(i, s.len() as int), c, 0) == Some(
                p - i,
            ),
            Option::None => find_char_from(s.subrange(i, s.len() as int), c, 0) is None,
        },
{
    let suf = s.subrange(i, s.len() as int);
    match find_char_from(s, c, i) {
        Option::Some(p) => {
            lemma_find_char_from_some(s, c, i, p);
            lemma_find_char_from_complete(suf, c, 0, p - i);
            let q = find_char_from(suf, c, 0)->0;
            lemma_find_char_from_some(suf, c, 0, q);
            assert(s[i + q] == c);
            assert(q >= p - i);
        }
        Option::None => {
            lemma_find_char_from_none(s, c, i);
            if find_char_from(suf, c, 0) is Some {
                let q = find_char_from(suf, c, 0)->0;
                lemma_find_char_from_some(suf, c, 0, q);
                assert(s[i + q] == c);
            }
        }
    }
}

/// `s` split at every newline; the separators are dropped, so a trailing
/// newline yields a final empty line.
pub open spec fn split_lines(s: Seq<char>) -> Seq<Seq<char>>
    decreases s.len(),
    via split_lines_decreases
{
    match find_char_from(s, '\n', 0) {
        Option::None => seq![s],
        Option::Some(i) => seq![s.subrange(0, i)] + split_lines(
            s.subrange(i + 1, s.len() as int),
        ),
    }
}

#[via_fn]
proof fn split_lines_decreases(s: Seq<char>) {
    match find_char_from(s, '\n', 0) {
        Option::None => {}
        Option::Some(i) => {
            lemma_find_char_from_some(s, '\n', 0, i);
        }
    }
}

pub open spec fn starts_with(s: Seq<char>, pre: Seq<char>) -> bool {
    pre.len() <= s.len() && s.subrange(0, pre.len() as int) == pre
}

/// The Unicode White_Space class, the one `str::split_whitespace` and
/// `char::is_whitespace` use.
pub open spec fn is_ws_char(c: char) -> bool {
    ||| (c as int) == 0x09
    ||| (c as int) == 0x0A
    ||| (c as int) == 0x0B
    ||| (c as int) == 0x0C
    ||| (c as int) == 0x0D
    ||| (c as int) == 0x20
    ||| (c as int) == 0x85
    ||| (c as int) == 0xA0
    ||| (c as int) == 0x1680
    ||| (0x2000 <= (c as int) && (c as int) <= 0x200A)
    ||| (c as int) == 0x2028
    ||| (c as int) == 0x2029
    ||| (c as int) == 0x202F
    ||| (c as int) == 0x205F
    ||| (c as int) == 0x3000
}

pub open spec fn all_ws(s: Seq<char>) -> bool {
    forall|i: int| 0 <= i < s.len() ==> is_ws_char(#[trigger] s[i])
}

/// Lexicographic order on character sequences by code point, with a prefix
/// ordered before its extensions.
pub open spec fn lex_le(a: Seq<char>, b: Seq<char>) -> bool
    decreases a.len(),
{
    if a.len() == 0 {
        true
    } else if b.len() == 0 {
        false
    } else if a[0] != b[0] {
        (a[0] as int) < (b[0] as int)
    } else {
        lex_le(a.subrange(1, a.len() as int), b.subrange(1, b.len() as int))
    }
}

pub open spec fn lex_lt(a: Seq<char>, b: Seq<char>) -> bool {
    lex_le(a, b) && a != b
}

pub proof fn lemma_lex_le_total(a: Seq<char>, b: Seq<char>)
    ensures
        lex_le(a, b) || lex_le(b, a),
    decreases a.len(),
{
    if a.len() == 0 || b.len() == 0 {
    } else if a[0] != b[0] {
    } else {
        lemma_lex_le_total(a.subrange(1, a.len() as int), b.subrange(1, b.len() as int));
    }
}

pub proof fn lemma_lex_le_refl(a: Seq<char>)
    ensures
        lex_le(a, a),
    decreases a.len(),
{
    if a.len() == 0 {
    } else {
        lemma_lex_le_refl(a.subrange(1, a.len() as int));
    }
}

pub proof fn lemma_lex_le_antisym(a: Seq<char>, b: Seq<char>)
    requires
        lex_le(a, b),
        lex_le(b, a),
    ensures
        a == b,
    decreases a.len(),
{
    if a.len() == 0 {
        assert(b.len() == 0);
        assert(a =~= b);
    } else {
        assert(b.len() != 0);
        assert(a[0] == b[0]);
        lemma_lex_le_antisym(
            a.subrange(1, a.len() as int),
            b.subrange(1, b.len() as int),
        );
        assert(a =~= seq![a[0]] + a.subrange(1, a.len() as int));
        assert(b =~= seq![b[0]] + b.subrange(1, b.len() as int));
    }
}

pub proof fn lemma_lex_le_trans(a: Seq<char>, b: Seq<char>, c: Seq<char>)
    requires
        lex_le(a, b),
        lex_le(b, c),
    ensures
        lex_le(a, c),
    decreases a.len(),
{
    if a.len() == 0 {
    } else if b.len() == 0 {
    } else if c.len() == 0 {
    } else {
        if a[0] == b[0] && b[0] == c[0] {
            lemma_lex_le_trans(
                a.subrange(1, a.len() as int),
                b.subrange(1, b.len() as int),
                c.subrange(1, c.len() as int),
            );
        }
    }
}

/// Membership of a text in a sequence of texts.
pub open spec fn seq_has(sv: Seq<Seq<char>>, t: Seq<char>) -> bool {
    exists|i: int| 0 <= i < sv.len() && #[trigger] sv[i] == t
}

/// Two strictly sorted sequences with the same members are equal.
pub proof fn lemma_lex_sorted_unique(a: Seq<Seq<char>>, b: Seq<Seq<char>>)
    requires
        forall|i: int, j: int| 0 <= i < j < a.len() ==> lex_lt(#[trigger] a[i], #[trigger] a[j]),
        forall|i: int, j: int| 0 <= i < j < b.len() ==> lex_lt(#[trigger] b[i], #[trigger] b[j]),
        forall|t: Seq<char>| #[trigger] seq_has(a, t) == seq_has(b, t),
    ensures
        a == b,
    decreases a.len(),
{
    if a.len() == 0 {
        if b.len() > 0 {
            assert(seq_has(b, b[0]));
            assert(seq_has(a, b[0]));
        }
        assert(a =~= b);
    } else {
        assert(seq_has(a, a[0]));
        assert(b.len() > 0) by {
            assert(seq_has(b, a[0]));
        }
        assert(a[0] == b[0]) by {
            assert(seq_has(b, a[0]));
            let j0 = choose|j0: int| 0 <= j0 < b.len() && #[trigger] b[j0] == a[0];
            assert(seq_has(b, b[0]));
            assert(seq_has(a, b[0]));
            let i0 = choose|i0: int| 0 <= i0 < a.len() && #[trigger] a[i0] == b[0];
            if j0 > 0 {
                assert(lex_lt(b[0], b[j0]));
                if i0 > 0 {
                    assert(lex_lt(a[0], a[i0]));
                    lemma_lex_le_trans(a[0], b[0], a[0]);
                    lemma_lex_le_antisym(a[0], b[0]);
                } else {
                    assert(a[0] == b[0]);
                }
            } else {
                assert(b[0] == a[0]);
            }
        }
        let a1 = a.subrange(1, a.len() as int);
        let b1 = b.subrange(1, b.len() as int);
        assert forall|i: int, j: int| 0 <= i < j < a1.len() implies lex_lt(
            #[trigger] a1[i],
            #[trigger] a1[j],
        ) by {
            assert(a1[i] == a[i + 1] && a1[j] == a[j + 1]);
        }
        assert forall|i: int, j: int| 0 <= i < j < b1.len() implies lex_lt(
            #[trigger] b1[i],
            #[trigger] b1[j],
        ) by {
            assert(b1[i] == b[i + 1] && b1[j] == b[j + 1]);
        }
        assert forall|t: Seq<char>| #[trigger] seq_has(a1, t) == seq_has(b1, t) by {
            if seq_has(a1, t) {
                let i0 = choose|i0: int| 0 <= i0 < a1.len() && #[trigger] a1[i0] == t;
                assert(a[i0 + 1] == t);
                assert(seq_has(a, t));
                assert(seq_has(b, t));
                let j0 = choose|j0: int| 0 <= j0 < b.len() && #[trigger] b[j0] == t;
                if j0 == 0 {
                    assert(t == b[0] && b[0] == a[0]);
                    assert(lex_lt(a[0], a[i0 + 1]));
                    lemma_lex_le_antisym(a[0], t);
                }
                assert(b1[j0 - 1] == t);
                assert(seq_has(b1, t));
            }
            if seq_has(b1, t) {
                let j0 = choose|j0: int| 0 <= j0 < b1.len() && #[trigger] b1[j0] == t;
                assert(b[j0 + 1] == t);
                assert(seq_has(b, t));
                assert(seq_has(a, t));
                let i0 = choose|i0: int| 0 <= i0 < a.len() && #[trigger] a[i0] == t;
                if i0 == 0 {
                    assert(t == a[0] && a[0] == b[0]);
                    assert(lex_lt(b[0], b[j0 + 1]));
                    lemma_lex_le_antisym(b[0], t);
                }
                assert(a1[i0 - 1] == t);
                assert(seq_has(a1, t));
            }
        }
        lemma_lex_sorted_unique(a1, b1);
        assert(a =~= seq![a[0]] + a1);
        assert(b =~= seq![b[0]] + b1);
        assert(a =~= b);
    }
}

/// All the characters of `s`, in order, as a vector.
pub fn to_char_vec(s: &str) -> (r: Vec<char>)
    ensures
        r@ == s@,
{
    let n: usize = s.unicode_len();
    let mut r: Vec<char> = Vec::new();
    let mut i: usize = 0;
    while i < n
        invariant
            n == s@.len(),
            i <= n,
            r@ =~= s@.subrange(0, i as int),
        decreases n - i,
    {
        r.push(s.get_char(i));
        i = i + 1;
    }
    assert(r@ =~= s@);
    r
}

/// The characters of `v`, in order, as a `String`.
pub fn from_char_vec(v: &Vec<char>) -> (r: String)
    ensures
        r@ == v@,
{
    let mut r: String = String::new();
    let mut i: usize = 0;
    while i < v.len()
        invariant
            i <= v.len(),
            r@ =~= v@.subrange(0, i as int),
        decreases v.len() - i,
    {
        r.push(v[i]);
        i = i + 1;
    }
    assert(r@ =~= v@);
    r
}

/// Character-wise equality of two string slices.
pub fn str_eq(a: &str, b: &str) -> (r: bool)
    ensures
        r == (a@ == b@),
{
    let na: usize = a.unicode_len();
    let nb: usize = b.unicode_len();
    if na != nb {
        assert(a@ != b@);
        return false;
    }
    let mut i: usize = 0;
    while i < na
        invariant
            na == a@.len(),
            na == b@.len(),
            i <= na,
            forall|j: int| 0 <= j < i ==> a@[j] == b@[j],
        decreases na - i,
    {
        if a.get_char(i) != b.get_char(i) {
            return false;
        }
        i = i + 1;
    }
    assert(a@ =~= b@);
    true
}

/// True when `pat` occurs in `v` at index `i`.
pub fn match_at_exec(v: &Vec<char>, pat: &Vec<char>, i: usize) -> (r: bool)
    requires
        i + pat@.len() <= v@.len(),
    ensures
        r == match_at(v@, pat@, i as int),
{
    let n: usize = v.len();
    let mut j: usize = 0;
    while j < pat.len()
        invariant
            n == v@.len(),
            i + pat@.len() <= v@.len(),
            j <= pat@.len(),
            forall|k: int| 0 <= k < j ==> v@[i + k] == pat@[k],
        decreases pat@.len() - j,
    {
        if v[i + j] != pat[j] {
            assert(v@.subrange(i as int, i + pat@.len() as int)[j as int] != pat@[j as int]);
            return false;
        }
        j = j + 1;
    }
    assert(v@.subrange(i as int, i + pat@.len() as int) =~= pat@);
    true
}

/// First occurrence of `pat` in `v` at or after `from`.
pub fn find_sub(v: &Vec<char>, pat: &Vec<char>, from: usize) -> (r: Option<usize>)
    ensures
        match r {
            Option::Some(i) => find_sub_from(v@, pat@, from as int) == Some(i as int),
            Option::None => find_sub_from(v@, pat@, from as int) is None,
        },
{
    if pat.len() == 0 || pat.len() > v.len() {
        return None;
    }
    let n: usize = v.len();
    let last: usize = n - pat.len();
    if from > last {
        return None;
    }
    let mut i: usize = from;
    while i <= last
        invariant
            pat@.len() > 0,
            n == v@.len(),
            last == v@.len() - pat@.len(),
            from <= i <= last + 1,
            find_sub_from(v@, pat@, from as int) == find_sub_from(v@, pat@, i as int),
        decreases last + 1 - i,
    {
        if match_at_exec(v, pat, i) {
            return Some(i);
        }
        i = i + 1;
    }
    None
}

/// First occurrence of the character `c` in `v` at or after `from`.
pub fn find_char(v: &Vec<char>, c: char, from: usize) -> (r: Option<usize>)
    ensures
        match r {
            Option::Some(i) => find_char_from(v@, c, from as int) == Some(i as int),
            Option::None => find_char_from(v@, c, from as int) is None,
        },
{
    let mut i: usize = from;
    while i < v.len()
        invariant
            from <= i,
            find_char_from(v@, c, from as int) == find_char_from(v@, c, i as int),
        decreases v@.len() - i,
    {
        if v[i] == c {
            return Some(i);
        }
        i = i + 1;
    }
    None
}

/// The subrange `v[from..to]` as a fresh vector.
pub fn slice_chars(v: &Vec<char>, from: usize, to: usize) -> (r: Vec<char>)
    requires
        from <= to <= v@.len(),
    ensures
        r@ == v@.subrange(from as int, to as int),
{
    let mut r: Vec<char> = Vec::new();
    let mut i: usize = from;
    while i < to
        invariant
            from <= i <= to <= v@.len(),
            r@ =~= v@.subrange(from as int, i as int),
        decreases to - i,
    {
        r.push(v[i]);
        i = i + 1;
    }
    assert(r@ =~= v@.subrange(from as int, to as int));
    r
}

/// Lexicographic comparison of two strings, as `lex_le`.
pub fn lex_le_exec(a: &str, b: &str) -> (r: bool)
    ensures
        r == lex_le(a@, b@),
{
    let na: usize = a.unicode_len();
    let nb: usize = b.unicode_len();
    let mut i: usize = 0;
    loop
        invariant
            na == a@.len(),
            nb == b@.len(),
            i <= na,
            i <= nb,
            forall|j: int| 0 <= j < i ==> a@[j] == b@[j],
        decreases na - i,
    {
        if i >= na || i >= nb {
            proof {
                lemma_lex_skip_prefix(a@, b@, i as int);
            }
            return na <= nb;
        }
        let ca = a.get_char(i);
        let cb = b.get_char(i);
        if ca != cb {
            proof {
                lemma_lex_skip_prefix(a@, b@, i as int);
            }
            return ca < cb;
        }
        i = i + 1;
    }
}

/// When the first `i` characters agree, the order of `a` and `b` is the
/// order of their suffixes from `i`.
pub proof fn lemma_lex_skip_prefix(a: Seq<char>, b: Seq<char>, i: int)
    requires
        0 <= i <= a.len(),
        i <= b.len(),
        forall|j: int| 0 <= j < i ==> a[j] == b[j],
    ensures
        lex_le(a, b) == lex_le(
            a.subrange(i, a.len() as int),
            b.subrange(i, b.len() as int),
        ),
    decreases i,
{
    if i == 0 {
        assert(a.subrange(0, a.len() as int) =~= a);
        assert(b.subrange(0, b.len() as int) =~= b);
    } else {
        assert(a.len() > 0 && b.len() > 0 && a[0] == b[0]);
        let a1 = a.subrange(1, a.len() as int);
        let b1 = b.subrange(1, b.len() as int);
        lemma_lex_skip_prefix(a1, b1, i - 1);
        assert(a1.subrange(i - 1, a1.len() as int) =~= a.subrange(i, a.len() as int));
        assert(b1.subrange(i - 1, b1.len() as int) =~= b.subrange(i, b.len() as int));
    }
}

} // verus!
