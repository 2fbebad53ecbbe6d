//! Rendering notes for export: HTML escaping and markdown rendering
//! through an outside renderer.
use vstd::prelude::*;

verus! {

/// HTML escaping of one character: the four characters HTML reserves
/// become entities, everything else stays.
pub open spec fn escaped_char(c: char) -> Seq<char> {
    if c == '&' {
        "&amp;"@
    } else if c == '<' {
        "&lt;"@
    } else if c == '>' {
        "&gt;"@
    } else if c == '"' {
        "&quot;"@
    } else {
        seq![c]
    }
}

/// HTML escaping of a text, character by character.
pub open spec fn escaped(s: Seq<char>) -> Seq<char>
    decreases s.len(),
{
    if s.len() == 0 {
        Seq::empty()
    } else {
        escaped_char(s[0]) + escaped(s.subrange(1, s.len() as int))
    }
}

proof fn lemma_escaped_snoc(s: Seq<char>, c: char)
    ensures
        escaped(s + seq![c]) == escaped(s) + escaped_char(c),
    decreases s.len(),
{
    let t = s + seq![c];
    if s.len() == 0 {
        assert(t =~= seq![c]);
        assert(t[0] == c);
        assert(t.subrange(1, 1) =~= Seq::<char>::empty());
        assert(escaped(t) == escaped_char(t[0]) + escaped(t.subrange(1, t.len() as int)));
        assert(escaped(t.subrange(1, t.len() as int)) == Seq::<char>::empty());
        assert(escaped(s) == Seq::<char>::empty());
        assert(escaped(t) =~= escaped(s) + escaped_char(c));
    } else {
        assert(t[0] == s[0]);
        assert(t.subrange(1, t.len() as int) =~= s.subrange(1, s.len() as int) + seq![c]);
        lemma_escaped_snoc(s.subrange(1, s.len() as int), c);
        assert(escaped(t) =~= escaped(s) + escaped_char(c));
    }
}

/// Escape the HTML-reserved characters of a text.
pub fn html_escape(s: &str) -> (r: String)
    ensures
        r@ == escaped(s@),
{
    let n: usize = s.unicode_len();
    let mut out = String::new();
    let mut i: usize = 0;
    proof {
        assert(s@.subrange(0, 0) =~= Seq::<char>::empty());
    }
    while i < n
        invariant
            n == s@.len(),
            i <= n,
            out@ == escaped(s@.subrange(0, i as int)),
        decreases n - i,
    {
        let c = s.get_char(i);
        proof {
            assert(s@.subrange(0, i + 1) =~= s@.subrange(0, i as int) + seq![s@[i as int]]);
            lemma_escaped_snoc(s@.subrange(0, i as int), s@[i as int]);
        }
        if c == '&' {
            out.append("&amp;");
        } else if c == '<' {
            out.append("&lt;");
        } else if c == '>' {
            out.append("&gt;");
        } else if c == '"' {
            out.append("&quot;");
        } else {
            out.push(c);
        }
        proof {
            assert(out@ =~= escaped(s@.subrange(0, i + 1)));
        }
        i = i + 1;
    }
    proof {
        assert(s@.subrange(0, n as int) =~= s@);
    }
    out
}

/// The HTML a markdown body renders to. Named, not defined: the rendering
/// depends on the markdown text alone.
pub uninterp spec fn html_of(markdown: Seq<char>) -> Seq<char>;

/// Relies on `pulldown_cmark::Parser::new` and `pulldown_cmark::html::push_html`:
/// the rendered HTML of a markdown text, depending on the text alone.
#[verifier::external_body]
pub fn markdown_to_html(markdown: &str) -> (r: String)
    ensures
        r@ == html_of(markdown@),
{
    let parser = pulldown_cmark::Parser::new(markdown);
    let mut html_body = String::new();
    pulldown_cmark::html::push_html(&mut html_body, parser);
    html_body
}

/// The exported page: a title heading with the update time, then the
/// rendered body.
pub open spec fn html_page(title_escaped: Seq<char>, updated_at: Seq<char>, body: Seq<char>) -> Seq<
    char,
> {
    "<!DOCTYPE html><html><head><meta charset=utf-8><title>"@ + title_escaped
        + "</title></head><body><h1>"@ + title_escaped + "</h1><p>"@ + updated_at + "</p>"@
        + body + "</body></html>"@
}

/// Render a note as a standalone HTML page: the title escaped, the body
/// rendered by the markdown renderer.
pub fn export_note_html(note: &crate::note::Note) -> (r: String)
    ensures
        r@ == html_page(escaped(note@.title), note@.updated_at, html_of(note@.content)),
{
    let title = html_escape(note.title.as_str());
    let body = markdown_to_html(note.content.as_str());
    let mut out = String::new();
    out.append("<!DOCTYPE html><html><head><meta charset=utf-8><title>");
    out.append(title.as_str());
    out.append("</title></head><body><h1>");
    out.append(title.as_str());
    out.append("</h1><p>");
    out.append(note.updated_at.as_str());
    out.append("</p>");
    out.append(body.as_str());
    out.append("</body></html>");
    out
}

} // verus!
