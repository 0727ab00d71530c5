use vstd::prelude::*;
use vstd::string::*;

verus! {

/// The HTML page with the given title, lead heading and paragraph content.
pub open spec fn html_page(title: Seq<char>, lead: Seq<char>, content: Seq<char>) -> Seq<char> {
    "<!DOCTYPE html><html lang=\"en\"><head><meta charset=\"utf-8\"><title>"@ + title
        + "</title></head><body><h1>"@ + lead + "</h1><p>"@ + content
        + "</p></body></html>\n"@
}

/// Builds an HTML document from a title, a lead heading and the content of
/// the paragraph below it.
pub fn html_doc(title: &str, lead: &str, content: &str) -> (r: String)
    ensures
        r@ == html_page(title@, lead@, content@),
{
    let mut r = String::from_str(
        "<!DOCTYPE html><html lang=\"en\"><head><meta charset=\"utf-8\"><title>",
    );
    r.append(title);
    r.append("</title></head><body><h1>");
    r.append(lead);
    r.append("</h1><p>");
    r.append(content);
    r.append("</p></body></html>\n");
    r
}


/// The HTML text that shows character `c` as itself.
pub open spec fn escape_char(c: char) -> Seq<char> {
    if c == '&' {
        "&amp;"@
    } else if c == '<' {
        "&lt;"@
    } else if c == '>' {
        "&gt;"@
    } else if c == '"' {
        "&quot;"@
    } else if c == '\'' {
        "&#39;"@
    } else {
        seq![c]
    }
}

/// The HTML text that shows `s` as it is: each markup character replaced by
/// its entity.
pub open spec fn escape_text(s: Seq<char>) -> Seq<char>
    decreases s.len(),
{
    if s.len() == 0 {
        Seq::empty()
    } else {
        escape_text(s.drop_last()) + escape_char(s.last())
    }
}

/// Escapes the characters of `text` that HTML reads as markup, so that it
/// can be shown in a page as plain text.
pub fn escape_html(text: &str) -> (r: String)
    ensures
        r@ == escape_text(text@),
{
    let n = text.unicode_len();
    let mut out = String::new();
    let mut i: usize = 0;
    assert(text@.subrange(0, 0) =~= Seq::<char>::empty());
    while i < n
        invariant
            n == text@.len(),
            i <= n,
            out@ == escape_text(text@.subrange(0, i as int)),
        decreases n - i,
    {
        let c = text.get_char(i);
        if c == '&' {
            out.append("&amp;");
        } else if c == '<' {
            out.append("&lt;");
        } else if c == '>' {
            out.append("&gt;");
        } else if c == '"' {
            out.append("&quot;");
        } else if c == '\'' {
            out.append("&#39;");
        } else {
            let one = text.substring_char(i, i + 1);
            assert(one@ =~= seq![c]);
            out.append(one);
        }
        assert(text@.subrange(0, i + 1).drop_last() =~= text@.subrange(0, i as int));
        i = i + 1;
    }
    assert(text@.subrange(0, n as int) =~= text@);
    out
}

} // verus!
