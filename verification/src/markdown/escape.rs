//! Escaping of text for XML and HTML.

use vstd::prelude::*;

use crate::text::chars_of;

verus! {

/// One character as XML text.
pub open spec fn xml_char(c: char) -> Seq<char> {
    if c == '&' {
        "&amp;"@
    } else if c == '<' {
        "&lt;"@
    } else if c == '>' {
        "&gt;"@
    } else if c == '"' {
        "&quot;"@
    } else if c == '\'' {
        "&apos;"@
    } else {
        seq![c]
    }
}

/// `s` as XML text.
pub open spec fn xml_text(s: Seq<char>) -> Seq<char>
    decreases s.len(),
{
    if s.len() == 0 {
        Seq::empty()
    } else {
        xml_text(s.drop_last()) + xml_char(s.last())
    }
}

/// One character as HTML text or attribute value.
pub open spec fn html_char(c: char) -> Seq<char> {
    if c == '&' {
        "&amp;"@
    } else if c == '<' {
        "&lt;"@
    } else if c == '>' {
        "&gt;"@
    } else if c == '"' {
        "&quot;"@
    } else if c == '\'' {
        "&#x27;"@
    } else {
        seq![c]
    }
}

/// `s` as HTML text or attribute value.
pub open spec fn html_text(s: Seq<char>) -> Seq<char>
    decreases s.len(),
{
    if s.len() == 0 {
        Seq::empty()
    } else {
        html_text(s.drop_last()) + html_char(s.last())
    }
}

/// Appends `s` as XML text.
pub fn push_xml_text(out: &mut String, s: &str)
    ensures
        final(out)@ == old(out)@ + xml_text(s@),
{
    let cs = chars_of(s);
    let ghost head = out@;
    let mut i: usize = 0;
    proof {
        assert(head + xml_text(cs@.take(0)) =~= head);
    }
    while i < cs.len()
        invariant
            i <= cs@.len(),
            out@ == head + xml_text(cs@.take(i as int)),
        decreases cs@.len() - i,
    {
        let c = cs[i];
        let ghost before = out@;
        proof {
            assert(cs@.take(i + 1).drop_last() =~= cs@.take(i as int));
        }
        if c == '&' {
            out.push_str("&amp;");
        } else if c == '<' {
            out.push_str("&lt;");
        } else if c == '>' {
            out.push_str("&gt;");
        } else if c == '"' {
            out.push_str("&quot;");
        } else if c == '\'' {
            out.push_str("&apos;");
        } else {
            out.push(c);
        }
        proof {
            assert(out@ =~= before + xml_char(c));
            assert(before + xml_char(c) =~= head + (xml_text(cs@.take(i as int)) + xml_char(c)));
        }
        i += 1;
    }
    proof {
        assert(cs@.take(i as int) =~= cs@);
    }
}

/// `s` as XML text.
pub fn xml_escape(s: &str) -> (r: String)
    ensures
        r@ == xml_text(s@),
{
    let mut out = String::new();
    push_xml_text(&mut out, s);
    proof {
        assert(Seq::<char>::empty() + xml_text(s@) =~= xml_text(s@));
    }
    out
}

/// Appends `s` as HTML text or attribute value.
pub fn push_html_text(out: &mut String, s: &str)
    ensures
        final(out)@ == old(out)@ + html_text(s@),
{
    let cs = chars_of(s);
    let ghost head = out@;
    let mut i: usize = 0;
    proof {
        assert(head + html_text(cs@.take(0)) =~= head);
    }
    while i < cs.len()
        invariant
            i <= cs@.len(),
            out@ == head + html_text(cs@.take(i as int)),
        decreases cs@.len() - i,
    {
        let c = cs[i];
        let ghost before = out@;
        proof {
            assert(cs@.take(i + 1).drop_last() =~= cs@.take(i as int));
        }
        if c == '&' {
            out.push_str("&amp;");
        } else if c == '<' {
            out.push_str("&lt;");
        } else if c == '>' {
            out.push_str("&gt;");
        } else if c == '"' {
            out.push_str("&quot;");
        } else if c == '\'' {
            out.push_str("&#x27;");
        } else {
            out.push(c);
        }
        proof {
            assert(out@ =~= before + html_char(c));
            assert(before + html_char(c) =~= head + (html_text(cs@.take(i as int)) + html_char(c)));
        }
        i += 1;
    }
    proof {
        assert(cs@.take(i as int) =~= cs@);
    }
}

/// Whether `c` could end a text or an attribute value.
pub open spec fn is_markup(c: char) -> bool {
    c == '<' || c == '>' || c == '"' || c == '\''
}

/// Escaped XML text holds no character that could end a text or an attribute
/// value.
pub proof fn law_xml_text_is_inert(s: Seq<char>, i: int)
    requires
        0 <= i < xml_text(s).len(),
    ensures
        !is_markup(xml_text(s)[i]),
    decreases s.len(),
{
    reveal_strlit("&amp;");
    reveal_strlit("&lt;");
    reveal_strlit("&gt;");
    reveal_strlit("&quot;");
    reveal_strlit("&apos;");
    if s.len() > 0 {
        let h = xml_text(s.drop_last());
        if i < h.len() {
            law_xml_text_is_inert(s.drop_last(), i);
        } else {
            assert(xml_text(s)[i] == xml_char(s.last())[i - h.len()]);
        }
    }
}

/// Escaped HTML text holds no character that could end a text or an attribute
/// value.
pub proof fn law_html_text_is_inert(s: Seq<char>, i: int)
    requires
        0 <= i < html_text(s).len(),
    ensures
        !is_markup(html_text(s)[i]),
    decreases s.len(),
{
    reveal_strlit("&amp;");
    reveal_strlit("&lt;");
    reveal_strlit("&gt;");
    reveal_strlit("&quot;");
    reveal_strlit("&#x27;");
    if s.len() > 0 {
        let h = html_text(s.drop_last());
        if i < h.len() {
            law_html_text_is_inert(s.drop_last(), i);
        } else {
            assert(html_text(s)[i] == html_char(s.last())[i - h.len()]);
        }
    }
}

} // verus!
