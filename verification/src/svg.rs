//! Escaping text for SVG output.

use vstd::prelude::*;
use vstd::std_specs::iter::IteratorSpec;

verus! {

broadcast use {vstd::string::axiom_spec_iter, vstd::string::next_postcondition};

/// The escape of one character in XML text content.
pub open spec fn escape_text_char(c: char) -> Seq<char> {
    if c == '&' {
        seq!['&', 'a', 'm', 'p', ';']
    } else if c == '<' {
        seq!['&', 'l', 't', ';']
    } else if c == '>' {
        seq!['&', 'g', 't', ';']
    } else {
        seq![c]
    }
}

/// The escape of one character in an XML attribute value.
pub open spec fn escape_attr_char(c: char) -> Seq<char> {
    if c == '"' {
        seq!['&', 'q', 'u', 'o', 't', ';']
    } else if c == '\'' {
        seq!['&', 'a', 'p', 'o', 's', ';']
    } else {
        escape_text_char(c)
    }
}

/// `s` with every character replaced by its text escape.
pub open spec fn escaped_text(s: Seq<char>) -> Seq<char>
    decreases s.len(),
{
    if s.len() == 0 {
        seq![]
    } else {
        escaped_text(s.drop_last()) + escape_text_char(s.last())
    }
}

/// `s` with every character replaced by its attribute escape.
pub open spec fn escaped_attr(s: Seq<char>) -> Seq<char>
    decreases s.len(),
{
    if s.len() == 0 {
        seq![]
    } else {
        escaped_attr(s.drop_last()) + escape_attr_char(s.last())
    }
}

/// `String::push`: appends the character `c` at the end of `s`.
#[verifier::external_body]
fn push_char(s: &mut String, c: char)
    ensures
        final(s)@ == old(s)@.push(c),
{
    s.push(c);
}

/// Escape the characters that are special in XML text: `&`, `<` and `>`.
pub fn escape_xml(s: &str) -> (r: String)
    ensures
        r@ == escaped_text(s@),
{
    let mut out = String::new();
    let mut chars = s.chars();
    let ghost all = s@;
    let ghost mut done: Seq<char> = seq![];
    loop
        invariant
            all == s@,
            chars.obeys_prophetic_iter_laws(),
            done + chars.remaining() == all,
            out@ == escaped_text(done),
            chars.decrease() is Some,
        ensures
            out@ == escaped_text(s@),
        decreases chars.decrease()->0,
    {
        let ghost before = chars.remaining();
        match chars.next() {
            Some(c) => {
                proof {
                    assert(done.push(c) + chars.remaining() =~= all);
                    assert(done.push(c).drop_last() =~= done);
                    done = done.push(c);
                }
                if c == '&' {
                    out.append("&amp;");
                } else if c == '<' {
                    out.append("&lt;");
                } else if c == '>' {
                    out.append("&gt;");
                } else {
                    push_char(&mut out, c);
                }
                proof {
                    reveal_strlit("&amp;");
                    reveal_strlit("&lt;");
                    reveal_strlit("&gt;");
                    assert(out@ =~= escaped_text(done));
                }
            },
            None => {
                proof {
                    assert(done =~= all);
                }
                break;
            },
        }
    }
    out
}

/// Escape the characters that are special in an XML attribute value: `&`,
/// `<`, `>`, `"` and `'`.
pub fn escape_xml_attr(s: &str) -> (r: String)
    ensures
        r@ == escaped_attr(s@),
{
    let mut out = String::new();
    let mut chars = s.chars();
    let ghost all = s@;
    let ghost mut done: Seq<char> = seq![];
    loop
        invariant
            all == s@,
            chars.obeys_prophetic_iter_laws(),
            done + chars.remaining() == all,
            out@ == escaped_attr(done),
            chars.decrease() is Some,
        ensures
            out@ == escaped_attr(s@),
        decreases chars.decrease()->0,
    {
        let ghost before = chars.remaining();
        match chars.next() {
            Some(c) => {
                proof {
                    assert(done.push(c) + chars.remaining() =~= all);
                    assert(done.push(c).drop_last() =~= done);
                    done = done.push(c);
                }
                if c == '&' {
                    out.append("&amp;");
                } else if c == '<' {
                    out.append("&lt;");
                } else if c == '>' {
                    out.append("&gt;");
                } else if c == '"' {
                    out.append("&quot;");
                } else if c == '\'' {
                    out.append("&apos;");
                } else {
                    push_char(&mut out, c);
                }
                proof {
                    reveal_strlit("&amp;");
                    reveal_strlit("&lt;");
                    reveal_strlit("&gt;");
                    reveal_strlit("&quot;");
                    reveal_strlit("&apos;");
                    assert(out@ =~= escaped_attr(done));
                }
            },
            None => {
                proof {
                    assert(done =~= all);
                }
                break;
            },
        }
    }
    out
}


/// Escaped text holds no `<` or `>`, and escaped attribute values hold no
/// `<`, `>`, `"` or `'`: the output cannot open or close markup.
pub proof fn lemma_escaped_has_no_markup(s: Seq<char>)
    ensures
        !escaped_text(s).contains('<'),
        !escaped_text(s).contains('>'),
        !escaped_attr(s).contains('<'),
        !escaped_attr(s).contains('>'),
        !escaped_attr(s).contains('"'),
        !escaped_attr(s).contains('\''),
    decreases s.len(),
{
    if s.len() > 0 {
        lemma_escaped_has_no_markup(s.drop_last());
        let c = s.last();
        let t0 = escaped_text(s.drop_last());
        let a0 = escaped_attr(s.drop_last());
        let tc = escape_text_char(c);
        let ac = escape_attr_char(c);
        assert forall|x: char| (x == '<' || x == '>') && #[trigger] (t0 + tc).contains(x) implies false by {
            let k = choose|k: int| 0 <= k < (t0 + tc).len() && (t0 + tc)[k] == x;
            if k < t0.len() {
                assert(t0[k] == x);
            } else {
                assert(tc[k - t0.len()] == x);
            }
        }
        assert forall|x: char| (x == '<' || x == '>' || x == '"' || x == '\'') && #[trigger] (a0 + ac).contains(x) implies false by {
            let k = choose|k: int| 0 <= k < (a0 + ac).len() && (a0 + ac)[k] == x;
            if k < a0.len() {
                assert(a0[k] == x);
            } else {
                assert(ac[k - a0.len()] == x);
            }
        }
    }
}

} // verus!
