use contour::svg::{escape_xml, escape_xml_attr};

#[test]
fn escape_xml_replaces_markup_characters() {
    assert_eq!(escape_xml("a < b && c > d"), "a &lt; b &amp;&amp; c &gt; d");
    assert_eq!(escape_xml("\"quoted\" 'text'"), "\"quoted\" 'text'");
    assert_eq!(escape_xml(""), "");
    assert_eq!(escape_xml("héllo ✓"), "héllo ✓");
}

#[test]
fn escape_xml_does_not_escape_twice_in_one_pass() {
    assert_eq!(escape_xml("&amp;"), "&amp;amp;");
    assert_eq!(escape_xml("&lt;"), "&amp;lt;");
}

#[test]
fn escape_xml_attr_also_replaces_quotes() {
    assert_eq!(
        escape_xml_attr("say \"hi\" & 'bye' <x>"),
        "say &quot;hi&quot; &amp; &apos;bye&apos; &lt;x&gt;"
    );
    assert_eq!(escape_xml_attr("plain"), "plain");
}

#[test]
fn escaped_output_has_no_markup_characters() {
    let s = "<<>>\"'&";
    let t = escape_xml(s);
    assert!(!t.contains('<') && !t.contains('>'));
    let a = escape_xml_attr(s);
    assert!(!a.contains('<') && !a.contains('>') && !a.contains('"') && !a.contains('\''));
}
