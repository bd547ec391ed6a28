use landsurvey::plan::decode_text;
use landsurvey::viz::{key_times_str, subtitle, svg_head, xml_escape};

#[test]
fn decodes_control_codes() {
    assert_eq!(decode_text("N88%%d16'15.00\"E"), "N88\u{b0}16'15.00\"E");
    assert_eq!(decode_text("%%p0.05 %%c12"), "\u{b1}0.05 \u{2300}12");
    assert_eq!(decode_text("PLAIN 100%"), "PLAIN 100%");
    assert_eq!(decode_text("%%%d"), "%\u{b0}");
}

#[test]
fn escapes_markup() {
    assert_eq!(xml_escape("a<b>&c"), "a&lt;b&gt;&amp;c");
    assert_eq!(xml_escape("&lt;"), "&amp;lt;");
    assert_eq!(xml_escape("plain"), "plain");
    let e = xml_escape("<<>>");
    assert!(!e.contains('<') && !e.contains('>'));
}

#[test]
fn svg_head_text() {
    assert_eq!(
        svg_head("T<1>", "d&e"),
        "<svg viewBox=\"0 0 680 380\" xmlns=\"http://www.w3.org/2000/svg\" \
         font-family=\"ui-sans-serif, system-ui, sans-serif\" role=\"img\">\n\
         <title>T&lt;1&gt;</title><desc>d&amp;e</desc>\n\
         <style>:root{--ink:var(--text-primary,#1f2328);--muted:var(--text-secondary,#57606a);}</style>\n"
    );
}

#[test]
fn subtitle_text() {
    assert_eq!(
        subtitle("a<b"),
        "<text x=\"340\" y=\"370\" text-anchor=\"middle\" font-size=\"11\" \
         fill=\"var(--muted)\">a&lt;b</text>\n"
    );
}

#[test]
fn key_times_match_the_keyframes() {
    let expected: Vec<String> =
        [0.0f64, 0.16, 0.40, 0.66, 0.85, 1.0].iter().map(|t| format!("{t}")).collect();
    assert_eq!(key_times_str(), expected.join(";"));
}

#[test]
fn decoding_leaves_no_codes_and_is_idempotent() {
    for s in ["%%%d", "%%%%pd", "N88%%d16'", "%%u stays", "100 %% plain", "%%c%%p%%d"] {
        let once = decode_text(s);
        assert!(!once.contains("%%d") && !once.contains("%%p") && !once.contains("%%c"));
        assert_eq!(decode_text(&once), once);
    }
    assert_eq!(decode_text("%%u stays"), "%%u stays");
    assert_eq!(decode_text("50% off"), "50% off");
}
