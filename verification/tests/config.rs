use cordis::loader::config::interpolate;

#[test]
fn interpolates_known_placeholders() {
    let out = interpolate("postgres://{{host}}:{{port}}/db", &|name: &str| match name {
        "host" => Some("127.0.0.1".to_string()),
        "port" => Some("5432".to_string()),
        _ => None,
    });
    assert_eq!(out, "postgres://127.0.0.1:5432/db", "several placeholders replaced");
}

#[test]
fn keeps_unresolved_and_unclosed_placeholders() {
    let out = interpolate("a={{x}} b={{y}}", &|_: &str| None);
    assert_eq!(out, "a={{x}} b={{y}}", "unresolved placeholders are kept");
    let out = interpolate("unclosed={{x", &|_: &str| None);
    assert_eq!(out, "unclosed={{x", "an unclosed placeholder is kept");
}

#[test]
fn trims_whitespace_and_handles_empty() {
    let out = interpolate("{{ x }}", &|name: &str| {
        assert_eq!(name, "x", "the placeholder name is trimmed");
        Some("v".to_string())
    });
    assert_eq!(out, "v");
    assert_eq!(interpolate("", &|_: &str| None), "", "empty template");
    assert_eq!(interpolate("no placeholders", &|_: &str| None), "no placeholders");
}

#[test]
fn interpolation_edge_cases() {
    let upper = |name: &str| Some(name.to_uppercase());
    assert_eq!(interpolate("{{a}}{{a}}", &upper), "AA", "a repeated name is resolved each time");
    assert_eq!(interpolate("{{{a}}}", &upper), "{A}" , "the first `{{` opens, the first `}}` closes");
    assert_eq!(interpolate("x {{ }} y", &upper), "x  y", "an empty name resolves to its value");
    assert_eq!(interpolate("{{\u{3000}n\t}}", &upper), "N", "unicode white space is trimmed");
    assert_eq!(interpolate("{{a}} {{b", &upper), "A {{b", "text after an unclosed `{{` is kept");
    assert_eq!(interpolate("ünï{{k}}çødé", &upper), "ünïKçødé", "non-ASCII text passes through");
}
