use replacer::config::{Config, Replace, Rule, Which, With};
use replacer::evaluate::replace;
use replacer::render::render_template;

#[test]
fn render_template_substitutes_values() {
    let out = render_template("Hello {{ name }}!", "{\"name\": \"world\"}");
    assert_eq!(out, Ok("Hello world!".to_string()));
}

#[test]
fn render_template_literal_text() {
    let out = render_template("plain", "{}");
    assert_eq!(out, Ok("plain".to_string()));
}

#[test]
fn render_template_unparsable_values_fails() {
    let out = render_template("x", "not json");
    assert!(out.is_err());
}

#[test]
fn render_template_broken_template_fails() {
    let out = render_template("{% if %}", "{}");
    assert!(out.is_err());
}

#[test]
fn rendered_text_feeds_the_pipeline() {
    let rendered = render_template("v = {{ n }}", "{\"n\": 7}").unwrap();
    let config = Config {
        rules: vec![Rule {
            replace: Replace::Line("SLOT".to_string()),
            with: With::Jinja {
                template: "t.j2".to_string(),
                values: "v.json".to_string(),
            },
            keep_spaces: false,
            which: Which::Every,
        }],
    };
    let out = replace("a\nSLOT here\n".to_string(), &config, &vec![rendered]);
    assert_eq!(out, "a\nv = 7\n");
}
