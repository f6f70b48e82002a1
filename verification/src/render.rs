//! The boundary to the template-rendering collaborator: a rule whose
//! replacement source is a template is resolved by rendering the template
//! text against a JSON value text, once per rule.
use vstd::prelude::*;

verus! {

/// The text that the template collaborator renders from a template text and a
/// JSON value text; it is a function of those two texts alone. `None` stands
/// for a failure: an unparsable value text, or a template that does not parse
/// or render.
pub uninterp spec fn rendered_of(template: Seq<char>, values: Seq<char>) -> Option<Seq<char>>;

/// Relies on `serde_json::from_str` and minijinja's
/// `Environment::render_str`: parsing the value text and rendering the
/// template against the parsed value in a fresh default environment is
/// deterministic in the two texts, succeeding or failing the same way on the
/// same inputs; on success it returns the rendered text.
#[verifier::external_body]
fn render_call(template: &str, values: &str) -> (r: Result<String, String>)
    ensures
        match r {
            Ok(s) => rendered_of(template@, values@) == Some(s@),
            Err(_) => rendered_of(template@, values@) is None,
        },
{
    let value: serde_json::Value = match serde_json::from_str(values) {
        Ok(v) => v,
        Err(err) => return Err(format!("{err}")),
    };
    let env = minijinja::Environment::new();
    match env.render_str(template, minijinja::Value::from_serialize(value)) {
        Ok(s) => Ok(s),
        Err(err) => Err(format!("{err}")),
    }
}

/// Renders a template text against a JSON value text. `Err` carries the
/// collaborator's message and comes exactly on the template-and-values pairs
/// that do not render; any failure is fatal for the run that asked for it.
pub fn render_template(template: &str, values: &str) -> (r: Result<String, String>)
    ensures
        match r {
            Ok(s) => rendered_of(template@, values@) == Some(s@),
            Err(_) => rendered_of(template@, values@) is None,
        },
{
    render_call(template, values)
}

} // verus!
