//! JSON values carried as text.
use vstd::prelude::*;

verus! {

/// Whether `s` is one well-formed JSON document, as serde_json reads it.
pub uninterp spec fn json_accepts(s: Seq<char>) -> bool;

/// Relies on `serde_json::from_str::<serde_json::Value>`: it succeeds
/// exactly on the texts that hold one JSON document, which depends on the
/// text alone.
#[verifier::external_body]
fn json_parses(s: &str) -> (r: bool)
    ensures
        r == json_accepts(s@),
{
    serde_json::from_str::<serde_json::Value>(s).is_ok()
}

/// A JSON value, held as its text.
#[derive(Debug)]
pub struct JsonValue {
    text: String,
}

impl View for JsonValue {
    type V = Seq<char>;

    closed spec fn view(&self) -> Seq<char> {
        self.text@
    }
}

impl JsonValue {
    /// The text is JSON.
    #[verifier::type_invariant]
    spec fn inv(&self) -> bool {
        json_accepts(self.text@)
    }

    /// The value that `text` holds, if `text` is JSON.
    pub fn parse(text: String) -> (r: Option<JsonValue>)
        ensures
            match r {
                Some(v) => json_accepts(text@) && v@ == text@,
                None => !json_accepts(text@),
            },
    {
        if json_parses(text.as_str()) {
            Some(JsonValue { text })
        } else {
            None
        }
    }

    /// The text of the value.
    pub fn as_str(&self) -> (r: &str)
        ensures
            r@ == self@,
            json_accepts(r@),
    {
        proof {
            use_type_invariant(self);
        }
        self.text.as_str()
    }

    /// A copy of the value.
    pub fn duplicate(&self) -> (r: JsonValue)
        ensures
            r@ == self@,
    {
        proof {
            use_type_invariant(self);
        }
        JsonValue { text: self.text.clone() }
    }
}

} // verus!
