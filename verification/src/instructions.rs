//! An agent's persona and response contract: plain data a cognition
//! backend turns into a system prompt and output constraints.

use vstd::prelude::*;

use crate::json::{Json, JsonValue};

verus! {

/// Static persona plus response contract for a cognition backend.
#[derive(Debug, PartialEq)]
pub struct Instructions {
    /// System prompt, sent verbatim as the system message.
    pub system_prompt: String,
    /// Optional JSON schema the backend must conform to.
    pub response_schema: Option<JsonValue>,
    /// Few-shot examples, each `(user_message, assistant_reply)`.
    pub examples: Vec<(String, String)>,
    /// Free-form metadata; backends decide which keys to honour.
    pub metadata: JsonValue,
}

/// The manifest form of [`Instructions`].
#[derive(Debug, PartialEq)]
pub struct InstructionsSpec {
    pub system_prompt: String,
    pub response_schema: Option<JsonValue>,
    /// `[user_message, assistant_reply]` pairs.
    pub examples: Vec<[String; 2]>,
    pub metadata: JsonValue,
}

/// The examples of instructions as plain values.
pub open spec fn example_models(e: Seq<(String, String)>) -> Seq<(Seq<char>, Seq<char>)> {
    Seq::new(e.len(), |i: int| (e[i].0@, e[i].1@))
}

/// The examples of an instructions spec as plain values.
pub open spec fn pair_example_models(e: Seq<[String; 2]>) -> Seq<(Seq<char>, Seq<char>)> {
    Seq::new(e.len(), |i: int| (e[i]@[0]@, e[i]@[1]@))
}

impl Instructions {
    /// Instructions with a system prompt and nothing else.
    pub fn new(system_prompt: &str) -> (r: Instructions)
        ensures
            r.system_prompt@ == system_prompt@,
            r.response_schema is None,
            r.examples@.len() == 0,
            r.metadata@ == Json::Null,
    {
        Instructions {
            system_prompt: crate::text::owned(system_prompt),
            response_schema: None,
            examples: Vec::new(),
            metadata: JsonValue::Null,
        }
    }

    /// Sets the response schema.
    pub fn with_response_schema(self, schema: JsonValue) -> (r: Instructions)
        ensures
            r == (Instructions { response_schema: Some(schema), ..self }),
    {
        Instructions { response_schema: Some(schema), ..self }
    }

    /// Adds a few-shot example.
    pub fn with_example(self, user: &str, assistant: &str) -> (r: Instructions)
        ensures
            r.system_prompt == self.system_prompt,
            r.response_schema == self.response_schema,
            r.metadata == self.metadata,
            example_models(r.examples@) == example_models(self.examples@).push((user@, assistant@)),
    {
        let mut examples = self.examples;
        let ghost before = examples@;
        examples.push((crate::text::owned(user), crate::text::owned(assistant)));
        assert(example_models(examples@) =~= example_models(before).push((user@, assistant@)));
        Instructions { examples, ..self }
    }

    /// Sets the metadata.
    pub fn with_metadata(self, metadata: JsonValue) -> (r: Instructions)
        ensures
            r == (Instructions { metadata, ..self }),
    {
        Instructions { metadata, ..self }
    }
}

impl vstd::std_specs::convert::FromSpecImpl<InstructionsSpec> for Instructions {
    /// The conversion builds vectors and strings, which have no spec-level
    /// constructor; what it returns is stated on `from` itself.
    open spec fn obeys_from_spec() -> bool {
        false
    }

    open spec fn from_spec(v: InstructionsSpec) -> Instructions {
        vstd::pervasive::arbitrary()
    }
}

impl From<InstructionsSpec> for Instructions {
    /// The instructions a manifest describes: its prompt, schema and
    /// examples in order, and its metadata unless that is `null`.
    fn from(s: InstructionsSpec) -> (r: Instructions)
        ensures
            r.system_prompt@ == s.system_prompt@,
            r.response_schema == s.response_schema,
            example_models(r.examples@) == pair_example_models(s.examples@),
            r.metadata@ == s.metadata@,
    {
        let mut instructions = Instructions::new(s.system_prompt.as_str());
        if let Some(schema) = s.response_schema {
            instructions = instructions.with_response_schema(schema);
        }
        let ghost all = s.examples@;
        let mut i: usize = 0;
        while i < s.examples.len()
            invariant
                i <= all.len(),
                all == s.examples@,
                instructions.system_prompt@ == s.system_prompt@,
                instructions.response_schema == s.response_schema,
                instructions.metadata@ == Json::Null,
                example_models(instructions.examples@) == pair_example_models(all).take(i as int),
            decreases all.len() - i,
        {
            let pair = &s.examples[i];
            instructions = instructions.with_example(pair[0].as_str(), pair[1].as_str());
            assert(pair_example_models(all).take(i + 1) =~= pair_example_models(all).take(i as int).push(
                (all[i as int]@[0]@, all[i as int]@[1]@),
            ));
            i = i + 1;
        }
        assert(pair_example_models(all).take(all.len() as int) =~= pair_example_models(all));
        if !s.metadata.is_null() {
            instructions = instructions.with_metadata(s.metadata);
        }
        instructions
    }
}

} // verus!
