//! What a local model is asked.

use crate::ai;
use crate::order;
use vstd::prelude::*;

verus! {

/// The schema of a model's answer, as JSON.
pub open spec fn schema_text() -> Seq<char> {
    "{\"additionalProperties\":false,\"properties\":{\"explanations\":{\"items\":{\"additionalProperties\":false,\"properties\":{\"candidate_id\":{\"minimum\":1,\"type\":\"integer\"},\"category\":{\"enum\":[\"replaceable_installer\",\"archive_with_extracted_copy\",\"cache_or_generated\",\"duplicate_copy\",\"user_data_or_state\",\"unknown\"],\"type\":\"string\"},\"confidence\":{\"maximum\":1,\"minimum\":0,\"type\":\"number\"},\"reason\":{\"maxLength\":600,\"minLength\":1,\"type\":\"string\"},\"risk\":{\"enum\":[\"low\",\"medium\",\"high\"],\"type\":\"string\"},\"suggested_action\":{\"enum\":[\"review_for_deletion\",\"review_for_archive\",\"keep_or_review\"],\"type\":\"string\"}},\"required\":[\"candidate_id\",\"category\",\"risk\",\"confidence\",\"reason\",\"suggested_action\"],\"type\":\"object\"},\"type\":\"array\"}},\"required\":[\"explanations\"],\"type\":\"object\"}"@
}

pub fn output_schema() -> (result: &'static str)
    ensures
        result@ == schema_text(),
{
    "{\"additionalProperties\":false,\"properties\":{\"explanations\":{\"items\":{\"additionalProperties\":false,\"properties\":{\"candidate_id\":{\"minimum\":1,\"type\":\"integer\"},\"category\":{\"enum\":[\"replaceable_installer\",\"archive_with_extracted_copy\",\"cache_or_generated\",\"duplicate_copy\",\"user_data_or_state\",\"unknown\"],\"type\":\"string\"},\"confidence\":{\"maximum\":1,\"minimum\":0,\"type\":\"number\"},\"reason\":{\"maxLength\":600,\"minLength\":1,\"type\":\"string\"},\"risk\":{\"enum\":[\"low\",\"medium\",\"high\"],\"type\":\"string\"},\"suggested_action\":{\"enum\":[\"review_for_deletion\",\"review_for_archive\",\"keep_or_review\"],\"type\":\"string\"}},\"required\":[\"candidate_id\",\"category\",\"risk\",\"confidence\",\"reason\",\"suggested_action\"],\"type\":\"object\"},\"type\":\"array\"}},\"required\":[\"explanations\"],\"type\":\"object\"}"
}

/// What a field of a request holds.
#[derive(Debug, PartialEq, Eq)]
pub enum RequestValue {
    Text(String),
    Flag(bool),
    /// Text that is JSON itself.
    Json(String),
    /// How freely the model answers, and at what length.
    Limits { temperature: u64, num_predict: u64 },
}

#[verifier::ext_equal]
pub enum RequestValueView {
    Text(Seq<char>),
    Flag(bool),
    Json(Seq<char>),
    Limits { temperature: u64, num_predict: u64 },
}

impl View for RequestValue {
    type V = RequestValueView;

    open spec fn view(&self) -> RequestValueView {
        match self {
            RequestValue::Text(text) => RequestValueView::Text(text@),
            RequestValue::Flag(flag) => RequestValueView::Flag(*flag),
            RequestValue::Json(text) => RequestValueView::Json(text@),
            RequestValue::Limits { temperature, num_predict } => RequestValueView::Limits {
                temperature: *temperature,
                num_predict: *num_predict,
            },
        }
    }
}

/// A field of a request.
#[derive(Debug, PartialEq, Eq)]
pub struct RequestField {
    pub name: &'static str,
    pub value: RequestValue,
}

#[verifier::ext_equal]
pub struct RequestFieldView {
    pub name: Seq<char>,
    pub value: RequestValueView,
}

impl View for RequestField {
    type V = RequestFieldView;

    open spec fn view(&self) -> RequestFieldView {
        RequestFieldView { name: self.name@, value: self.value@ }
    }
}

/// The request on candidates whose context is given as JSON: the model is told
/// nothing else, and answers at once and in the schema.
pub open spec fn request_for(model: Seq<char>, context: Seq<char>) -> Seq<RequestFieldView> {
    seq![
        RequestFieldView { name: "model"@, value: RequestValueView::Text(model) },
        RequestFieldView { name: "system"@, value: RequestValueView::Text(ai::system_text()) },
        RequestFieldView {
            name: "prompt"@,
            value: RequestValueView::Text(ai::question(schema_text(), context)),
        },
        RequestFieldView { name: "stream"@, value: RequestValueView::Flag(false) },
        RequestFieldView { name: "think"@, value: RequestValueView::Flag(false) },
        RequestFieldView { name: "format"@, value: RequestValueView::Json(schema_text()) },
        RequestFieldView {
            name: "options"@,
            value: RequestValueView::Limits { temperature: 0, num_predict: 1400 },
        },
        RequestFieldView { name: "keep_alive"@, value: RequestValueView::Text("5m"@) },
    ]
}

pub fn generate_request(model: &str, context: &str) -> (result: Vec<RequestField>)
    ensures
        order::views(result@) == request_for(model@, context@),
{
    let schema = output_schema();
    let fields = vec![
        RequestField { name: "model", value: RequestValue::Text(model.to_owned()) },
        RequestField { name: "system", value: RequestValue::Text(ai::system_prompt().to_owned()) },
        RequestField { name: "prompt", value: RequestValue::Text(ai::prompt(schema, context)) },
        RequestField { name: "stream", value: RequestValue::Flag(false) },
        RequestField { name: "think", value: RequestValue::Flag(false) },
        RequestField { name: "format", value: RequestValue::Json(schema.to_owned()) },
        RequestField {
            name: "options",
            value: RequestValue::Limits { temperature: 0, num_predict: 1400 },
        },
        RequestField { name: "keep_alive", value: RequestValue::Text("5m".to_owned()) },
    ];
    assert(order::views(fields@) =~= request_for(model@, context@));
    fields
}

} // verus!
