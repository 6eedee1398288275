//! The body tag handed to the output renderer: it tells the renderer
//! whether there is anything to show and which syntax the text is in.

use vstd::prelude::*;

verus! {

/// A request or response body as the renderer sees it: absent, plain
/// text, a form-encoded string, or JSON text.
#[derive(Clone, Debug)]
pub enum Body {
    Empty,
    Normal(String),
    Form(String),
    Json(String),
}

/// Model of a [`Body`] over character sequences.
pub ghost enum BodyModel {
    Empty,
    Normal(Seq<char>),
    Form(Seq<char>),
    Json(Seq<char>),
}

impl View for Body {
    type V = BodyModel;

    open spec fn view(&self) -> BodyModel {
        match self {
            Body::Empty => BodyModel::Empty,
            Body::Normal(s) => BodyModel::Normal(s@),
            Body::Form(s) => BodyModel::Form(s@),
            Body::Json(s) => BodyModel::Json(s@),
        }
    }
}

} // verus!
