//! Error type shared by the numeric modules.
use vstd::prelude::*;
use vstd::string::*;

verus! {

/// Error type for QLoRA operations.
#[derive(Debug, Clone, PartialEq)]
pub enum QloraError {
    /// Tensor shapes do not match (includes a human-readable message).
    ShapeMismatch(String),
    /// Invalid configuration value (includes a human-readable message).
    InvalidConfig(String),
    /// GPU backend failure or unavailable feature.
    Gpu(String),
}

/// A [`QloraError`] with its message as a sequence of characters.
#[verifier::ext_equal]
pub enum QloraErrorView {
    ShapeMismatch(Seq<char>),
    InvalidConfig(Seq<char>),
    Gpu(Seq<char>),
}

impl View for QloraError {
    type V = QloraErrorView;

    open spec fn view(&self) -> QloraErrorView {
        match self {
            QloraError::ShapeMismatch(m) => QloraErrorView::ShapeMismatch(m@),
            QloraError::InvalidConfig(m) => QloraErrorView::InvalidConfig(m@),
            QloraError::Gpu(m) => QloraErrorView::Gpu(m@),
        }
    }
}

impl QloraErrorView {
    /// The error as one line of text.
    pub open spec fn text(self) -> Seq<char> {
        match self {
            QloraErrorView::ShapeMismatch(m) => "shape mismatch: "@ + m,
            QloraErrorView::InvalidConfig(m) => "invalid config: "@ + m,
            QloraErrorView::Gpu(m) => "gpu error: "@ + m,
        }
    }
}

impl QloraError {
    /// The error as one line of text.
    pub fn message(&self) -> (r: String)
        ensures
            r@ == self@.text(),
    {
        let (lead, m): (&str, &String) = match self {
            QloraError::ShapeMismatch(m) => ("shape mismatch: ", m),
            QloraError::InvalidConfig(m) => ("invalid config: ", m),
            QloraError::Gpu(m) => ("gpu error: ", m),
        };
        let mut s = lead.to_owned();
        s.append(m.as_str());
        s
    }
}

/// A [`QloraError::InvalidConfig`] with the given message.
pub fn invalid_config(msg: &str) -> (r: QloraError)
    ensures
        r@ == QloraErrorView::InvalidConfig(msg@),
{
    QloraError::InvalidConfig(msg.to_owned())
}

/// The message `{left} = {x} but {right} = {y}`.
pub open spec fn disagreement(left: Seq<char>, x: nat, right: Seq<char>, y: nat) -> Seq<char> {
    left + " = "@ + crate::text::decimal(x) + " but "@ + right + " = "@ + crate::text::decimal(y)
}

/// A [`QloraError::ShapeMismatch`] of two sizes.
pub fn sizes_differ(left: &str, x: usize, right: &str, y: usize) -> (r: QloraError)
    ensures
        r@ == QloraErrorView::ShapeMismatch(disagreement(left@, x as nat, right@, y as nat)),
{
    let mut m = left.to_owned();
    m.append(" = ");
    crate::text::push_decimal(&mut m, x as u64);
    m.append(" but ");
    m.append(right);
    m.append(" = ");
    crate::text::push_decimal(&mut m, y as u64);
    QloraError::ShapeMismatch(m)
}

} // verus!
