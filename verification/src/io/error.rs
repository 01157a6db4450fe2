//! Error type for weight IO.
use vstd::prelude::*;
use vstd::string::*;

verus! {

/// Error type for `.npy` / `.npz` / `.safetensors` reading.
#[derive(Debug, Clone, PartialEq)]
pub enum IoError {
    /// File is truncated or structurally invalid.
    Malformed(String),
    /// Valid file, but outside the supported subset (dtype, compression...).
    Unsupported(String),
}

/// An [`IoError`] with its message as a sequence of characters.
#[verifier::ext_equal]
pub enum IoErrorView {
    Malformed(Seq<char>),
    Unsupported(Seq<char>),
}

impl View for IoError {
    type V = IoErrorView;

    open spec fn view(&self) -> IoErrorView {
        match self {
            IoError::Malformed(m) => IoErrorView::Malformed(m@),
            IoError::Unsupported(m) => IoErrorView::Unsupported(m@),
        }
    }
}

impl IoErrorView {
    /// The error as one line of text.
    pub open spec fn text(self) -> Seq<char> {
        match self {
            IoErrorView::Malformed(m) => "malformed input: "@ + m,
            IoErrorView::Unsupported(m) => "unsupported: "@ + m,
        }
    }
}

impl IoError {
    /// The error as one line of text.
    pub fn message(&self) -> (r: String)
        ensures
            r@ == self@.text(),
    {
        match self {
            IoError::Malformed(m) => {
                let mut s = "malformed input: ".to_owned();
                s.append(m.as_str());
                s
            },
            IoError::Unsupported(m) => {
                let mut s = "unsupported: ".to_owned();
                s.append(m.as_str());
                s
            },
        }
    }
}

/// A [`IoError::Malformed`] with the given message.
pub fn malformed(msg: &str) -> (r: IoError)
    ensures
        r@ == IoErrorView::Malformed(msg@),
{
    IoError::Malformed(msg.to_owned())
}

/// A [`IoError::Unsupported`] with the given message.
pub fn unsupported(msg: &str) -> (r: IoError)
    ensures
        r@ == IoErrorView::Unsupported(msg@),
{
    IoError::Unsupported(msg.to_owned())
}

} // verus!
