//! The crate's error type.

use vstd::prelude::*;

verus! {

#[verifier::external_type_specification]
#[verifier::external_body]
pub struct ExIoError(std::io::Error);

/// Errors of the memory mirror and the coin directory.
#[derive(Debug)]
pub enum MemError {
    Usage(String),
    NotFound(String),
    Pipe(String),
    Wire(String),
    Store(String),
    Coin(String),
    Io(std::io::Error),
}

/// What an error says, as character sequences.
pub enum MemErrorView {
    Usage(Seq<char>),
    NotFound(Seq<char>),
    Pipe(Seq<char>),
    Wire(Seq<char>),
    Store(Seq<char>),
    Coin(Seq<char>),
    Io,
}

impl View for MemError {
    type V = MemErrorView;

    open spec fn view(&self) -> MemErrorView {
        match self {
            MemError::Usage(m) => MemErrorView::Usage(m@),
            MemError::NotFound(m) => MemErrorView::NotFound(m@),
            MemError::Pipe(m) => MemErrorView::Pipe(m@),
            MemError::Wire(m) => MemErrorView::Wire(m@),
            MemError::Store(m) => MemErrorView::Store(m@),
            MemError::Coin(m) => MemErrorView::Coin(m@),
            MemError::Io(_) => MemErrorView::Io,
        }
    }
}

/// The view of a result whose error is a `MemError`.
pub open spec fn result_view<T: View>(r: Result<T, MemError>) -> Result<T::V, MemErrorView> {
    match r {
        Ok(x) => Ok(x@),
        Err(e) => Err(e@),
    }
}

/// Formats an I/O error with its `Display` impl; nothing is stated of the text.
#[verifier::external_body]
fn io_error_text(e: &std::io::Error) -> String {
    format!("{e}")
}

/// The text that `Display` shows for each kind of error.
pub open spec fn error_text(e: MemErrorView) -> Seq<char> {
    match e {
        MemErrorView::Usage(m) => m,
        MemErrorView::NotFound(m) => "not found: "@ + m,
        MemErrorView::Pipe(m) => "subprocess: "@ + m,
        MemErrorView::Wire(m) => "wire: "@ + m,
        MemErrorView::Store(m) => "store: "@ + m,
        MemErrorView::Coin(m) => "coin: "@ + m,
        MemErrorView::Io => seq![],
    }
}

impl MemError {
    /// The human-readable message (what `Display` prints).
    pub fn message(&self) -> (s: String)
        ensures
            !(self is Io) ==> s@ == error_text(self@),
            self is Io ==> "io: "@.is_prefix_of(s@),
    {
        let (prefix, m) = match self {
            MemError::Usage(m) => ("", m),
            MemError::NotFound(m) => ("not found: ", m),
            MemError::Pipe(m) => ("subprocess: ", m),
            MemError::Wire(m) => ("wire: ", m),
            MemError::Store(m) => ("store: ", m),
            MemError::Coin(m) => ("coin: ", m),
            MemError::Io(e) => {
                let mut out = String::from_str("io: ");
                let t = io_error_text(e);
                out.append(t.as_str());
                proof {
                    reveal_strlit("io: ");
                    assert(out@.subrange(0, 4) =~= "io: "@);
                }
                return out;
            },
        };
        let mut out = String::from_str(prefix);
        out.append(m.as_str());
        proof {
            reveal_strlit("");
            assert(""@ + m@ =~= m@);
        }
        out
    }
}

impl From<std::io::Error> for MemError {
    fn from(e: std::io::Error) -> (r: Self) {
        MemError::Io(e)
    }
}

impl vstd::std_specs::convert::FromSpecImpl<std::io::Error> for MemError {
    open spec fn obeys_from_spec() -> bool {
        true
    }

    open spec fn from_spec(v: std::io::Error) -> Self {
        MemError::Io(v)
    }
}

/// Error constructors from string literals.
pub fn wire_err(m: &str) -> (e: MemError)
    ensures
        e@ == MemErrorView::Wire(m@),
{
    MemError::Wire(String::from_str(m))
}

pub fn coin_err(m: &str) -> (e: MemError)
    ensures
        e@ == MemErrorView::Coin(m@),
{
    MemError::Coin(String::from_str(m))
}

pub fn usage_err(m: &str) -> (e: MemError)
    ensures
        e@ == MemErrorView::Usage(m@),
{
    MemError::Usage(String::from_str(m))
}

pub fn store_err(m: &str) -> (e: MemError)
    ensures
        e@ == MemErrorView::Store(m@),
{
    MemError::Store(String::from_str(m))
}

} // verus!
