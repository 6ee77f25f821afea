//! The error every fallible operation of the library returns: a message,
//! optionally the error that caused it, and the backtrace taken where it was
//! made.

use vstd::prelude::*;
use vstd::std_specs::convert::FromSpecImpl;
use vstd::string::StringExecFns;

verus! {

pub type Result<T> = std::result::Result<T, Error>;

/// A message with an optional chain of causes and a backtrace. An error that
/// stands for the error of another library holds that error's text as its
/// message, and no backtrace.
#[derive(Debug)]
pub struct Error {
    pub message: String,
    pub inner: Option<Box<Error>>,
    pub backtrace: Option<String>,
}

/// Calls `std::backtrace::Backtrace::capture` and writes the backtrace out as
/// text. What it holds depends on where the call stands and on the
/// environment of the process, so nothing is said of it.
#[verifier::external_body]
fn capture_backtrace() -> (text: String) {
    format!("{}", std::backtrace::Backtrace::capture())
}

impl Error {
    /// The number of errors in the chain, this one included.
    pub open spec fn depth(self) -> nat
        decreases self,
    {
        match self.inner {
            None => 1,
            Some(inner) => 1 + inner.depth(),
        }
    }

    /// The text that follows the message: nothing for an error without a
    /// backtrace, and else the heading and the backtrace.
    pub open spec fn trace_text(self) -> Seq<char> {
        match self.backtrace {
            None => Seq::empty(),
            Some(backtrace) => "\nBacktrace:\n"@ + backtrace@,
        }
    }

    /// The text the error is shown as: its message, then its cause as it is
    /// shown, then its backtrace.
    pub open spec fn rendered(self) -> Seq<char>
        decreases self,
    {
        match self.inner {
            None => self.message@ + self.trace_text(),
            Some(inner) => self.message@ + "\nCause: "@ + inner.rendered() + self.trace_text(),
        }
    }

    /// The error is the error of another library, whose text is `text`.
    pub open spec fn is_outside(self, text: Seq<char>) -> bool {
        &&& self.message@ == text
        &&& self.inner is None
        &&& self.backtrace is None
    }

    /// The error was made from the error of another library, whose text is
    /// `text`: it bears that text and has that error as its cause.
    pub open spec fn wraps_outside(self, text: Seq<char>) -> bool {
        &&& self.message@ == text
        &&& self.inner matches Some(cause) && cause.is_outside(text)
        &&& self.backtrace is Some
    }

    /// An error with the backtrace of the place where it is made.
    pub fn new(message: String, inner: Option<Box<Error>>) -> (e: Self)
        ensures
            e.message == message,
            e.inner == inner,
            e.backtrace is Some,
    {
        Error::from_parts((message, inner, Some(capture_backtrace())))
    }

    /// Wraps the error in a new one that names it as its cause.
    pub fn context(self, message: String) -> (e: Self)
        ensures
            e.message == message,
            e.inner == Some(Box::new(self)),
            e.backtrace is Some,
            e.depth() == self.depth() + 1,
    {
        Error::new(message, Some(Box::new(self)))
    }

    /// The error of another library, by its text.
    pub fn outside(text: String) -> (e: Self)
        ensures
            e.message == text,
            e.is_outside(text@),
    {
        Error::from_parts((text, None, None))
    }

    /// The error that the error of another library becomes: it bears that
    /// error's text and has it as its cause.
    pub fn from_outside(text: String) -> (e: Self)
        ensures
            e.wraps_outside(text@),
    {
        let message: String = text.clone();
        Error::new(message, Some(Box::new(Error::outside(text))))
    }

    pub fn from_parts(parts: (String, Option<Box<Error>>, Option<String>)) -> (e: Self)
        ensures
            e.message == parts.0,
            e.inner == parts.1,
            e.backtrace == parts.2,
    {
        Self { message: parts.0, inner: parts.1, backtrace: parts.2 }
    }

    pub fn into_parts(self) -> (parts: (String, Option<Box<Error>>, Option<String>))
        ensures
            parts.0 == self.message,
            parts.1 == self.inner,
            parts.2 == self.backtrace,
    {
        (self.message, self.inner, self.backtrace)
    }

    /// The cause of the error, if it has one.
    pub fn source(&self) -> (cause: Option<&Error>)
        ensures
            match cause {
                Some(c) => self.inner == Some(Box::new(*c)),
                None => self.inner is None,
            },
    {
        match &self.inner {
            Some(inner) => Some(&**inner),
            None => None,
        }
    }

    /// The error as text.
    pub fn to_string(&self) -> (s: String)
        ensures
            s@ == self.rendered(),
        decreases self,
    {
        let mut s: String = self.message.clone();
        match &self.inner {
            None => {},
            Some(inner) => {
                s.append("\nCause: ");
                let cause: String = inner.to_string();
                s.append(cause.as_str());
            },
        }
        match &self.backtrace {
            None => {
                assert(s@ + Seq::<char>::empty() =~= s@);
            },
            Some(backtrace) => {
                s.append("\nBacktrace:\n");
                s.append(backtrace.as_str());
                assert(self.trace_text() =~= "\nBacktrace:\n"@ + backtrace@);
                assert(s@ =~= self.rendered());
            },
        }
        s
    }
}

impl From<String> for Error {
    fn from(error: String) -> (e: Self)
        ensures
            e.message == error,
            e.inner is None,
            e.backtrace is Some,
    {
        Error::new(error, None)
    }
}

impl FromSpecImpl<String> for Error {
    /// The backtrace of the error is taken where it is made, so no value
    /// fixes the error in advance.
    open spec fn obeys_from_spec() -> bool {
        false
    }

    open spec fn from_spec(error: String) -> Self {
        Error { message: error, inner: None, backtrace: None }
    }
}

} // verus!
