//! Errors of the library.
use crate::text::{decimal, push_decimal};
use vstd::prelude::*;

verus! {

/// The kind of an [`ApplicationError`].
#[derive(Clone, Copy, PartialEq, Eq, Debug, Structural)]
pub enum ApplicationErrorType {
    /// A generic error implying an internal problem.
    InternalError,
    /// An input or output related error.
    IOError,
    /// Input data that cannot be read as peaks.
    InputDataError,
    /// Output that cannot be written.
    OutputOperationError,
    /// A peak region whose start lies after its end.
    InvalidInterval,
    /// A peak summit outside of its peak region.
    SummitOutOfRange,
}

/// A number written with at least three digits, padded with leading zeros.
pub open spec fn zero_padded(n: nat) -> Seq<char> {
    if n < 10 {
        seq!['0', '0'] + decimal(n)
    } else if n < 100 {
        seq!['0'] + decimal(n)
    } else {
        decimal(n)
    }
}

/// The first `k` lines of a message stack listed latest first: line `i` holds the number
/// `i`, padded to three digits, a colon and a space, then the `i`-th latest message.
pub open spec fn message_lines(m: Seq<Seq<char>>, k: int) -> Seq<char>
    decreases k,
{
    if k <= 0 {
        seq![]
    } else {
        message_lines(m, k - 1) + zero_padded((k - 1) as nat) + seq![':', ' '] + m[m.len() - k]
            + seq!['\n']
    }
}

/// An error together with its stack of messages, the first one added first.
#[derive(Clone, Debug)]
pub struct ApplicationError {
    error_type: ApplicationErrorType,
    internal_messages: Vec<String>,
}

impl ApplicationError {
    /// The kind of the error.
    pub closed spec fn kind(&self) -> ApplicationErrorType {
        self.error_type
    }

    /// The messages of the error, the first one added first.
    pub closed spec fn messages(&self) -> Seq<Seq<char>> {
        self.internal_messages@.map_values(|m: String| m@)
    }

    /// Creates a new error of the given kind with a single message.
    pub fn new(error_type: ApplicationErrorType, message: &str) -> (r: Self)
        ensures
            r.kind() == error_type,
            r.messages() == seq![message@],
    {
        let mut internal_messages = Vec::new();
        internal_messages.push(String::from_str(message));
        let r = Self { error_type, internal_messages };
        proof {
            assert(r.messages() =~= seq![message@]);
        }
        r
    }

    /// Adds another message on top of the message stack.
    pub fn chain(self, message: &str) -> (r: Self)
        ensures
            r.kind() == self.kind(),
            r.messages() == self.messages().push(message@),
    {
        let mut r = self;
        r.internal_messages.push(String::from_str(message));
        proof {
            assert(r.messages() =~= self.messages().push(message@));
        }
        r
    }

    /// The message stack listed latest first, one numbered line per message.
    pub fn format_internal_messages(&self) -> (r: String)
        ensures
            r@ == message_lines(self.messages(), self.messages().len() as int),
    {
        let n = self.internal_messages.len();
        let mut text = String::new();
        let mut index: usize = 0;
        while index < n
            invariant
                n == self.internal_messages@.len(),
                index <= n,
                text@ == message_lines(self.messages(), index as int),
            decreases n - index,
        {
            proof {
                reveal_strlit("0");
                reveal_strlit("00");
                reveal_strlit(": ");
                reveal_strlit("\n");
            }
            let ghost before = text@;
            if index < 10 {
                text.append("00");
            } else if index < 100 {
                text.append("0");
            }
            push_decimal(&mut text, index as u64);
            text.append(": ");
            text.append(self.internal_messages[n - 1 - index].as_str());
            text.append("\n");
            proof {
                assert(self.messages()[n - 1 - index] == self.internal_messages@[n - 1 - index]@);
                assert(text@ =~= message_lines(self.messages(), index + 1));
            }
            index = index + 1;
        }
        text
    }

    /// The kind of the error.
    pub fn error_type(&self) -> (r: ApplicationErrorType)
        ensures
            r == self.kind(),
    {
        self.error_type
    }

    /// The messages of the error, the first one added first.
    pub fn internal_messages(&self) -> (r: &Vec<String>)
        ensures
            r@.map_values(|m: String| m@) == self.messages(),
    {
        &self.internal_messages
    }
}

} // verus!
