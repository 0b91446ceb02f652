//! The error type shared by the parsers, the subscription index and the
//! connection handling.

use vstd::prelude::*;
use vstd::string::StringExecFns;

verus! {

/// A byte in a structural position was not the expected one, a numeric field
/// did not parse, or a command had the wrong number of fields.
pub const ERROR_PARSE: i32 = 1;

/// The declared payload size was zero or above [`crate::wire::MAX_PAYLOAD`].
pub const ERROR_MESSAGE_SIZE_TOO_LARGE: i32 = 2;

/// A subscription subject had an empty token or a misplaced `>`.
pub const ERROR_INVALID_SUBJECT: i32 = 3;

/// A subscription to remove was not in the index.
pub const ERROR_SUBSCRIBTION_NOT_FOUND: i32 = 4;

/// The peer closed the connection, or reading from it failed.
pub const ERROR_CONNECTION_CLOSED: i32 = 5;

/// A message was published to a subject with a wildcard.
pub const ERROR_NON_LITERAL_SUBJECT: i32 = 6;

/// An error, identified by one of the codes above.
#[derive(Debug, Clone, Copy, PartialEq, Eq, Structural)]
pub struct NError {
    pub err_code: i32,
}

/// What [`NError::error_description`] says of an error code.
pub open spec fn description_of(err_code: i32) -> Seq<char> {
    if err_code == ERROR_PARSE {
        "parse error"@
    } else {
        "unkown error"@
    }
}

/// The character of the digit `d`.
pub open spec fn digit_char(d: nat) -> char {
    if d == 0 {
        '0'
    } else if d == 1 {
        '1'
    } else if d == 2 {
        '2'
    } else if d == 3 {
        '3'
    } else if d == 4 {
        '4'
    } else if d == 5 {
        '5'
    } else if d == 6 {
        '6'
    } else if d == 7 {
        '7'
    } else if d == 8 {
        '8'
    } else {
        '9'
    }
}

/// The decimal digits of `n`, without leading zeros.
pub open spec fn nat_text(n: nat) -> Seq<char>
    decreases n,
{
    if n < 10 {
        seq![digit_char(n)]
    } else {
        nat_text(n / 10).push(digit_char(n % 10))
    }
}

/// The number `n` in decimal, with a minus sign if it is negative.
pub open spec fn int_text(n: int) -> Seq<char> {
    if n < 0 {
        seq!['-'] + nat_text((-n) as nat)
    } else {
        nat_text(n as nat)
    }
}

/// The text of an error: its code and its description.
pub open spec fn error_text(err_code: i32) -> Seq<char> {
    "NError["@ + int_text(err_code as int) + ","@ + description_of(err_code) + "]"@
}

/// The digit `d` as a text.
fn digit_str(d: u8) -> (text: &'static str)
    requires
        d < 10,
    ensures
        text@ == seq![digit_char(d as nat)],
{
    proof {
        reveal_strlit("0");
        reveal_strlit("1");
        reveal_strlit("2");
        reveal_strlit("3");
        reveal_strlit("4");
        reveal_strlit("5");
        reveal_strlit("6");
        reveal_strlit("7");
        reveal_strlit("8");
        reveal_strlit("9");
    }
    let text = if d == 0 {
        "0"
    } else if d == 1 {
        "1"
    } else if d == 2 {
        "2"
    } else if d == 3 {
        "3"
    } else if d == 4 {
        "4"
    } else if d == 5 {
        "5"
    } else if d == 6 {
        "6"
    } else if d == 7 {
        "7"
    } else if d == 8 {
        "8"
    } else {
        "9"
    };
    assert(text@ =~= seq![digit_char(d as nat)]);
    text
}

/// Adds the decimal digits of `n` to `text`.
fn push_number(text: &mut String, n: u32)
    ensures
        final(text)@ == old(text)@ + nat_text(n as nat),
    decreases n,
{
    if n >= 10 {
        push_number(text, n / 10);
    }
    text.append(digit_str((n % 10) as u8));
    assert(text@ =~= old(text)@ + nat_text(n as nat));
}

impl NError {
    pub fn new(err_code: i32) -> (e: Self)
        ensures
            e.err_code == err_code,
    {
        Self { err_code }
    }

    /// A short text for the error: parse errors are named, every other code
    /// shares one text.
    pub fn error_description(&self) -> (text: &'static str)
        ensures
            text@ == description_of(self.err_code),
    {
        if self.err_code == ERROR_PARSE {
            "parse error"
        } else {
            "unkown error"
        }
    }

    /// The error as a text: `NError[`, the code, a comma, the description,
    /// and `]`.
    pub fn to_string(&self) -> (text: String)
        ensures
            text@ == error_text(self.err_code),
    {
        let mut text = String::from_str("NError[");
        if self.err_code < 0 {
            proof {
                reveal_strlit("-");
            }
            text.append("-");
            assert(text@ =~= "NError["@ + seq!['-']);
        }
        let size: u32 = if self.err_code < 0 {
            (-(self.err_code as i64)) as u32
        } else {
            self.err_code as u32
        };
        push_number(&mut text, size);
        assert(text@ =~= "NError["@ + int_text(self.err_code as int));
        text.append(",");
        text.append(self.error_description());
        text.append("]");
        text
    }
}

} // verus!
