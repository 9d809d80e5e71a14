//! The failure kinds that parsing, compiling and running can end in, and the
//! wording of their messages.

use vstd::prelude::*;
use vstd::string::StringExecFns;

verus! {

/// Why a program could not be parsed, compiled or run to its end.
#[derive(Debug, PartialEq, Eq)]
pub enum BfError {
    /// The brackets of the program do not match.
    Parse(String),
    /// A count or a position does not fit the range it is needed in.
    Numeric(String),
    /// The input stream ended early, or a stream failed.
    Io(String),
    /// The machine code could not be finalized.
    Assembler(String),
}

pub type BfResult<T> = Result<T, BfError>;

impl BfError {
    /// The text of the message, whatever the kind.
    pub open spec fn text(&self) -> Seq<char> {
        match self {
            BfError::Parse(s) => s@,
            BfError::Numeric(s) => s@,
            BfError::Io(s) => s@,
            BfError::Assembler(s) => s@,
        }
    }

    /// A `Parse` error with the given text.
    pub open spec fn is_parse(&self, text: Seq<char>) -> bool {
        self is Parse && self.text() == text
    }

    /// A `Numeric` error with the given text.
    pub open spec fn is_numeric(&self, text: Seq<char>) -> bool {
        self is Numeric && self.text() == text
    }

    /// An `Io` error with the given text.
    pub open spec fn is_io(&self, text: Seq<char>) -> bool {
        self is Io && self.text() == text
    }

    /// The message as a string, as it is shown to the user.
    pub fn message(&self) -> (s: String)
        ensures
            s@ == self.text(),
    {
        match self {
            BfError::Parse(s) => s.clone(),
            BfError::Numeric(s) => s.clone(),
            BfError::Io(s) => s.clone(),
            BfError::Assembler(s) => s.clone(),
        }
    }
}

/// The character of a decimal digit.
pub open spec fn digit_char(d: nat) -> char {
    if d == 0 {
        '0'
    } else if d == 1 {
        '1'
    } else if d == 2 {
        '2'
    } else if d == 3 {
        '3'
    } else if d == 4 {
        '4'
    } else if d == 5 {
        '5'
    } else if d == 6 {
        '6'
    } else if d == 7 {
        '7'
    } else if d == 8 {
        '8'
    } else {
        '9'
    }
}

/// The decimal numeral of `n`, without leading zeros.
pub open spec fn decimal(n: nat) -> Seq<char>
    decreases n,
{
    if n < 10 {
        seq![digit_char(n)]
    } else {
        decimal(n / 10).push(digit_char(n % 10))
    }
}

/// The text that reports an end of input where a byte was asked for.
pub open spec fn short_read_text() -> Seq<char> {
    "failed to fill whole buffer"@
}

/// The text that reports a data pointer that left the tape.
pub open spec fn pointer_text() -> Seq<char> {
    "data pointer out of range"@
}

/// The text that reports a count too large for the place it is needed in.
pub open spec fn narrowing_text() -> Seq<char> {
    "out of range integral type conversion attempted"@
}

/// `unmatched '[' at pc=N`
pub open spec fn unmatched_open_at_pc(n: nat) -> Seq<char> {
    "unmatched '[' at pc="@ + decimal(n)
}

/// `unmatched ']' at pc=N`
pub open spec fn unmatched_close_at_pc(n: nat) -> Seq<char> {
    "unmatched ']' at pc="@ + decimal(n)
}

/// `unmatched '['`
pub open spec fn unmatched_open_text() -> Seq<char> {
    "unmatched '['"@
}

/// `Unmatched '[' at index N.`
pub open spec fn unmatched_open_at_index(n: nat) -> Seq<char> {
    "Unmatched '[' at index "@ + decimal(n) + "."@
}

/// `Unmatched ']' at index N.`
pub open spec fn unmatched_close_at_index(n: nat) -> Seq<char> {
    "Unmatched ']' at index "@ + decimal(n) + "."@
}

fn digit_str(d: usize) -> (s: &'static str)
    requires
        d < 10,
    ensures
        s@ == seq![digit_char(d as nat)],
{
    proof {
        reveal_strlit("0");
        reveal_strlit("1");
        reveal_strlit("2");
        reveal_strlit("3");
        reveal_strlit("4");
        reveal_strlit("5");
        reveal_strlit("6");
        reveal_strlit("7");
        reveal_strlit("8");
        reveal_strlit("9");
    }
    let s = if d == 0 {
        "0"
    } else if d == 1 {
        "1"
    } else if d == 2 {
        "2"
    } else if d == 3 {
        "3"
    } else if d == 4 {
        "4"
    } else if d == 5 {
        "5"
    } else if d == 6 {
        "6"
    } else if d == 7 {
        "7"
    } else if d == 8 {
        "8"
    } else {
        "9"
    };
    assert(s@ =~= seq![digit_char(d as nat)]);
    s
}

/// Appends the decimal numeral of `n` to `s`.
pub fn append_decimal(s: &mut String, n: u64)
    ensures
        final(s)@ == old(s)@ + decimal(n as nat),
    decreases n,
{
    if n >= 10 {
        append_decimal(s, n / 10);
    }
    s.append(digit_str((n % 10) as usize));
    proof {
        if n >= 10 {
            assert(old(s)@ + decimal((n / 10) as nat) + seq![digit_char((n % 10) as nat)]
                =~= old(s)@ + decimal(n as nat));
        }
    }
}

/// A `Parse` error whose message is `prefix`, the decimal numeral of `n`,
/// and `suffix`.
pub fn parse_error_at(prefix: &str, n: usize, suffix: &str) -> (e: BfError)
    ensures
        e.is_parse(prefix@ + decimal(n as nat) + suffix@),
{
    let mut s = String::from_str(prefix);
    append_decimal(&mut s, n as u64);
    s.append(suffix);
    BfError::Parse(s)
}

/// A `Parse` error with the given message.
pub fn parse_error(text: &str) -> (e: BfError)
    ensures
        e.is_parse(text@),
{
    BfError::Parse(String::from_str(text))
}

/// The `Io` error of a read that found the input at its end.
pub fn short_read() -> (e: BfError)
    ensures
        e.is_io(short_read_text()),
{
    BfError::Io(String::from_str("failed to fill whole buffer"))
}

/// The `Numeric` error of a data pointer that left the tape.
pub fn pointer_out_of_range() -> (e: BfError)
    ensures
        e.is_numeric(pointer_text()),
{
    BfError::Numeric(String::from_str("data pointer out of range"))
}

/// The `Numeric` error of a count that does not fit where it is needed.
pub fn narrowing_failed() -> (e: BfError)
    ensures
        e.is_numeric(narrowing_text()),
{
    BfError::Numeric(String::from_str("out of range integral type conversion attempted"))
}

} // verus!
