//! The crate's error type.
//!
//! `Again` / `Eof` drive the push/pull loop and are not failures.

use vstd::prelude::*;
use vstd::string::*;

verus! {

/// The bit reader ran past the end of its data.
pub struct OutOfData;

/// Errors (and control-flow signals) produced by the decoder.
#[non_exhaustive]
#[derive(Debug, Clone, PartialEq, Eq)]
pub enum Error {
    /// A code path that is scaffolded but not yet implemented.
    Unimplemented(&'static str),
    /// End of stream: all output has been drained.
    Eof,
    /// More input is required before output can be produced.
    Again,
    /// The bitstream is malformed or internally inconsistent.
    InvalidData(String),
    /// The input is valid but uses a feature outside this decoder's scope
    /// (RExt / SCC / multi-layer profiles are parsed and refused by name).
    Unsupported(String),
}

impl Error {
    /// The error is `InvalidData` with this message.
    pub open spec fn says_invalid(self, msg: Seq<char>) -> bool {
        self matches Error::InvalidData(s) && s@ == msg
    }

    /// The error is `Unsupported` with this message.
    pub open spec fn says_unsupported(self, msg: Seq<char>) -> bool {
        self matches Error::Unsupported(s) && s@ == msg
    }

    pub fn invalid(msg: &str) -> (e: Self)
        ensures
            e.says_invalid(msg@),
    {
        Error::InvalidData(msg.to_string())
    }

    pub fn unsupported(msg: &str) -> (e: Self)
        ensures
            e.says_unsupported(msg@),
    {
        Error::Unsupported(msg.to_string())
    }

    /// The text shown to a user for this error.
    pub open spec fn text(self) -> Seq<char> {
        match self {
            Error::Unimplemented(what) => "not yet implemented: "@ + what@,
            Error::Eof => "end of stream"@,
            Error::Again => "more input required"@,
            Error::InvalidData(msg) => "invalid data: "@ + msg@,
            Error::Unsupported(msg) => "unsupported: "@ + msg@,
        }
    }

    /// The error as a message for a user.
    pub fn message(&self) -> (s: String)
        ensures
            s@ == self.text(),
    {
        match self {
            Error::Unimplemented(what) => joined("not yet implemented: ", what),
            Error::Eof => "end of stream".to_string(),
            Error::Again => "more input required".to_string(),
            Error::InvalidData(msg) => joined("invalid data: ", msg.as_str()),
            Error::Unsupported(msg) => joined("unsupported: ", msg.as_str()),
        }
    }
}

impl From<OutOfData> for Error {
    fn from(e: OutOfData) -> (r: Self)
        ensures
            r.says_invalid("bit reader ran out of data"@),
    {
        Error::invalid("bit reader ran out of data")
    }
}

impl vstd::std_specs::convert::FromSpecImpl<OutOfData> for Error {
    // The message is a string, known by its characters alone: `from` states it.
    open spec fn obeys_from_spec() -> bool {
        false
    }

    open spec fn from_spec(e: OutOfData) -> Self {
        Error::Eof
    }
}

/// Two strings one after the other.
pub fn joined(a: &str, b: &str) -> (s: String)
    ensures
        s@ == a@ + b@,
{
    let mut s = a.to_string();
    s.append(b);
    s
}

/// The decimal digits of a natural number.
pub open spec fn digits(v: nat) -> Seq<char>
    decreases v,
{
    if v < 10 {
        seq![digit(v)]
    } else {
        digits(v / 10).push(digit(v % 10))
    }
}

/// The character of a digit.
pub open spec fn digit(d: nat) -> char {
    if d == 0 {
        '0'
    } else if d == 1 {
        '1'
    } else if d == 2 {
        '2'
    } else if d == 3 {
        '3'
    } else if d == 4 {
        '4'
    } else if d == 5 {
        '5'
    } else if d == 6 {
        '6'
    } else if d == 7 {
        '7'
    } else if d == 8 {
        '8'
    } else {
        '9'
    }
}

/// An integer in decimal, with a leading minus sign if negative.
pub open spec fn decimal(v: int) -> Seq<char> {
    if v < 0 {
        "-"@ + digits((-v) as nat)
    } else {
        digits(v as nat)
    }
}

fn push_digit(s: &mut String, d: u64)
    requires
        d < 10,
    ensures
        final(s)@ == old(s)@.push(digit(d as nat)),
{
    proof {
        reveal_strlit("0");
        reveal_strlit("1");
        reveal_strlit("2");
        reveal_strlit("3");
        reveal_strlit("4");
        reveal_strlit("5");
        reveal_strlit("6");
        reveal_strlit("7");
        reveal_strlit("8");
        reveal_strlit("9");
    }
    let c = match d {
        0 => "0",
        1 => "1",
        2 => "2",
        3 => "3",
        4 => "4",
        5 => "5",
        6 => "6",
        7 => "7",
        8 => "8",
        _ => "9",
    };
    s.append(c);
    assert(s@ =~= old(s)@.push(digit(d as nat)));
}

fn push_digits(s: &mut String, v: u64)
    ensures
        final(s)@ == old(s)@ + digits(v as nat),
    decreases v,
{
    if v < 10 {
        push_digit(s, v);
        assert(s@ =~= old(s)@ + digits(v as nat));
    } else {
        push_digits(s, v / 10);
        push_digit(s, v % 10);
        assert(s@ =~= old(s)@ + digits(v as nat));
    }
}

/// `text` followed by `v` in decimal.
pub fn with_number(text: &str, v: i64) -> (s: String)
    requires
        v > i64::MIN,
    ensures
        s@ == text@ + decimal(v as int),
{
    let mut s = text.to_string();
    if v < 0 {
        s.append("-");
        push_digits(&mut s, (-v) as u64);
    } else {
        push_digits(&mut s, v as u64);
    }
    assert(s@ =~= text@ + decimal(v as int));
    s
}

/// The number that decimal digits stand for.
pub open spec fn number(s: Seq<char>) -> int
    decreases s.len(),
{
    if s.len() == 0 {
        0
    } else {
        10 * number(s.drop_last()) + (s.last() as int - '0' as int)
    }
}

/// A number reads back from its digits, which do not start with a zero unless that
/// is all; a negative one has a minus sign before them.
pub proof fn lemma_decimal_reads_back(v: int)
    ensures
        v >= 0 ==> number(decimal(v)) == v,
        v < 0 ==> decimal(v) == "-"@ + decimal(-v),
        v > 0 ==> decimal(v)[0] != '0',
        decimal(0) == seq!['0'],
{
    if v >= 0 {
        lemma_digits(v as nat);
    }
}

proof fn lemma_digits(v: nat)
    ensures
        number(digits(v)) == v,
        digits(v).len() > 0,
        v > 0 ==> digits(v)[0] != '0',
    decreases v,
{
    if v < 10 {
        let s = seq![digit(v)];
        assert(s.drop_last() =~= Seq::empty());
        assert(number(s.drop_last()) == 0);
    } else {
        lemma_digits(v / 10);
        assert(digits(v).drop_last() =~= digits(v / 10));
    }
}

} // verus!
