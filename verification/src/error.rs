use crate::text::push_char;
use vstd::prelude::*;
use vstd::string::*;

verus! {

/// Reasons why a `.cact` model is rejected.
#[derive(Debug, Clone, PartialEq, Eq, Structural)]
pub enum CactError {
    TooShort,
    BadTag(u32),
    BadBounds,
    BadShape,
    BadUtf8,
    MissingTokenizer,
    UnsupportedDtype(u8),
}

/// The decimal digits of a number, most significant first.
pub open spec fn decimal(n: nat) -> Seq<char>
    decreases n,
{
    if n < 10 {
        seq![(n + 48) as char]
    } else {
        decimal(n / 10) + seq![((n % 10) + 48) as char]
    }
}

/// The name of an error with its value, as `{:?}` writes it.
pub open spec fn debug_text(e: CactError) -> Seq<char> {
    match e {
        CactError::TooShort => "TooShort"@,
        CactError::BadTag(t) => "BadTag("@ + decimal(t as nat) + ")"@,
        CactError::BadBounds => "BadBounds"@,
        CactError::BadShape => "BadShape"@,
        CactError::BadUtf8 => "BadUtf8"@,
        CactError::MissingTokenizer => "MissingTokenizer"@,
        CactError::UnsupportedDtype(d) => "UnsupportedDtype("@ + decimal(d as nat) + ")"@,
    }
}

/// The human-readable description of an error.
pub open spec fn error_message(e: CactError) -> Seq<char> {
    "invalid cact model: "@ + debug_text(e)
}

/// Appends the decimal digits of `n`.
fn push_decimal(out: &mut String, n: u32)
    ensures
        final(out)@ == old(out)@ + decimal(n as nat),
    decreases n,
{
    if n >= 10 {
        push_decimal(out, n / 10);
    }
    let d = (n % 10) as u8;
    push_char(out, (d + 48) as char);
    assert(out@ =~= old(out)@ + decimal(n as nat));
}

impl CactError {
    /// The description of the error: `invalid cact model: ` followed by its
    /// name and value.
    pub fn message(&self) -> (r: String)
        ensures
            r@ == error_message(*self),
    {
        let mut out = String::from_str("invalid cact model: ");
        match self {
            CactError::TooShort => out.append("TooShort"),
            CactError::BadTag(t) => {
                out.append("BadTag(");
                push_decimal(&mut out, *t);
                out.append(")");
            },
            CactError::BadBounds => out.append("BadBounds"),
            CactError::BadShape => out.append("BadShape"),
            CactError::BadUtf8 => out.append("BadUtf8"),
            CactError::MissingTokenizer => out.append("MissingTokenizer"),
            CactError::UnsupportedDtype(d) => {
                out.append("UnsupportedDtype(");
                push_decimal(&mut out, *d as u32);
                out.append(")");
            },
        }
        out
    }
}

} // verus!
