use vstd::prelude::*;

verus! {

/// The settings of one run: the model's order, how many names to print, and the corpus file.
pub struct ProgramArgs {
    pub order: usize,
    pub limit: usize,
    pub corpus: String,
}

#[derive(Debug, PartialEq, Eq, Structural, Clone, Copy)]
pub enum ProgramArgErrorKind {
    /// A number did not parse, or the order was zero.
    NumberParseError,
    /// The corpus is not an existing file.
    InvalidFilePath,
}

#[derive(Debug, PartialEq, Eq, Structural, Clone, Copy)]
pub struct ProgramArgError {
    pub kind: ProgramArgErrorKind,
}

impl ProgramArgError {
    /// A message for the user.
    pub fn message(&self) -> (r: &'static str)
        ensures
            self.kind == ProgramArgErrorKind::InvalidFilePath ==> r@ == "Invalid file path"@,
            self.kind == ProgramArgErrorKind::NumberParseError ==> r@ == "Invalid number"@,
    {
        match self.kind {
            ProgramArgErrorKind::InvalidFilePath => "Invalid file path",
            ProgramArgErrorKind::NumberParseError => "Invalid number",
        }
    }
}

/// The value of a string of decimal digits.
pub open spec fn digits_value(s: Seq<char>) -> int
    decreases s.len(),
{
    if s.len() == 0 {
        0
    } else {
        digits_value(s.drop_last()) * 10 + (s.last() as int - '0' as int)
    }
}

/// The digits of an unsigned number: all of it, or what follows one leading `+`.
pub open spec fn unsigned_digits(s: Seq<char>) -> Seq<char> {
    if s.len() > 0 && s[0] == '+' {
        s.skip(1)
    } else {
        s
    }
}

/// What `usize::from_str` makes of `s`: a `usize` written in decimal, with an optional `+`.
pub open spec fn usize_of(s: Seq<char>) -> Option<usize> {
    let d = unsigned_digits(s);
    if d.len() > 0 && (forall|i: int| 0 <= i < d.len() ==> '0' <= #[trigger] d[i] <= '9')
        && digits_value(d) <= usize::MAX {
        Some(digits_value(d) as usize)
    } else {
        None
    }
}

/// Relies on `usize::from_str`: decimal digits after an optional `+`, whose value fits.
#[verifier::external_body]
fn parse_usize(s: &str) -> (r: Option<usize>)
    ensures
        r == usize_of(s@),
{
    s.parse::<usize>().ok()
}

impl ProgramArgs {
    /// Reads the settings from their text: the order and the limit are decimal numbers, the
    /// order at least one, and the corpus must name an existing file.
    pub fn parse(order: &str, limit: &str, corpus: String, corpus_is_file: bool) -> (r: Result<
        ProgramArgs,
        ProgramArgError,
    >)
        ensures
            match r {
                Ok(a) => usize_of(order@) == Some(a.order) && a.order >= 1 && usize_of(limit@)
                    == Some(a.limit) && a.corpus@ == corpus@ && corpus_is_file,
                Err(e) => if usize_of(order@) is None || usize_of(order@) == Some(0usize)
                    || usize_of(limit@) is None {
                    e.kind == ProgramArgErrorKind::NumberParseError
                } else {
                    !corpus_is_file && e.kind == ProgramArgErrorKind::InvalidFilePath
                },
            },
    {
        let order = match parse_usize(order) {
            Some(n) if n >= 1 => n,
            _ => {
                return Err(ProgramArgError { kind: ProgramArgErrorKind::NumberParseError });
            },
        };
        let limit = match parse_usize(limit) {
            Some(n) => n,
            None => {
                return Err(ProgramArgError { kind: ProgramArgErrorKind::NumberParseError });
            },
        };
        if !corpus_is_file {
            return Err(ProgramArgError { kind: ProgramArgErrorKind::InvalidFilePath });
        }
        Ok(ProgramArgs { order, limit, corpus })
    }
}

} // verus!
