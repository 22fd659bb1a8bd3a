//! What can go wrong while decompressing.
use vstd::prelude::*;

verus! {

/// Why no more input could be read.
#[derive(Debug, Clone, Copy, PartialEq, Eq, Structural)]
pub enum IoError {
    /// The input ended before the bytes that were asked for.
    UnexpectedEof,
}

/// The errors of this library.
#[derive(Debug)]
pub enum Error {
    /// The input could not be read.
    Io(IoError),
    /// This library supports only level 1 and 3. If another level is detected,
    /// this error is returned.
    UnsupportedLevel,
    /// If the given maximum decompressed size is exceeded, this error is
    /// returned.
    SizeLimitExceeded { dec: u32, max: u32 },
    /// If the compressed data cannot be decompressed, this error is returned,
    /// with a short description.
    CorruptData(String),
}

/// An error as contracts speak of it.
pub enum ErrorView {
    Io(IoError),
    UnsupportedLevel,
    SizeLimitExceeded { dec: u32, max: u32 },
    CorruptData(Seq<char>),
}

impl View for Error {
    type V = ErrorView;

    open spec fn view(&self) -> ErrorView {
        match *self {
            Error::Io(e) => ErrorView::Io(e),
            Error::UnsupportedLevel => ErrorView::UnsupportedLevel,
            Error::SizeLimitExceeded { dec, max } => ErrorView::SizeLimitExceeded { dec, max },
            Error::CorruptData(s) => ErrorView::CorruptData(s@),
        }
    }
}

/// The character of the decimal digit `d`.
pub open spec fn digit(d: nat) -> char {
    if d == 0 {
        '0'
    } else if d == 1 {
        '1'
    } else if d == 2 {
        '2'
    } else if d == 3 {
        '3'
    } else if d == 4 {
        '4'
    } else if d == 5 {
        '5'
    } else if d == 6 {
        '6'
    } else if d == 7 {
        '7'
    } else if d == 8 {
        '8'
    } else {
        '9'
    }
}

/// `n` in decimal.
pub open spec fn decimal(n: nat) -> Seq<char>
    decreases n,
{
    if n < 10 {
        seq![digit(n)]
    } else {
        decimal(n / 10).push(digit(n % 10))
    }
}

/// A text with a number in it.
pub open spec fn numbered(before: Seq<char>, n: nat, after: Seq<char>) -> Seq<char> {
    before + decimal(n) + after
}

/// Appends the decimal digit `d` to `s`.
fn push_digit(s: &mut String, d: u32)
    requires
        d < 10,
    ensures
        final(s)@ == old(s)@.push(digit(d as nat)),
{
    proof {
        reveal_strlit("0");
        reveal_strlit("1");
        reveal_strlit("2");
        reveal_strlit("3");
        reveal_strlit("4");
        reveal_strlit("5");
        reveal_strlit("6");
        reveal_strlit("7");
        reveal_strlit("8");
        reveal_strlit("9");
    }
    let text = match d {
        0 => "0",
        1 => "1",
        2 => "2",
        3 => "3",
        4 => "4",
        5 => "5",
        6 => "6",
        7 => "7",
        8 => "8",
        _ => "9",
    };
    assert(text@ =~= seq![digit(d as nat)]);
    s.append(text);
    assert(s@ =~= old(s)@.push(digit(d as nat)));
}

/// Appends `n` in decimal to `s`.
pub(crate) fn push_decimal(s: &mut String, n: u32)
    ensures
        final(s)@ == old(s)@ + decimal(n as nat),
    decreases n,
{
    if n < 10 {
        push_digit(s, n);
        assert(s@ =~= old(s)@ + decimal(n as nat));
    } else {
        push_decimal(s, n / 10);
        push_digit(s, n % 10);
        assert(s@ =~= old(s)@ + decimal(n as nat));
    }
}

/// The text `before`, then `n` in decimal, then `after`.
pub(crate) fn format_number(before: &str, n: u32, after: &str) -> (s: String)
    ensures
        s@ == numbered(before@, n as nat, after@),
{
    let mut s = before.to_owned();
    push_decimal(&mut s, n);
    s.append(after);
    s
}

impl Error {
    /// What the error says to a reader.
    pub open spec fn text(self) -> Seq<char> {
        match self {
            Error::Io(IoError::UnexpectedEof) => "failed to fill whole buffer"@,
            Error::UnsupportedLevel =>
                "Unsupported QuickLZ level, this library only supports level 1 and 3"@,
            Error::SizeLimitExceeded { dec, max } => numbered(
                "Maximum uncompressed size exceeded: "@,
                dec as nat,
                "/"@,
            ) + decimal(max as nat),
            Error::CorruptData(s) => s@,
        }
    }

    /// The error in words.
    pub fn message(&self) -> (s: String)
        ensures
            s@ == self.text(),
    {
        match self {
            Error::Io(IoError::UnexpectedEof) => "failed to fill whole buffer".to_owned(),
            Error::UnsupportedLevel =>
                "Unsupported QuickLZ level, this library only supports level 1 and 3".to_owned(),
            Error::SizeLimitExceeded { dec, max } => {
                let mut s = format_number("Maximum uncompressed size exceeded: ", *dec, "/");
                push_decimal(&mut s, *max);
                s
            },
            Error::CorruptData(s) => s.clone(),
        }
    }
}

}
