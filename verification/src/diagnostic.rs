use crate::grammar::{Expected, Fault, Stop};
use crate::parser::{text_of, Failure};
use vstd::prelude::*;
use vstd::string::StringExecFns;

verus! {

/// A syntax error: where the text stops being a program, and what was
/// looked for there.
///
/// `line` counts from one. The columns count characters from zero within the
/// line and span the one character at which the parser stopped. `source` is
/// that line, without its line feed.
#[derive(Debug, PartialEq, Eq)]
pub struct SyntaxError {
    pub line: usize,
    pub column_start: usize,
    pub column_end: usize,
    pub source: String,
    pub fault: Fault,
}

/// What contracts say of a `SyntaxError`.
pub struct SyntaxErrorView {
    pub line: int,
    pub column_start: int,
    pub column_end: int,
    pub source: Seq<char>,
    pub fault: Fault,
}

impl View for SyntaxError {
    type V = SyntaxErrorView;

    open spec fn view(&self) -> SyntaxErrorView {
        SyntaxErrorView {
            line: self.line as int,
            column_start: self.column_start as int,
            column_end: self.column_end as int,
            source: self.source@,
            fault: self.fault,
        }
    }
}

/// The offset at which the line that holds offset `at` starts.
pub open spec fn line_start(s: Seq<char>, at: int) -> int
    decreases at,
{
    if at <= 0 || at > s.len() {
        0
    } else if s[at - 1] == '\n' {
        at
    } else {
        line_start(s, at - 1)
    }
}

/// The number of the line that holds offset `at`: one more than the number
/// of line feeds before `at`.
pub open spec fn line_number(s: Seq<char>, at: int) -> int
    decreases at,
{
    if at <= 0 || at > s.len() {
        1
    } else if s[at - 1] == '\n' {
        line_number(s, at - 1) + 1
    } else {
        line_number(s, at - 1)
    }
}

/// The offset of the line feed that ends the line that holds offset `at`,
/// or the length of the text where none does.
pub open spec fn line_stop(s: Seq<char>, at: int) -> int
    decreases s.len() - at,
{
    if at < 0 || at >= s.len() {
        s.len() as int
    } else if s[at] == '\n' {
        at
    } else {
        line_stop(s, at + 1)
    }
}

/// The syntax error that a failure at an offset of `s` amounts to.
pub open spec fn located(s: Seq<char>, stop: Stop) -> SyntaxErrorView {
    SyntaxErrorView {
        line: line_number(s, stop.at),
        column_start: stop.at - line_start(s, stop.at),
        column_end: stop.at - line_start(s, stop.at) + 1,
        source: s.subrange(line_start(s, stop.at), line_stop(s, stop.at)),
        fault: stop.fault,
    }
}

/// Finds the line and the column of a failure.
pub fn locate(s: &[char], failure: Failure) -> (e: SyntaxError)
    requires
        failure.at <= s@.len(),
        failure.at + 1 < usize::MAX,
    ensures
        e@ == located(s@, failure@),
        e.wf(),
{
    let mut line: usize = 1;
    let mut start: usize = 0;
    let mut k: usize = 0;
    while k < failure.at
        invariant
            k <= failure.at <= s@.len(),
            failure.at + 1 < usize::MAX,
            start <= k,
            1 <= line <= k + 1,
            line == line_number(s@, k as int),
            start == line_start(s@, k as int),
            forall|t: int| start <= t < k ==> s@[t] != '\n',
        decreases failure.at - k,
    {
        if s[k] == '\n' {
            line += 1;
            start = k + 1;
        }
        k += 1;
    }
    let mut stop = failure.at;
    while stop < s.len() && s[stop] != '\n'
        invariant
            start <= failure.at <= stop <= s@.len(),
            line_stop(s@, stop as int) == line_stop(s@, failure.at as int),
            forall|t: int| start <= t < stop ==> s@[t] != '\n',
        decreases s@.len() - stop,
    {
        stop += 1;
    }
    let source = text_of(s, start, stop);
    assert(!source@.contains('\n')) by {
        if source@.contains('\n') {
            let t = choose|t: int| 0 <= t < source@.len() && source@[t] == '\n';
            assert(s@[start + t] == '\n');
        }
    }
    SyntaxError {
        line,
        column_start: failure.at - start,
        column_end: failure.at - start + 1,
        source,
        fault: failure.fault,
    }
}

/// The words for what was looked for.
pub open spec fn description(what: Expected) -> Seq<char> {
    match what {
        Expected::Function => "`fn`"@,
        Expected::Identifier => "a name"@,
        Expected::OpenParen => "`(`"@,
        Expected::CloseParen => "`)`"@,
        Expected::Arrow => "`->`"@,
        Expected::TypeName => "`bool` or `int`"@,
        Expected::OpenBrace => "`{`"@,
        Expected::Semicolon => "`;`"@,
        Expected::Equals => "`=`"@,
        Expected::Expression => "an expression"@,
    }
}

/// The message that goes with a fault.
pub open spec fn message(fault: Fault) -> Seq<char> {
    match fault {
        Fault::Mismatch(what) => "Expected: "@ + description(what),
        Fault::Overflow => "Expected: a number no greater than 2147483647"@,
    }
}

impl Expected {
    /// The words for what was looked for.
    pub fn describe(&self) -> (words: &'static str)
        ensures
            words@ == description(*self),
    {
        match self {
            Expected::Function => "`fn`",
            Expected::Identifier => "a name",
            Expected::OpenParen => "`(`",
            Expected::CloseParen => "`)`",
            Expected::Arrow => "`->`",
            Expected::TypeName => "`bool` or `int`",
            Expected::OpenBrace => "`{`",
            Expected::Semicolon => "`;`",
            Expected::Equals => "`=`",
            Expected::Expression => "an expression",
        }
    }
}

impl Fault {
    /// The message that goes with the fault.
    pub fn describe(&self) -> (words: String)
        ensures
            words@ == message(*self),
    {
        match self {
            Fault::Mismatch(what) => String::from_str("Expected: ").concat(what.describe()),
            Fault::Overflow => String::from_str("Expected: a number no greater than 2147483647"),
        }
    }
}

/// What `chic` draws for one error: a title, the line with its number, and
/// a mark under the columns from `start` up to `end` with the message
/// beside it.
pub uninterp spec fn chic_rendering(
    label: Seq<char>,
    line: int,
    start: int,
    end: int,
    source: Seq<char>,
    message: Seq<char>,
) -> Seq<char>;

/// `chic::Error::new`, `error` and `to_string`, one after the other: the
/// text drawn depends on the six arguments alone. Where the mark would end
/// before it starts, or the line number has no successor, the drawing
/// overflows; such arguments are left out. So is a source of more than one
/// line: this library draws the one line of the error.
#[verifier::external_body]
fn chic_error(
    label: &str,
    line: usize,
    start: usize,
    end: usize,
    source: &str,
    message: &str,
) -> (out: String)
    requires
        start <= end,
        line < usize::MAX,
        !source@.contains('\n'),
    ensures
        out@ == chic_rendering(
            label@,
            line as int,
            start as int,
            end as int,
            source@,
            message@,
        ),
{
    chic::Error::new(label).error(line, start, end, source, message).to_string()
}

impl SyntaxError {
    /// The columns span one character, the line number has a successor, and
    /// the source line holds no line feed.
    pub open spec fn wf(&self) -> bool {
        &&& self.column_end == self.column_start + 1
        &&& 1 <= self.line < usize::MAX
        &&& !self.source@.contains('\n')
    }

    /// The message that goes with the error.
    pub fn message(&self) -> (words: String)
        ensures
            words@ == message(self.fault),
    {
        self.fault.describe()
    }

    /// The error as a drawing for a terminal: the source line, the mark
    /// under the column, and the message.
    pub fn render(&self) -> (out: String)
        requires
            self.wf(),
        ensures
            out@ == chic_rendering(
                "An error occurred while parsing:"@,
                self.line as int,
                self.column_start as int,
                self.column_end as int,
                self.source@,
                message(self.fault),
            ),
    {
        let words = self.message();
        chic_error(
            "An error occurred while parsing:",
            self.line,
            self.column_start,
            self.column_end,
            self.source.as_str(),
            words.as_str(),
        )
    }
}

} // verus!
