//! File positions, ranges, and leveled diagnostics, plus the result type that
//! carries a value together with the diagnostics produced while computing it.

use vstd::prelude::*;

verus! {

/// A single point of text in a specific file: the file's path and a
/// zero-based (line, column) pair.
#[derive(Debug, PartialEq)]
pub struct FilePosition {
    pub path: String,
    pub position: (usize, usize),
}

/// Number of `'\n'` characters in `s`.
pub open spec fn count_line_breaks(s: Seq<char>) -> nat
    decreases s.len(),
{
    if s.len() == 0 {
        0
    } else {
        count_line_breaks(s.drop_last()) + if s.last() == '\n' {
            1nat
        } else {
            0nat
        }
    }
}

/// Index of the last `'\n'` in `s`, or `-1` if there is none.
pub open spec fn last_line_break(s: Seq<char>) -> int
    decreases s.len(),
{
    if s.len() == 0 {
        -1
    } else if s.last() == '\n' {
        s.len() - 1
    } else {
        last_line_break(s.drop_last())
    }
}

/// The portion of an image whose line breaks count toward the range height:
/// a trailing newline belongs to the line it ends, so it is not counted.
pub open spec fn searched_part(s: Seq<char>) -> Seq<char> {
    if s.len() > 0 && s.last() == '\n' {
        s.drop_last()
    } else {
        s
    }
}

/// The range covered by the image `s` when it starts at position `pos`:
/// single-line images end on the start line after `len - 1` more columns;
/// an image with `k` counted line breaks ends `k` lines down, at the column
/// equal to the number of characters after the last counted break.
pub open spec fn spec_compute_range(pos: FilePosition, s: Seq<char>) -> FileRange {
    let search = searched_part(s);
    if count_line_breaks(search) == 0 {
        FileRange {
            path: pos.path,
            start: pos.position,
            end: (pos.position.0, (pos.position.1 + s.len() - 1) as usize),
        }
    } else {
        FileRange {
            path: pos.path,
            start: pos.position,
            end: (
                (pos.position.0 + count_line_breaks(search)) as usize,
                (s.len() - last_line_break(search) - 1) as usize,
            ),
        }
    }
}

impl FilePosition {
    pub fn new(path: String, position: (usize, usize)) -> (r: FilePosition)
        ensures
            r.path == path,
            r.position == position,
    {
        FilePosition { path, position }
    }

    pub fn path(&self) -> (r: &String)
        ensures
            r == &self.path,
    {
        &self.path
    }

    pub fn position(&self) -> (r: (usize, usize))
        ensures
            r == self.position,
    {
        self.position
    }

    /// Range of the text `image` when it starts at this position.
    pub fn compute_range(&self, image: &str) -> (r: FileRange)
        requires
            image@.len() >= 1,
            self.position.0 + image@.len() <= usize::MAX,
            self.position.1 + image@.len() <= usize::MAX,
        ensures
            r == spec_compute_range(*self, image@),
    {
        let ghost s = image@;
        let len = image.unicode_len();
        // the searched part leaves out a trailing newline: it ends the last line
        let search_len = if image.get_char(len - 1) == '\n' {
            len - 1
        } else {
            len
        };
        proof {
            assert(searched_part(s) == s.subrange(0, search_len as int));
        }
        let mut breaks: usize = 0;
        let mut last_break: usize = 0;
        let mut has_break: bool = false;
        let mut i: usize = 0;
        while i < search_len
            invariant
                i <= search_len <= s.len(),
                s.len() == image@.len() <= usize::MAX,
                s == image@,
                breaks == count_line_breaks(s.subrange(0, i as int)),
                has_break <==> count_line_breaks(s.subrange(0, i as int)) > 0,
                has_break ==> last_break == last_line_break(s.subrange(0, i as int)),
                has_break ==> last_break < i,
                breaks <= i,
            decreases search_len - i,
        {
            proof {
                assert(s.subrange(0, i + 1).drop_last() == s.subrange(0, i as int));
                assert(s.subrange(0, i + 1).last() == s[i as int]);
            }
            if image.get_char(i) == '\n' {
                breaks = breaks + 1;
                last_break = i;
                has_break = true;
            }
            i = i + 1;
        }
        let start = self.position;
        if !has_break {
            FileRange {
                path: self.path.clone(),
                start,
                end: (start.0, start.1 + len - 1),
            }
        } else {
            FileRange {
                path: self.path.clone(),
                start,
                end: (start.0 + breaks, len - last_break - 1),
            }
        }
    }

    /// The position at the start of the following line.
    pub fn next_line(&self) -> (r: FilePosition)
        requires
            self.position.0 < usize::MAX,
        ensures
            r.path == self.path,
            r.position == (((self.position.0 + 1) as usize, 0usize)),
    {
        FilePosition { path: self.path.clone(), position: (self.position.0 + 1, 0) }
    }

    /// The position one column to the right.
    pub fn next_column(&self) -> (r: FilePosition)
        requires
            self.position.1 < usize::MAX,
        ensures
            r.path == self.path,
            r.position == ((self.position.0, (self.position.1 + 1) as usize)),
    {
        FilePosition { path: self.path.clone(), position: (self.position.0, self.position.1 + 1) }
    }
}

/// Whether position `a` comes no later than `b` in a file, comparing the line
/// first and the column second.
pub open spec fn position_le(a: (usize, usize), b: (usize, usize)) -> bool {
    a.0 < b.0 || (a.0 == b.0 && a.1 <= b.1)
}

/// A range of text in a specific file: the file's path, the start (line,
/// column), and the end (line, column), both inclusive.
#[derive(Debug, PartialEq)]
pub struct FileRange {
    pub path: String,
    pub start: (usize, usize),
    pub end: (usize, usize),
}

impl FileRange {
    pub fn new(path: String, start: (usize, usize), end: (usize, usize)) -> (r: FileRange)
        ensures
            r.path == path,
            r.start == start,
            r.end == end,
    {
        FileRange { path, start, end }
    }

    pub fn path(&self) -> (r: &String)
        ensures
            r == &self.path,
    {
        &self.path
    }

    pub fn start(&self) -> (r: (usize, usize))
        ensures
            r == self.start,
    {
        self.start
    }

    pub fn end(&self) -> (r: (usize, usize))
        ensures
            r == self.end,
    {
        self.end
    }

    /// An identical copy of this range.
    pub fn duplicate(&self) -> (r: FileRange)
        ensures
            r == *self,
    {
        FileRange { path: self.path.clone(), start: self.start, end: self.end }
    }

    /// The smallest range containing both `self` and `location`: the earlier
    /// of the two starts and the later of the two ends. Both ranges must lie
    /// in the same file.
    pub fn merge(&self, location: &FileRange) -> (r: FileRange)
        requires
            self.path@ == location.path@,
        ensures
            r.path@ == self.path@,
            r.start == if position_le(self.start, location.start) {
                self.start
            } else {
                location.start
            },
            r.end == if position_le(self.end, location.end) {
                location.end
            } else {
                self.end
            },
    {
        let start = if position_le_exec(self.start, location.start) {
            self.start
        } else {
            location.start
        };
        let end = if position_le_exec(self.end, location.end) {
            location.end
        } else {
            self.end
        };
        FileRange { path: self.path.clone(), start, end }
    }
}

fn position_le_exec(a: (usize, usize), b: (usize, usize)) -> (r: bool)
    ensures
        r == position_le(a, b),
{
    a.0 < b.0 || (a.0 == b.0 && a.1 <= b.1)
}

/// The level of a diagnostic, from least to most severe.
#[derive(Clone, Copy, Debug, PartialEq, Eq, Structural)]
pub enum DiagnosticLevel {
    /// Only shown when the most detailed output is requested.
    Verbose,
    /// Notifies the user; safe to ignore.
    Message,
    /// A problem that does not fail compilation now but may cause a failure later.
    Warning,
    /// A problem that fails compilation.
    Error,
    /// A problem that stops compilation immediately.
    Fatal,
}

/// Numeric rank of a level; levels compare by this rank.
pub open spec fn spec_severity(level: DiagnosticLevel) -> int {
    match level {
        DiagnosticLevel::Verbose => 1,
        DiagnosticLevel::Message => 2,
        DiagnosticLevel::Warning => 3,
        DiagnosticLevel::Error => 4,
        DiagnosticLevel::Fatal => 5,
    }
}

impl DiagnosticLevel {
    pub fn severity(&self) -> (r: u8)
        ensures
            r as int == spec_severity(*self),
    {
        match self {
            DiagnosticLevel::Verbose => 1,
            DiagnosticLevel::Message => 2,
            DiagnosticLevel::Warning => 3,
            DiagnosticLevel::Error => 4,
            DiagnosticLevel::Fatal => 5,
        }
    }

    /// Whether this level is at least as severe as `other`.
    pub fn at_least(&self, other: DiagnosticLevel) -> (r: bool)
        ensures
            r == (spec_severity(*self) >= spec_severity(other)),
    {
        self.severity() >= other.severity()
    }
}

/// A message to report to the user as an output of compilation.
#[derive(Debug, PartialEq)]
pub struct Diagnostic {
    pub location: FileRange,
    pub message: String,
    pub level: DiagnosticLevel,
}

impl Diagnostic {
    /// A new diagnostic at level `Error`.
    pub fn new(message: String, location: FileRange) -> (r: Diagnostic)
        ensures
            r.message == message,
            r.location == location,
            r.level == DiagnosticLevel::Error,
    {
        Diagnostic { message, location, level: DiagnosticLevel::Error }
    }

    /// A new diagnostic at level `Error` covering a single position.
    pub fn new_from_position(message: String, location: FilePosition) -> (r: Diagnostic)
        ensures
            r.message == message,
            r.location.path == location.path,
            r.location.start == location.position,
            r.location.end == location.position,
            r.level == DiagnosticLevel::Error,
    {
        let range = FileRange {
            path: location.path,
            start: location.position,
            end: location.position,
        };
        Diagnostic { message, location: range, level: DiagnosticLevel::Error }
    }

    /// An identical copy of this diagnostic.
    pub fn duplicate(&self) -> (r: Diagnostic)
        ensures
            r == *self,
    {
        Diagnostic {
            message: self.message.clone(),
            location: self.location.duplicate(),
            level: self.level,
        }
    }

    /// The same diagnostic with its level replaced.
    pub fn with_level(self, level: DiagnosticLevel) -> (r: Diagnostic)
        ensures
            r.message == self.message,
            r.location == self.location,
            r.level == level,
    {
        Diagnostic { message: self.message, location: self.location, level }
    }
}

/// Whether any diagnostic in `diags` is at level `Error` or above.
pub open spec fn spec_has_error(diags: Seq<Diagnostic>) -> bool {
    exists|i: int| 0 <= i < diags.len() && spec_severity(diags[i].level) >= spec_severity(
        DiagnosticLevel::Error,
    )
}

/// Like `Result`, but the success case may still carry diagnostics (warnings
/// and other messages), and the failure case carries the diagnostics that
/// explain it: `value` is `Some` on success and `None` on failure.
pub struct DiagResult<T> {
    pub value: Option<T>,
    pub diagnostics: Vec<Diagnostic>,
}

impl<T> DiagResult<T> {
    /// A success carrying `result` and no diagnostics.
    pub fn ok(result: T) -> (r: DiagResult<T>)
        ensures
            r.value == Some(result),
            r.diagnostics@.len() == 0,
    {
        DiagResult { value: Some(result), diagnostics: Vec::new() }
    }

    /// A failure carrying the diagnostics that explain it; at least one must
    /// be at level `Error` or above.
    pub fn error(diagnostics: Vec<Diagnostic>) -> (r: DiagResult<T>)
        requires
            spec_has_error(diagnostics@),
        ensures
            r.value is None,
            r.diagnostics == diagnostics,
    {
        DiagResult { value: None, diagnostics }
    }

    /// Whether this is the success form.
    pub fn is_ok(&self) -> (r: bool)
        ensures
            r == (self.value is Some),
    {
        self.value.is_some()
    }
}

} // verus!
