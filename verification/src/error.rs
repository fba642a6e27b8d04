use vstd::prelude::*;
use crate::text::{concat_str, debug_path, decimal, decimal_string, spec_debug_path};

verus! {

/// What went wrong. Paths are held as their text.
pub enum ErrorKind {
    /// File could not be found or opened
    FileNotFound { path: String, io_error: String },
    /// File contains invalid UTF-8
    InvalidUtf8 { path: String },
    /// Front matter YAML is invalid
    InvalidFrontMatter { message: String },
    /// Required field is missing from front matter
    MissingRequiredField { field: String },
    /// Circular dependency detected in page graph
    CircularDependency { chain: Vec<String> },
    /// Referenced page does not exist
    PageNotFound { id: String, context: String },
    /// Path is not under the expected base directory
    PathNotUnderBase { path: String, base: String },
    /// Path has no parent directory
    NoParentDir { path: String },
    /// Path has no file stem
    NoFileStem { path: String },
    /// Invalid child reference in front matter
    InvalidChildReference { parent: String, reference: String, reason: String },
    /// Referenced child file not found
    MissingChildReference { parent_id: String, reference: String },
    /// Generic error with message
    Other { message: String },
}

/// An error with what is known of where it happened, for diagnostics.
pub struct ParserError {
    pub kind: ErrorKind,
    pub file: Option<String>,
    pub span: Option<(usize, usize)>,
    pub source_content: Option<String>,
}

/// `items` joined with `sep` between them.
pub open spec fn join_with(items: Seq<Seq<char>>, sep: Seq<char>) -> Seq<char>
    decreases items.len(),
{
    if items.len() == 0 {
        Seq::empty()
    } else if items.len() == 1 {
        items[0]
    } else {
        join_with(items.drop_last(), sep) + sep + items.last()
    }
}

/// The text `Display` shows for an error of kind `k`.
pub open spec fn kind_message(k: ErrorKind) -> Seq<char> {
    match k {
        ErrorKind::FileNotFound { path, io_error } =>
            "File not found: "@ + path@ + " ("@ + io_error@ + ")"@,
        ErrorKind::InvalidUtf8 { path } => "File contains invalid UTF-8: "@ + path@,
        ErrorKind::InvalidFrontMatter { message } => "Invalid front matter: "@ + message@,
        ErrorKind::MissingRequiredField { field } => "Missing required field: "@ + field@,
        ErrorKind::CircularDependency { chain } =>
            "Circular dependency detected: "@ + join_with(chain.deep_view(), " -> "@),
        ErrorKind::PageNotFound { id, context } => "Page not found: "@ + id@ + " ("@ + context@ + ")"@,
        ErrorKind::PathNotUnderBase { path, base } =>
            "Path "@ + spec_debug_path(path@) + " is not under base directory "@ + spec_debug_path(base@),
        ErrorKind::NoParentDir { path } => "Path has no parent directory: "@ + spec_debug_path(path@),
        ErrorKind::NoFileStem { path } => "Path has no file stem: "@ + path@,
        ErrorKind::InvalidChildReference { parent, reference, reason } =>
            "Invalid child reference '"@ + reference@ + "' in "@ + parent@ + ": "@ + reason@,
        ErrorKind::MissingChildReference { parent_id, reference } =>
            "Missing child reference '"@ + reference@ + "' in page "@ + parent_id@,
        ErrorKind::Other { message } => message@,
    }
}

fn join_strings(items: &Vec<String>, sep: &str) -> (r: String)
    ensures
        r@ == join_with(items.deep_view(), sep@),
{
    let mut r = String::new();
    let mut i: usize = 0;
    while i < items.len()
        invariant
            i <= items@.len(),
            r@ == join_with(items.deep_view().take(i as int), sep@),
        decreases items.len() - i,
    {
        let ghost before = items.deep_view().take(i as int);
        if i > 0 {
            r.append(sep);
        }
        r.append(items[i].as_str());
        proof {
            let now = items.deep_view().take(i + 1);
            assert(now.drop_last() =~= before);
            if i == 0 {
                assert(r@ =~= now[0]);
            }
        }
        i = i + 1;
    }
    assert(items.deep_view().take(i as int) =~= items.deep_view());
    r
}

fn cat3(a: &str, b: &str, c: &str) -> (r: String)
    ensures
        r@ == a@ + b@ + c@,
{
    let mut r = a.to_owned();
    r.append(b);
    r.append(c);
    r
}

impl ParserError {
    /// An error with just a message.
    pub fn new(message: String) -> (e: Self)
        ensures
            e.kind == (ErrorKind::Other { message }),
            e.file is None,
            e.span is None,
            e.source_content is None,
    {
        ParserError { kind: ErrorKind::Other { message }, file: None, span: None, source_content: None }
    }

    /// An error for a file that could not be opened; `io_error` is the text of the I/O error.
    pub fn file_not_found(path: String, io_error: String) -> (e: Self)
        ensures
            e.kind matches ErrorKind::FileNotFound { path: p, io_error: m } && p@ == path@ && m == io_error,
            e.file matches Some(f) && f@ == path@,
            e.span is None,
            e.source_content is None,
    {
        let file = path.clone();
        ParserError {
            kind: ErrorKind::FileNotFound { path, io_error },
            file: Some(file),
            span: None,
            source_content: None,
        }
    }

    /// An error for a file that is not valid UTF-8.
    pub fn invalid_utf8(path: String) -> (e: Self)
        ensures
            e.kind matches ErrorKind::InvalidUtf8 { path: p } && p@ == path@,
            e.file matches Some(f) && f@ == path@,
            e.span is None,
            e.source_content is None,
    {
        let file = path.clone();
        ParserError { kind: ErrorKind::InvalidUtf8 { path }, file: Some(file), span: None, source_content: None }
    }

    /// An error for front matter that does not parse, with the source and the span to show.
    pub fn invalid_front_matter(path: String, message: String, source: String, span: (usize, usize)) -> (e: Self)
        ensures
            e.kind == (ErrorKind::InvalidFrontMatter { message }),
            e.file == Some(path),
            e.span == Some(span),
            e.source_content == Some(source),
    {
        ParserError {
            kind: ErrorKind::InvalidFrontMatter { message },
            file: Some(path),
            span: Some(span),
            source_content: Some(source),
        }
    }

    /// An error for a path that is not under the base directory.
    pub fn path_not_under_base(path: String, base: String) -> (e: Self)
        ensures
            e.kind == (ErrorKind::PathNotUnderBase { path, base }),
            e.file is None,
            e.span is None,
            e.source_content is None,
    {
        ParserError { kind: ErrorKind::PathNotUnderBase { path, base }, file: None, span: None, source_content: None }
    }

    /// An error for a child reference that cannot be used.
    pub fn invalid_child_reference(parent: String, reference: String, reason: String) -> (e: Self)
        ensures
            e.kind == (ErrorKind::InvalidChildReference { parent, reference, reason }),
            e.file is None,
            e.span is None,
            e.source_content is None,
    {
        ParserError {
            kind: ErrorKind::InvalidChildReference { parent, reference, reason },
            file: None,
            span: None,
            source_content: None,
        }
    }

    /// An error for a child reference that names no page; `parent_id` is how the
    /// parent's identifier is shown (its `Debug` text).
    pub fn missing_child_reference(parent_id: String, reference: String) -> (e: Self)
        ensures
            e.kind == (ErrorKind::MissingChildReference { parent_id, reference }),
            e.file is None,
            e.span is None,
            e.source_content is None,
    {
        ParserError {
            kind: ErrorKind::MissingChildReference { parent_id, reference },
            file: None,
            span: None,
            source_content: None,
        }
    }

    /// The one-line description of the error, as `Display` shows it.
    pub fn message(&self) -> (r: String)
        ensures
            r@ == kind_message(self.kind),
    {
        proof {
            reveal_strlit("File not found: ");
            reveal_strlit(" (");
            reveal_strlit(")");
        }
        match &self.kind {
            ErrorKind::FileNotFound { path, io_error } => {
                let a = cat3("File not found: ", path.as_str(), " (");
                cat3(a.as_str(), io_error.as_str(), ")")
            },
            ErrorKind::InvalidUtf8 { path } => concat_str("File contains invalid UTF-8: ", path.as_str()),
            ErrorKind::InvalidFrontMatter { message } => concat_str("Invalid front matter: ", message.as_str()),
            ErrorKind::MissingRequiredField { field } => concat_str("Missing required field: ", field.as_str()),
            ErrorKind::CircularDependency { chain } => {
                let j = join_strings(chain, " -> ");
                concat_str("Circular dependency detected: ", j.as_str())
            },
            ErrorKind::PageNotFound { id, context } => {
                let a = cat3("Page not found: ", id.as_str(), " (");
                cat3(a.as_str(), context.as_str(), ")")
            },
            ErrorKind::PathNotUnderBase { path, base } => {
                let p = debug_path(path.as_str());
                let b = debug_path(base.as_str());
                let a = cat3("Path ", p.as_str(), " is not under base directory ");
                concat_str(a.as_str(), b.as_str())
            },
            ErrorKind::NoParentDir { path } => {
                let p = debug_path(path.as_str());
                concat_str("Path has no parent directory: ", p.as_str())
            },
            ErrorKind::NoFileStem { path } => concat_str("Path has no file stem: ", path.as_str()),
            ErrorKind::InvalidChildReference { parent, reference, reason } => {
                let a = cat3("Invalid child reference '", reference.as_str(), "' in ");
                let b = cat3(a.as_str(), parent.as_str(), ": ");
                concat_str(b.as_str(), reason.as_str())
            },
            ErrorKind::MissingChildReference { parent_id, reference } => {
                let a = cat3("Missing child reference '", reference.as_str(), "' in page ");
                concat_str(a.as_str(), parent_id.as_str())
            },
            ErrorKind::Other { message } => message.clone(),
        }
    }
}

/// Gathers errors and warnings so that they can be reported together.
pub struct ErrorCollector {
    errors: Vec<ParserError>,
    warnings: Vec<ParserError>,
}

impl ErrorCollector {
    /// The errors gathered, in order.
    pub closed spec fn errors_seq(&self) -> Seq<ParserError> {
        self.errors@
    }

    /// The warnings gathered, in order.
    pub closed spec fn warnings_seq(&self) -> Seq<ParserError> {
        self.warnings@
    }

    pub fn new() -> (c: Self)
        ensures
            c.errors_seq() == Seq::<ParserError>::empty(),
            c.warnings_seq() == Seq::<ParserError>::empty(),
    {
        ErrorCollector { errors: Vec::new(), warnings: Vec::new() }
    }

    /// Adds an error.
    pub fn add_error(&mut self, error: ParserError)
        ensures
            final(self).errors_seq() == old(self).errors_seq().push(error),
            final(self).warnings_seq() == old(self).warnings_seq(),
    {
        self.errors.push(error);
    }

    /// Adds a warning.
    pub fn add_warning(&mut self, warning: ParserError)
        ensures
            final(self).warnings_seq() == old(self).warnings_seq().push(warning),
            final(self).errors_seq() == old(self).errors_seq(),
    {
        self.warnings.push(warning);
    }

    pub fn has_errors(&self) -> (b: bool)
        ensures
            b == (self.errors_seq().len() > 0),
    {
        self.errors.len() != 0
    }

    pub fn error_count(&self) -> (n: usize)
        ensures
            n == self.errors_seq().len(),
    {
        self.errors.len()
    }

    pub fn warning_count(&self) -> (n: usize)
        ensures
            n == self.warnings_seq().len(),
    {
        self.warnings.len()
    }

    /// The error at position `i`.
    pub fn error_at(&self, i: usize) -> (e: &ParserError)
        requires
            i < self.errors_seq().len(),
        ensures
            *e == self.errors_seq()[i as int],
    {
        &self.errors[i]
    }

    /// The warning at position `i`.
    pub fn warning_at(&self, i: usize) -> (e: &ParserError)
        requires
            i < self.warnings_seq().len(),
        ensures
            *e == self.warnings_seq()[i as int],
    {
        &self.warnings[i]
    }

    /// Fails with "N error(s) occurred" when any error was gathered, keeping the errors.
    pub fn check(&self) -> (r: Result<(), String>)
        ensures
            r is Ok <==> self.errors_seq().len() == 0,
            r matches Err(m) ==> m@ == decimal(self.errors_seq().len() as nat) + " error(s) occurred"@,
    {
        if self.has_errors() {
            let n = decimal_string(self.errors.len() as u64);
            Err(concat_str(n.as_str(), " error(s) occurred"))
        } else {
            Ok(())
        }
    }

    /// Fails with "N error(s) occurred" when any error was gathered.
    pub fn into_result(self) -> (r: Result<(), String>)
        ensures
            r is Ok <==> self.errors_seq().len() == 0,
            r matches Err(m) ==> m@ == decimal(self.errors_seq().len() as nat) + " error(s) occurred"@,
    {
        if self.has_errors() {
            let n = decimal_string(self.errors.len() as u64);
            Err(concat_str(n.as_str(), " error(s) occurred"))
        } else {
            Ok(())
        }
    }
}

/// The number of line breaks among the first `n` bytes of `b`.
pub open spec fn newlines(b: Seq<u8>, n: int) -> nat
    decreases n,
{
    if n <= 0 {
        0
    } else {
        newlines(b, n - 1) + if b[n - 1] == 10u8 { 1nat } else { 0nat }
    }
}

/// The number of line breaks among the first `n` bytes of `bytes`.
fn count_newlines(bytes: &[u8], n: usize) -> (c: usize)
    requires
        n <= bytes@.len(),
    ensures
        c == newlines(bytes@, n as int),
        c <= n,
{
    let mut c: usize = 0;
    let mut i: usize = 0;
    while i < n
        invariant
            n <= bytes@.len(),
            i <= n,
            c == newlines(bytes@, i as int),
            c <= i,
        decreases n - i,
    {
        if bytes[i] == 10u8 {
            c = c + 1;
        }
        i = i + 1;
    }
    c
}

/// Which lines of `content` an error at the byte range `span` shows: the line the span
/// starts on (the line breaks before it), the first line shown (the one before that, if
/// any) and how many lines are shown (those the span covers, up to the end of the
/// content, and two more). Both ends must fall on character boundaries, and the end may
/// not lie on an earlier line than the start.
pub fn source_window(content: &str, span: (usize, usize)) -> (r: (usize, usize, usize))
    requires
        span.0 <= vstd::utf8::encode_utf8(content@).len(),
        vstd::utf8::is_char_boundary(vstd::utf8::encode_utf8(content@), span.0 as int),
        vstd::utf8::is_char_boundary(
            vstd::utf8::encode_utf8(content@),
            if span.1 <= vstd::utf8::encode_utf8(content@).len() { span.1 as int } else { vstd::utf8::encode_utf8(content@).len() as int },
        ),
        newlines(vstd::utf8::encode_utf8(content@), span.0 as int) <= newlines(
            vstd::utf8::encode_utf8(content@),
            if span.1 <= vstd::utf8::encode_utf8(content@).len() { span.1 as int } else { vstd::utf8::encode_utf8(content@).len() as int },
        ),
        vstd::utf8::encode_utf8(content@).len() + 3 <= usize::MAX,
    ensures
        ({
            let b = vstd::utf8::encode_utf8(content@);
            let e = if span.1 <= b.len() { span.1 as int } else { b.len() as int };
            &&& r.0 == newlines(b, span.0 as int)
            &&& r.1 == if r.0 > 0 { r.0 - 1 } else { 0 }
            &&& r.2 == newlines(b, e) - newlines(b, span.0 as int) + 3
        }),
{
    let bytes = content.as_bytes();
    let end = if span.1 <= bytes.len() { span.1 } else { bytes.len() };
    let start_line = count_newlines(bytes, span.0);
    let end_line = count_newlines(bytes, end);
    let first = if start_line > 0 { start_line - 1 } else { 0 };
    (start_line, first, end_line - start_line + 3)
}

} // verus!
