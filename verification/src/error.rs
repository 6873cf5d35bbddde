//! What can go wrong reading or writing the tree.

use vstd::prelude::*;

verus! {

/// A grammar violation: which rule a piece of text broke, and the text.
#[derive(Debug, Clone, PartialEq, Eq)]
pub enum ParseErrorKind {
    NotAListItem { found: String },
    MissingTimeRange { found: String },
    InvalidTime { found: String },
    InvalidDuration { found: String },
    InvalidSlug { found: String },
    InvalidWeekday { found: String },
    MissingBlockId { found: String },
    InvalidDate { found: String },
    MissingCheckbox { found: String },
    InvalidTodo { found: String },
    InvalidTodoId { found: String },
}

impl ParseErrorKind {
    /// The text the rule was broken by.
    pub open spec fn found_text(self) -> Seq<char> {
        match self {
            ParseErrorKind::NotAListItem { found } => found@,
            ParseErrorKind::MissingTimeRange { found } => found@,
            ParseErrorKind::InvalidTime { found } => found@,
            ParseErrorKind::InvalidDuration { found } => found@,
            ParseErrorKind::InvalidSlug { found } => found@,
            ParseErrorKind::InvalidWeekday { found } => found@,
            ParseErrorKind::MissingBlockId { found } => found@,
            ParseErrorKind::InvalidDate { found } => found@,
            ParseErrorKind::MissingCheckbox { found } => found@,
            ParseErrorKind::InvalidTodo { found } => found@,
            ParseErrorKind::InvalidTodoId { found } => found@,
        }
    }
}

/// A grammar violation, carrying the line it was found on.
///
/// Reads are lenient: a line the app cannot parse is preserved verbatim rather
/// than rejected, and reported with one of these.
#[derive(Debug, Clone, PartialEq, Eq)]
pub struct ParseError {
    pub line: usize,
    pub kind: ParseErrorKind,
}

impl ParseError {
    pub fn new(line: usize, kind: ParseErrorKind) -> (error: Self)
        ensures
            error.line == line,
            error.kind == kind,
    {
        ParseError { line, kind }
    }
}

/// The line numbers a list of problems reports.
pub open spec fn problem_lines(v: Seq<ParseError>) -> Seq<nat> {
    v.map_values(|p: ParseError| p.line as nat)
}

/// The rules a list of problems reports broken.
pub open spec fn problem_kinds(v: Seq<ParseError>) -> Seq<ParseErrorKind> {
    v.map_values(|p: ParseError| p.kind)
}

/// A refused request against the tree.
#[derive(Debug, Clone, PartialEq, Eq)]
pub enum Error {
    /// A piece of text broke the grammar.
    Grammar(ParseErrorKind),
    /// The frontmatter block is not a YAML mapping; yaml_serde's message.
    Frontmatter { message: String },
    /// No project carries this slug.
    UnknownProject(String),
    /// A project with this slug already exists.
    DuplicateProject(String),
    /// No session at this index on this date.
    UnknownSession { date: String, index: usize },
    /// No milestone carries this title.
    NoSuchMilestone { project: String, title: String },
    /// Several milestones carry this title, so none of them can be addressed.
    AmbiguousMilestone { project: String, title: String, count: usize },
    /// Writing this title would give two milestones the same one.
    DuplicateMilestone { project: String, title: String },
    /// No milestone sits at this index.
    NoMilestoneAt { project: String, index: usize },
    /// No todo carries this id.
    NoSuchTodo { id: String },
    /// Several todos carry this id.
    AmbiguousTodo { id: String, count: usize },
    /// A todo with this id already exists.
    DuplicateTodo { id: String },
    /// A setting's length must be more than zero minutes.
    ZeroLength { setting: String },
    /// A request the library refuses, with the reason as its whole message.
    Invalid { message: String },
    /// Not one of the words a field accepts.
    UnknownWord { field: String, found: String },
    /// A date range that runs backwards or is too long.
    InvalidRange { from: String, to: String },
    /// A topic must be one URL path segment.
    UnusableTopic { topic: String },
    /// A URL must be absolute HTTP.
    NotHttp { setting: String, url: String },
}

} // verus!

verus! {

/// Appends the decimal spelling of a count or an index.
pub fn push_count(out: &mut Vec<char>, n: usize)
    ensures
        final(out)@ == old(out)@ + crate::minutes::decimal(n as nat),
    decreases n,
{
    if n >= 10 {
        push_count(out, n / 10);
    }
    let d = (n % 10) as u32;
    let c = crate::minutes::digit_to_char(d);
    out.push(c);
    assert(crate::minutes::decimal(n as nat) =~= if n < 10 {
        seq![c]
    } else {
        crate::minutes::decimal((n / 10) as nat).push(c)
    });
}

fn put(out: &mut Vec<char>, text: &str)
    ensures
        final(out)@ == old(out)@ + text@,
{
    crate::text::append(out, &crate::text::chars_of(text));
}

/// What a grammar violation says.
pub open spec fn kind_text(kind: ParseErrorKind) -> Seq<char> {
    match kind {
        ParseErrorKind::NotAListItem { found } => "expected a list item starting with '- ', found \""@ + found@ + "\""@,
        ParseErrorKind::MissingTimeRange { found } => "expected a HH:MM-HH:MM time range, found \""@ + found@ + "\""@,
        ParseErrorKind::InvalidTime { found } => "invalid time \""@ + found@ + "\"; expected HH:MM"@,
        ParseErrorKind::InvalidDuration { found } => "invalid duration \""@ + found@
            + "\"; expected forms like 25m, 1h or 1h30m"@,
        ParseErrorKind::InvalidSlug { found } => "invalid identifier \""@ + found@
            + "\"; expected lowercase letters, digits and dashes"@,
        ParseErrorKind::InvalidWeekday { found } => "invalid weekday \""@ + found@
            + "\"; expected mon..sun, a range like mon-fri, or daily"@,
        ParseErrorKind::MissingBlockId { found } => "expected a backtick-quoted block id, found \""@ + found@ + "\""@,
        ParseErrorKind::InvalidDate { found } => "invalid date \""@ + found@ + "\"; expected YYYY-MM-DD"@,
        ParseErrorKind::MissingCheckbox { found } => "expected a checkbox and a title, found \""@ + found@ + "\""@,
        ParseErrorKind::InvalidTodo { found } => "not a todo line \""@ + found@ + "\""@,
        ParseErrorKind::InvalidTodoId { found } => "invalid todo id \""@ + found@ + "\""@,
    }
}

impl ParseErrorKind {
    /// The message a user reads.
    pub fn message(&self) -> (text: String)
        ensures
            text@ == kind_text(*self),
    {
        let mut out: Vec<char> = Vec::new();
        match self {
            ParseErrorKind::NotAListItem { found } => {
                put(&mut out, "expected a list item starting with '- ', found \"");
                put(&mut out, found.as_str());
                put(&mut out, "\"");
            },
            ParseErrorKind::MissingTimeRange { found } => {
                put(&mut out, "expected a HH:MM-HH:MM time range, found \"");
                put(&mut out, found.as_str());
                put(&mut out, "\"");
            },
            ParseErrorKind::InvalidTime { found } => {
                put(&mut out, "invalid time \"");
                put(&mut out, found.as_str());
                put(&mut out, "\"; expected HH:MM");
            },
            ParseErrorKind::InvalidDuration { found } => {
                put(&mut out, "invalid duration \"");
                put(&mut out, found.as_str());
                put(&mut out, "\"; expected forms like 25m, 1h or 1h30m");
            },
            ParseErrorKind::InvalidSlug { found } => {
                put(&mut out, "invalid identifier \"");
                put(&mut out, found.as_str());
                put(&mut out, "\"; expected lowercase letters, digits and dashes");
            },
            ParseErrorKind::InvalidWeekday { found } => {
                put(&mut out, "invalid weekday \"");
                put(&mut out, found.as_str());
                put(&mut out, "\"; expected mon..sun, a range like mon-fri, or daily");
            },
            ParseErrorKind::MissingBlockId { found } => {
                put(&mut out, "expected a backtick-quoted block id, found \"");
                put(&mut out, found.as_str());
                put(&mut out, "\"");
            },
            ParseErrorKind::InvalidDate { found } => {
                put(&mut out, "invalid date \"");
                put(&mut out, found.as_str());
                put(&mut out, "\"; expected YYYY-MM-DD");
            },
            ParseErrorKind::MissingCheckbox { found } => {
                put(&mut out, "expected a checkbox and a title, found \"");
                put(&mut out, found.as_str());
                put(&mut out, "\"");
            },
            ParseErrorKind::InvalidTodo { found } => {
                put(&mut out, "not a todo line \"");
                put(&mut out, found.as_str());
                put(&mut out, "\"");
            },
            ParseErrorKind::InvalidTodoId { found } => {
                put(&mut out, "invalid todo id \"");
                put(&mut out, found.as_str());
                put(&mut out, "\"");
            },
        }
        crate::text::string_of(&out)
    }
}

/// What a refusal says.
pub open spec fn error_text(e: Error) -> Seq<char> {
    match e {
        Error::Grammar(kind) => kind_text(kind),
        Error::Frontmatter { message } => "malformed frontmatter: "@ + message@,
        Error::UnknownProject(slug) => "no project named \""@ + slug@ + "\""@,
        Error::DuplicateProject(slug) => "a project named \""@ + slug@ + "\" already exists"@,
        Error::UnknownSession { date, index } => "no session at index "@ + crate::minutes::decimal(index as nat)
            + " for "@ + date@,
        Error::NoSuchMilestone { project, title } => "no milestone titled \""@ + title@ + "\" on "@ + project@,
        Error::AmbiguousMilestone { project, title, count } => crate::minutes::decimal(count as nat)
            + " milestones on "@ + project@ + " are titled \""@ + title@ + "\"; rename one first"@,
        Error::DuplicateMilestone { project, title } => project@ + " already has a milestone titled \""@ + title@
            + "\""@,
        Error::NoMilestoneAt { project, index } => "no milestone at index "@ + crate::minutes::decimal(index as nat)
            + " on "@ + project@,
        Error::NoSuchTodo { id } => "no todo with id \""@ + id@ + "\""@,
        Error::AmbiguousTodo { id, count } => crate::minutes::decimal(count as nat) + " todos carry the id \""@
            + id@ + "\"; give one a different id first"@,
        Error::DuplicateTodo { id } => "a todo with id \""@ + id@ + "\" already exists"@,
        Error::ZeroLength { setting } => setting@ + " must be more than zero minutes"@,
        Error::Invalid { message } => message@,
        Error::UnknownWord { field, found } => "unknown "@ + field@ + " \""@ + found@ + "\""@,
        Error::InvalidRange { from, to } => "invalid range from "@ + from@ + " to "@ + to@
            + ": it must not run backwards or span more than 366 days"@,
        Error::UnusableTopic { topic } => "'"@ + topic@
            + "' is not a topic: it is one path segment, so it cannot hold a slash or a space"@,
        Error::NotHttp { setting, url } => setting@ + " must start with http:// or https://, and '"@ + url@ + "' does not"@,
    }
}

impl Error {
    /// The message a user reads.
    pub fn message(&self) -> (text: String)
        ensures
            text@ == error_text(*self),
    {
        let mut out: Vec<char> = Vec::new();
        match self {
            Error::Grammar(kind) => {
                return kind.message();
            },
            Error::Frontmatter { message } => {
                put(&mut out, "malformed frontmatter: ");
                put(&mut out, message.as_str());
            },
            Error::UnknownProject(slug) => {
                put(&mut out, "no project named \"");
                put(&mut out, slug.as_str());
                put(&mut out, "\"");
            },
            Error::DuplicateProject(slug) => {
                put(&mut out, "a project named \"");
                put(&mut out, slug.as_str());
                put(&mut out, "\" already exists");
            },
            Error::UnknownSession { date, index } => {
                put(&mut out, "no session at index ");
                push_count(&mut out, *index);
                put(&mut out, " for ");
                put(&mut out, date.as_str());
            },
            Error::NoSuchMilestone { project, title } => {
                put(&mut out, "no milestone titled \"");
                put(&mut out, title.as_str());
                put(&mut out, "\" on ");
                put(&mut out, project.as_str());
            },
            Error::AmbiguousMilestone { project, title, count } => {
                push_count(&mut out, *count);
                put(&mut out, " milestones on ");
                put(&mut out, project.as_str());
                put(&mut out, " are titled \"");
                put(&mut out, title.as_str());
                put(&mut out, "\"; rename one first");
            },
            Error::DuplicateMilestone { project, title } => {
                put(&mut out, project.as_str());
                put(&mut out, " already has a milestone titled \"");
                put(&mut out, title.as_str());
                put(&mut out, "\"");
            },
            Error::NoMilestoneAt { project, index } => {
                put(&mut out, "no milestone at index ");
                push_count(&mut out, *index);
                put(&mut out, " on ");
                put(&mut out, project.as_str());
            },
            Error::NoSuchTodo { id } => {
                put(&mut out, "no todo with id \"");
                put(&mut out, id.as_str());
                put(&mut out, "\"");
            },
            Error::AmbiguousTodo { id, count } => {
                push_count(&mut out, *count);
                put(&mut out, " todos carry the id \"");
                put(&mut out, id.as_str());
                put(&mut out, "\"; give one a different id first");
            },
            Error::DuplicateTodo { id } => {
                put(&mut out, "a todo with id \"");
                put(&mut out, id.as_str());
                put(&mut out, "\" already exists");
            },
            Error::ZeroLength { setting } => {
                put(&mut out, setting.as_str());
                put(&mut out, " must be more than zero minutes");
            },
            Error::Invalid { message } => {
                put(&mut out, message.as_str());
            },
            Error::UnknownWord { field, found } => {
                put(&mut out, "unknown ");
                put(&mut out, field.as_str());
                put(&mut out, " \"");
                put(&mut out, found.as_str());
                put(&mut out, "\"");
            },
            Error::InvalidRange { from, to } => {
                put(&mut out, "invalid range from ");
                put(&mut out, from.as_str());
                put(&mut out, " to ");
                put(&mut out, to.as_str());
                put(&mut out, ": it must not run backwards or span more than 366 days");
            },
            Error::UnusableTopic { topic } => {
                put(&mut out, "'");
                put(&mut out, topic.as_str());
                put(&mut out, "' is not a topic: it is one path segment, so it cannot hold a slash or a space");
            },
            Error::NotHttp { setting, url } => {
                put(&mut out, setting.as_str());
                put(&mut out, " must start with http:// or https://, and '");
                put(&mut out, url.as_str());
                put(&mut out, "' does not");
            },
        }
        assert(out@ =~= error_text(*self));
        crate::text::string_of(&out)
    }
}

} // verus!
