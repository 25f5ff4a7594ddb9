//! What a `git` child is insulated from: the variables that decide which repository it acts
//! on, and the locale its messages come back in. One list, one meaning, for every place that
//! runs `git`.

use vstd::prelude::*;
use vstd::string::StringExecFns;

verus! {

/// What is done with one of the message-locale variables.
#[derive(Debug, Clone, Copy, PartialEq, Eq, Structural)]
pub enum LocaleAction {
    /// Set to the C locale.
    Pin,
    /// Removed from the environment.
    Drop,
}

/// The locale asked of a `git` child: the C locale, whose messages are English and ASCII.
pub open spec fn c_locale_spec() -> Seq<char> {
    "C"@
}

/// The locale a `git` child is pinned to.
pub fn c_locale() -> (r: &'static str)
    ensures
        r@ == c_locale_spec(),
{
    "C"
}

/// The variables through which the surrounding process points git at a repository, an index
/// or an object store: all of them are dropped, so the directory git runs in is the only thing
/// that decides which repository it acts on.
pub open spec fn repo_locating_spec() -> Seq<Seq<char>> {
    seq![
        "GIT_DIR"@,
        "GIT_WORK_TREE"@,
        "GIT_COMMON_DIR"@,
        "GIT_INDEX_FILE"@,
        "GIT_OBJECT_DIRECTORY"@,
        "GIT_ALTERNATE_OBJECT_DIRECTORIES"@,
        "GIT_CEILING_DIRECTORIES"@,
    ]
}

/// The repository-locating variables, in the order they are dropped.
pub fn repo_locating_vars() -> (r: Vec<&'static str>)
    ensures
        r@.map_values(|v: &'static str| v@) == repo_locating_spec(),
{
    let r = vec![
        "GIT_DIR",
        "GIT_WORK_TREE",
        "GIT_COMMON_DIR",
        "GIT_INDEX_FILE",
        "GIT_OBJECT_DIRECTORY",
        "GIT_ALTERNATE_OBJECT_DIRECTORIES",
        "GIT_CEILING_DIRECTORIES",
    ];
    proof {
        assert(r@.map_values(|v: &'static str| v@) =~= repo_locating_spec());
    }
    r
}

/// The variables through which the surrounding process selects the language of git's
/// messages, each paired with what is done to it: the three that name a locale are pinned to
/// C; `LANGUAGE`, a list gettext only ignores while the locale is C, is dropped.
pub open spec fn message_locale_spec() -> Seq<(Seq<char>, LocaleAction)> {
    seq![
        ("LC_ALL"@, LocaleAction::Pin),
        ("LC_MESSAGES"@, LocaleAction::Pin),
        ("LANG"@, LocaleAction::Pin),
        ("LANGUAGE"@, LocaleAction::Drop),
    ]
}

/// The message-locale variables with what is done to each. The pairing is the declaration, so a
/// renamed variable cannot quietly get the other treatment.
pub fn message_locale_vars() -> (r: Vec<(&'static str, LocaleAction)>)
    ensures
        r@.map_values(|e: (&'static str, LocaleAction)| (e.0@, e.1)) == message_locale_spec(),
{
    let r = vec![
        ("LC_ALL", LocaleAction::Pin),
        ("LC_MESSAGES", LocaleAction::Pin),
        ("LANG", LocaleAction::Pin),
        ("LANGUAGE", LocaleAction::Drop),
    ];
    proof {
        assert(r@.map_values(|e: (&'static str, LocaleAction)| (e.0@, e.1))
            =~= message_locale_spec());
    }
    r
}

/// Why feeding a child process its input did not produce its output. What matters to a caller
/// is whether the child answered: only an answer says anything about what was fed in. The I/O
/// errors behind a variant are held as the text they display as.
#[derive(Debug, PartialEq, Eq)]
pub enum FeedError {
    /// The process could not be started.
    Spawn(String),
    /// Writing the input failed for a reason other than the child closing its end.
    Write(String),
    /// The thread writing the input panicked.
    WriterPanicked,
    /// A thread reading the child's output panicked.
    ReaderPanicked,
    /// Reading the child's output, or waiting for it, failed.
    Wait(String),
}

/// The message a feeding failure is shown as.
pub open spec fn feed_msg(e: FeedError) -> Seq<char> {
    match e {
        FeedError::Spawn(m) => "could not start the process: "@ + m@,
        FeedError::Write(m) => "could not write the input: "@ + m@,
        FeedError::WriterPanicked => "the thread feeding the input panicked"@,
        FeedError::ReaderPanicked => "a thread reading the output panicked"@,
        FeedError::Wait(m) => "could not collect the output: "@ + m@,
    }
}

impl FeedError {
    /// The message the failure is shown as.
    pub fn message(&self) -> (r: String)
        ensures
            r@ == feed_msg(*self),
    {
        match self {
            FeedError::Spawn(e) => {
                let mut m = String::from_str("could not start the process: ");
                m.append(e.as_str());
                m
            },
            FeedError::Write(e) => {
                let mut m = String::from_str("could not write the input: ");
                m.append(e.as_str());
                m
            },
            FeedError::WriterPanicked => String::from_str("the thread feeding the input panicked"),
            FeedError::ReaderPanicked => String::from_str("a thread reading the output panicked"),
            FeedError::Wait(e) => {
                let mut m = String::from_str("could not collect the output: ");
                m.append(e.as_str());
                m
            },
        }
    }

    /// Whether the failure carries an underlying I/O error: every variant but the two panics.
    pub fn has_source(&self) -> (r: bool)
        ensures
            r == !(*self is WriterPanicked || *self is ReaderPanicked),
    {
        match self {
            FeedError::WriterPanicked | FeedError::ReaderPanicked => false,
            _ => true,
        }
    }
}

} // verus!
