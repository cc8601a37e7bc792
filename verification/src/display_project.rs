//! Showing a project on one line.

use crate::package::Language;
use crate::paths;
use crate::paths::get_relative_path;
use crate::project::{Project, ProjectView};
use crate::text::{joined_text, joined_text3};
use crate::update_type::UpdateType;
use crate::version;
use crate::version::{format_version_display, next_version_or_default, InvalidVersion};
use colored::Colorize;
use vstd::prelude::*;
use vstd::string::*;

verus! {

/// The parts of the line of a project.
#[derive(Debug)]
pub struct ProjectLine {
    pub heading: String,
    pub name: String,
    pub version: String,
    pub relative_path: String,
}

/// [`ProjectLine`] over mathematical values.
#[verifier::ext_equal]
pub struct LineView {
    pub heading: Seq<char>,
    pub name: Seq<char>,
    pub version: Seq<char>,
    pub relative_path: Seq<char>,
}

impl View for ProjectLine {
    type V = LineView;

    open spec fn view(&self) -> LineView {
        LineView {
            heading: self.heading@,
            name: self.name@,
            version: self.version@,
            relative_path: self.relative_path@,
        }
    }
}

/// Why a project cannot be shown.
#[derive(Debug)]
pub enum DisplayError {
    /// The project lies outside the repository.
    OutsideRepository { path: String },
    /// The version cannot be bumped.
    Version(InvalidVersion),
}

impl DisplayError {
    /// What to tell the user.
    pub open spec fn text(self) -> Seq<char> {
        match self {
            DisplayError::OutsideRepository { path } => "Project "@ + path@
                + " is outside the repository"@,
            DisplayError::Version(invalid) => "Invalid version: "@ + invalid.version@,
        }
    }

    /// What to tell the user.
    pub fn message(&self) -> (text: String)
        ensures
            text@ == self.text(),
    {
        match self {
            DisplayError::OutsideRepository { path } => joined_text3(
                "Project ",
                path.as_str(),
                " is outside the repository",
            ),
            DisplayError::Version(invalid) => invalid.message(),
        }
    }
}

/// The name of a language.
pub open spec fn language_text(language: Language) -> Seq<char> {
    match language {
        Language::Python => "Python"@,
        Language::Node => "Node"@,
        Language::Rust => "Rust"@,
        Language::Dart => "Dart"@,
        Language::CSharp => "CSharp"@,
        Language::Java => "Java"@,
    }
}

/// The name of a language.
pub fn language_name(language: Language) -> (name: &'static str)
    ensures
        name@ == language_text(language),
{
    match language {
        Language::Python => "Python",
        Language::Node => "Node",
        Language::Rust => "Rust",
        Language::Dart => "Dart",
        Language::CSharp => "CSharp",
        Language::Java => "Java",
    }
}

/// A version as it is shown.
pub open spec fn shown_version(version: Option<Seq<char>>) -> Seq<char> {
    match version {
        Some(v) => "v"@ + v,
        None => "unknown"@,
    }
}

/// The version that a workspace with the update comes to.
pub open spec fn workspace_next(project: ProjectView, update_type: UpdateType) -> Option<Seq<char>> {
    version::next_version_text(
        match project.version {
            Some(v) => v,
            None => version::DEFAULT_VERSION@,
        },
        update_type,
    )
}

/// The version part of the line of a workspace: the version, and the next one
/// where there is an update.
pub open spec fn workspace_version_part(
    project: ProjectView,
    update_type: Option<UpdateType>,
) -> Seq<char> {
    "("@ + shown_version(project.version) + (match update_type {
        Some(t) => " → v"@ + workspace_next(project, t)->0,
        None => ""@,
    }) + ")"@
}

/// The parts of the line of a project that lies at `relative_path` in the
/// repository. Only that of a workspace shows where an update leads.
pub open spec fn line_of(
    project: Project,
    update_type: Option<UpdateType>,
    relative_path: Seq<char>,
) -> LineView {
    LineView {
        heading: match project {
            Project::Workspace(_) => "[Workspace - "@ + language_text(Language::Rust) + "]"@,
            Project::Package(_) => "["@ + language_text(Language::Rust) + "]"@,
        },
        name: match project@.name {
            Some(name) => name,
            None => "unknown"@,
        },
        version: match project {
            Project::Workspace(_) => workspace_version_part(project@, update_type),
            Project::Package(_) => "("@ + shown_version(project@.version) + ")"@,
        },
        relative_path,
    }
}

/// The line of a project cannot be made: it lies outside the repository, or it
/// is a workspace whose version cannot be bumped.
pub open spec fn is_display_fault(
    error: DisplayError,
    project: Project,
    root: Seq<char>,
    update_type: Option<UpdateType>,
) -> bool {
    match error {
        DisplayError::OutsideRepository { path } => path@ == project@.path && paths::below(
            project@.path,
            root,
        ) is None,
        DisplayError::Version(invalid) => paths::below(project@.path, root) is Some
            && project is Workspace && update_type is Some && workspace_next(
            project@,
            update_type->0,
        ) is None && invalid.version@ == (match project@.version {
            Some(v) => v,
            None => version::DEFAULT_VERSION@,
        }),
    }
}

/// The parts of the line of a project.
pub fn project_line(
    project: &Project,
    repo_root_path: &str,
    update_type: Option<UpdateType>,
) -> (result: Result<ProjectLine, DisplayError>)
    ensures
        match result {
            Ok(line) => paths::below(project@.path, repo_root_path@) is Some && line@ == line_of(
                *project,
                update_type,
                paths::below(project@.path, repo_root_path@)->0,
            ) && (project is Workspace && update_type is Some ==> workspace_next(
                project@,
                update_type->0,
            ) is Some),
            Err(error) => is_display_fault(error, *project, repo_root_path@, update_type),
        },
{
    let relative_path: String = match get_relative_path(repo_root_path, project.path()) {
        Some(relative_path) => relative_path,
        None => {
            return Err(DisplayError::OutsideRepository { path: project.path().to_string() });
        },
    };
    let name: String = match project.name() {
        Some(name) => name.to_string(),
        None => "unknown".to_string(),
    };
    let language: &str = language_name(project.language());
    let shown: String = format_version_display(project.version());
    let mut version: String = joined_text("(", shown.as_str());
    let heading: String = match project {
        Project::Workspace(_) => {
            match update_type {
                Some(t) => match next_version_or_default(project.version(), t) {
                    Ok(next) => {
                        version.append(" → v");
                        version.append(next.as_str());
                    },
                    Err(invalid) => {
                        return Err(DisplayError::Version(invalid));
                    },
                },
                None => {},
            }
            joined_text3("[Workspace - ", language, "]")
        },
        Project::Package(_) => joined_text3("[", language, "]"),
    };
    version.append(")");
    let line: ProjectLine = ProjectLine { heading, name, version, relative_path };
    proof {
        reveal_strlit("");
        assert(line@ =~= line_of(
            *project,
            update_type,
            paths::below(project@.path, repo_root_path@)->0,
        ));
    }
    Ok(line)
}

/// What ends the colors of a text.
pub const RESET: &'static str = "\u{1b}[0m";

/// The text with the code set again behind everything in it that ends colors.
pub open spec fn repainted(text: Seq<char>, code: Seq<char>) -> Seq<char>
    decreases text.len(),
{
    if RESET@.len() == 0 || text.len() < RESET@.len() {
        text
    } else if text.take(RESET@.len() as int) == RESET@ {
        RESET@ + code + repainted(text.skip(RESET@.len() as int), code)
    } else {
        seq![text[0]] + repainted(text.drop_first(), code)
    }
}

/// A text as it is painted: plain where there are no colors, and where there
/// are, between the code and a reset, with the code set again behind every reset
/// in it. Where colors are switched off while the text is displayed, the codes
/// that were still to come are left out; the reset at the end never is.
pub open spec fn is_painted(painted: Seq<char>, text: Seq<char>, code: Seq<char>) -> bool {
    ||| painted == text
    ||| painted == code + repainted(text, code) + RESET@
    ||| painted == code + text + RESET@
    ||| painted == repainted(text, code) + RESET@
    ||| painted == text + RESET@
}

/// `Colorize::bright_blue` and `Colorize::bold`, displayed. Whether there are
/// colors depends on the environment, and on `colored::control`, by which
/// another thread can switch them off or on while the text is displayed: `colored`
/// asks again before it writes the code and before it looks for resets in the
/// text.
#[verifier::external_body]
fn paint_heading(text: &str) -> (painted: String)
    ensures
        is_painted(painted@, text@, "\u{1b}[1;94m"@),
{
    text.bright_blue().bold().to_string()
}

/// `Colorize::bright_white` and `Colorize::bold`, displayed, with what
/// [`paint_heading`] says of the environment.
#[verifier::external_body]
fn paint_name(text: &str) -> (painted: String)
    ensures
        is_painted(painted@, text@, "\u{1b}[1;97m"@),
{
    text.bright_white().bold().to_string()
}

/// `Colorize::bright_green`, displayed, with what [`paint_heading`] says of the
/// environment.
#[verifier::external_body]
fn paint_version(text: &str) -> (painted: String)
    ensures
        is_painted(painted@, text@, "\u{1b}[92m"@),
{
    text.bright_green().to_string()
}

/// `Colorize::bright_cyan`, displayed, with what [`paint_heading`] says of the
/// environment.
#[verifier::external_body]
fn paint_dash(text: &str) -> (painted: String)
    ensures
        is_painted(painted@, text@, "\u{1b}[96m"@),
{
    text.bright_cyan().to_string()
}

/// `Colorize::bright_black`, displayed, with what [`paint_heading`] says of the
/// environment.
#[verifier::external_body]
fn paint_path(text: &str) -> (painted: String)
    ensures
        is_painted(painted@, text@, "\u{1b}[90m"@),
{
    text.bright_black().to_string()
}

/// The parts of a line with spaces between them and a dash before the path,
/// each painted in its color.
pub open spec fn is_painted_line(shown: Seq<char>, line: LineView) -> bool {
    exists|heading: Seq<char>, name: Seq<char>, version: Seq<char>, dash: Seq<char>, path: Seq<
        char,
    >|
        #![trigger painted_line(heading, name, version, dash, path)]
        shown == painted_line(heading, name, version, dash, path) && is_painted(
            heading,
            line.heading,
            "\u{1b}[1;94m"@,
        ) && is_painted(name, line.name, "\u{1b}[1;97m"@) && is_painted(
            version,
            line.version,
            "\u{1b}[92m"@,
        ) && is_painted(dash, "-"@, "\u{1b}[96m"@) && is_painted(
            path,
            line.relative_path,
            "\u{1b}[90m"@,
        )
}

/// The painted parts with spaces between them.
pub open spec fn painted_line(
    heading: Seq<char>,
    name: Seq<char>,
    version: Seq<char>,
    dash: Seq<char>,
    path: Seq<char>,
) -> Seq<char> {
    heading + " "@ + name + " "@ + version + " "@ + dash + " "@ + path
}

/// A project on one line, in colors where the environment wants them.
pub fn display_project(
    project: &Project,
    repo_root_path: &str,
    update_type: Option<UpdateType>,
) -> (result: Result<String, DisplayError>)
    ensures
        match result {
            Ok(shown) => paths::below(project@.path, repo_root_path@) is Some && is_painted_line(
                shown@,
                line_of(
                    *project,
                    update_type,
                    paths::below(project@.path, repo_root_path@)->0,
                ),
            ) && (project is Workspace && update_type is Some ==> workspace_next(
                project@,
                update_type->0,
            ) is Some),
            Err(error) => is_display_fault(error, *project, repo_root_path@, update_type),
        },
{
    let line: ProjectLine = match project_line(project, repo_root_path, update_type) {
        Ok(line) => line,
        Err(error) => {
            return Err(error);
        },
    };
    let heading: String = paint_heading(line.heading.as_str());
    let name: String = paint_name(line.name.as_str());
    let version: String = paint_version(line.version.as_str());
    let dash: String = paint_dash("-");
    let path: String = paint_path(line.relative_path.as_str());
    let mut shown: String = joined_text3(heading.as_str(), " ", name.as_str());
    shown.append(" ");
    shown.append(version.as_str());
    shown.append(" ");
    shown.append(dash.as_str());
    shown.append(" ");
    shown.append(path.as_str());
    proof {
        assert(shown@ =~= painted_line(heading@, name@, version@, dash@, path@));
    }
    Ok(shown)
}

/// What the line of a package shows: its language, its name, its version and its
/// place. An update does not change it.
pub proof fn lines_of_packages(
    project: Project,
    update_type: Option<UpdateType>,
    relative_path: Seq<char>,
)
    requires
        project is Package,
    ensures
        ({
            let line = line_of(project, update_type, relative_path);
            &&& line.heading == "[Rust]"@
            &&& line.name == if project@.name is Some {
                project@.name->0
            } else {
                "unknown"@
            }
            &&& project@.version is Some ==> line.version == "(v"@ + project@.version->0 + ")"@
            &&& project@.version is None ==> line.version == "(unknown)"@
            &&& line.relative_path == relative_path
        }),
{
    reveal_strlit("[Rust]");
    reveal_strlit("Rust");
    reveal_strlit("[");
    reveal_strlit("]");
    reveal_strlit("(");
    reveal_strlit(")");
    reveal_strlit("v");
    reveal_strlit("(v");
    reveal_strlit("unknown");
    reveal_strlit("(unknown)");
    let line = line_of(project, update_type, relative_path);
    assert(line.heading =~= "[Rust]"@);
    if project@.version is Some {
        assert(line.version =~= "(v"@ + project@.version->0 + ")"@);
    } else {
        assert(line.version =~= "(unknown)"@);
    }
}

/// What the line of a workspace shows: the same, and where an update leads its
/// version, which without one starts at `0.0.0`.
pub proof fn lines_of_workspaces(
    project: Project,
    update_type: Option<UpdateType>,
    relative_path: Seq<char>,
    next: Seq<char>,
)
    requires
        project is Workspace,
        update_type is Some ==> version::next_version_text(
            if project@.version is Some {
                project@.version->0
            } else {
                "0.0.0"@
            },
            update_type->0,
        ) == Some(next),
    ensures
        ({
            let line = line_of(project, update_type, relative_path);
            let arrow = if update_type is Some {
                " → v"@ + next
            } else {
                Seq::empty()
            };
            &&& line.heading == "[Workspace - Rust]"@
            &&& line.name == if project@.name is Some {
                project@.name->0
            } else {
                "unknown"@
            }
            &&& project@.version is Some ==> line.version == "(v"@ + project@.version->0 + arrow
                + ")"@
            &&& project@.version is None ==> line.version == "(unknown"@ + arrow + ")"@
            &&& line.relative_path == relative_path
        }),
{
    reveal_strlit("[Workspace - Rust]");
    reveal_strlit("[Workspace - ");
    reveal_strlit("Rust");
    reveal_strlit("]");
    reveal_strlit("(");
    reveal_strlit("v");
    reveal_strlit("(v");
    reveal_strlit("unknown");
    reveal_strlit("(unknown");
    reveal_strlit("");
    let line = line_of(project, update_type, relative_path);
    let arrow = if update_type is Some {
        " → v"@ + next
    } else {
        Seq::empty()
    };
    assert(line.heading =~= "[Workspace - Rust]"@);
    if project@.version is Some {
        assert(line.version =~= "(v"@ + project@.version->0 + arrow + ")"@);
    } else {
        assert(line.version =~= "(unknown"@ + arrow + ")"@);
    }
}

} // verus!
