//! What an analysis reports: pairs of projects with the places where their
//! code matches, and warnings about files that were left out.

use std::ops::Range;
use vstd::prelude::*;
use vstd::string::StringExecFns;

verus! {

/// What a warning is about.
#[derive(Debug, PartialEq, Eq, Structural, Clone, Copy, Hash)]
pub enum WarningType {
    /// A file could not be read.
    Input,
    /// A file was too short to be fingerprinted.
    Fingerprint,
    /// The arguments are legal but questionable.
    Args,
}

/// A problem that did not stop the analysis.
#[derive(Debug, PartialEq, Eq, Clone)]
pub struct Warning {
    /// The file concerned, if there is one.
    pub file: Option<String>,
    pub message: String,
    pub warn_type: WarningType,
}

pub struct WarningView {
    pub file: Option<Seq<char>>,
    pub message: Seq<char>,
    pub warn_type: WarningType,
}

impl View for Warning {
    type V = WarningView;

    open spec fn view(&self) -> WarningView {
        WarningView {
            file: match self.file {
                Some(f) => Some(f@),
                None => None,
            },
            message: self.message@,
            warn_type: self.warn_type,
        }
    }
}

/// The name of a kind of warning.
pub open spec fn warning_type_name(warn_type: WarningType) -> Seq<char> {
    match warn_type {
        WarningType::Input => "Input"@,
        WarningType::Fingerprint => "Fingerprint"@,
        WarningType::Args => "Args"@,
    }
}

/// A warning in words: what kind of error it is and in which file, then on a
/// line of its own what is wrong.
pub open spec fn warning_text(warning: WarningView) -> Seq<char> {
    warning_type_name(warning.warn_type) + " error"@ + match warning.file {
        Some(file) => " in \""@ + file + "\""@,
        None => Seq::empty(),
    } + ":\n  "@ + warning.message
}

impl WarningType {
    /// The name of this kind of warning.
    pub fn name(&self) -> (name: &'static str)
        ensures
            name@ == warning_type_name(*self),
    {
        match self {
            WarningType::Input => "Input",
            WarningType::Fingerprint => "Fingerprint",
            WarningType::Args => "Args",
        }
    }
}

impl Warning {
    /// The warning in words, as it is shown to the user.
    pub fn describe(&self) -> (text: String)
        ensures
            text@ == warning_text(self@),
    {
        let mut text = String::from_str(self.warn_type.name());
        text.append(" error");
        match &self.file {
            Some(f) => {
                text.append(" in \"");
                text.append(f.as_str());
                text.append("\"");
            },
            None => {},
        }
        text.append(":\n  ");
        text.append(self.message.as_str());
        proof {
            assert(text@ =~= warning_text(self@));
        }
        text
    }
}

/// A code snippet: a file and the bytes of the snippet within it.
#[derive(Debug, PartialEq, Eq, Hash)]
pub struct Location {
    /// File in which the code snippet is found.
    pub file: String,
    /// Position of the code snippet within the file (in bytes).
    pub span: Range<usize>,
}

pub struct LocationView {
    pub file: Seq<char>,
    pub span: Range<usize>,
}

impl View for Location {
    type V = LocationView;

    open spec fn view(&self) -> LocationView {
        LocationView { file: self.file@, span: self.span }
    }
}

/// A code snippet that two projects share.
#[derive(Debug, PartialEq, Eq, Hash)]
pub struct Match {
    /// Where the snippet stands in the first project.
    pub project_1_location: Location,
    /// Where the snippet stands in the second project.
    pub project_2_location: Location,
}

pub struct MatchView {
    pub project_1_location: LocationView,
    pub project_2_location: LocationView,
}

impl View for Match {
    type V = MatchView;

    open spec fn view(&self) -> MatchView {
        MatchView {
            project_1_location: self.project_1_location@,
            project_2_location: self.project_2_location@,
        }
    }
}

/// The matches between two projects.
#[derive(Debug, PartialEq, Eq)]
pub struct ProjectPair {
    /// Name of the first project.
    pub project1: String,
    /// Name of the second project.
    pub project2: String,
    /// Matches between the two projects.
    pub matches: Vec<Match>,
}

pub struct ProjectPairView {
    pub project1: Seq<char>,
    pub project2: Seq<char>,
    pub matches: Seq<MatchView>,
}

/// The views of the items of a sequence, in order.
pub open spec fn views<T: View>(items: Seq<T>) -> Seq<T::V> {
    items.map_values(|x: T| x@)
}

impl View for ProjectPair {
    type V = ProjectPairView;

    open spec fn view(&self) -> ProjectPairView {
        ProjectPairView {
            project1: self.project1@,
            project2: self.project2@,
            matches: views(self.matches@),
        }
    }
}

/// Everything an analysis has to say.
pub struct Output {
    pub warnings: Vec<Warning>,
    pub project_pairs: Vec<ProjectPair>,
}

impl Output {
    pub fn new(warnings: Vec<Warning>, project_pairs: Vec<ProjectPair>) -> (output: Output)
        ensures
            output.warnings == warnings,
            output.project_pairs == project_pairs,
    {
        Output { warnings, project_pairs }
    }
}

impl Location {
    /// A copy of this location.
    pub fn duplicate(&self) -> (copy: Location)
        ensures
            copy@ == self@,
    {
        Location { file: self.file.clone(), span: self.span.start..self.span.end }
    }

    /// Whether two locations name the same bytes of the same file.
    pub fn same(&self, other: &Location) -> (same: bool)
        ensures
            same == (self@ == other@),
    {
        self.file == other.file && self.span.start == other.span.start && self.span.end
            == other.span.end
    }
}

impl Match {
    /// A copy of this match.
    pub fn duplicate(&self) -> (copy: Match)
        ensures
            copy@ == self@,
    {
        Match {
            project_1_location: self.project_1_location.duplicate(),
            project_2_location: self.project_2_location.duplicate(),
        }
    }

    /// Whether two matches join the same two locations.
    pub fn same(&self, other: &Match) -> (same: bool)
        ensures
            same == (self@ == other@),
    {
        self.project_1_location.same(&other.project_1_location) && self.project_2_location.same(
            &other.project_2_location,
        )
    }
}

} // verus!
