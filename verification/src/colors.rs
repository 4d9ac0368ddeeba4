//! The color palette of the command line interface, as plain values.

use vstd::prelude::*;
use crate::records::{folder_mime_type, Doc};

verus! {

/// The colors that the palette uses.
#[derive(Clone, Copy, Debug, PartialEq, Eq, Structural)]
pub enum Color {
    Blue,
    Green,
    Red,
    Yellow,
}

/// How a piece of text is shown: its foreground color, if it has one, and
/// whether it is bold.
#[derive(Clone, Copy, Debug, PartialEq, Eq, Structural)]
pub struct ColorSpec {
    pub fg: Option<Color>,
    pub bold: bool,
}

/// The kinds of report.
#[derive(Clone, Copy, Debug, PartialEq, Eq, Structural)]
pub enum ReportType {
    /// An informational message.
    Info,
    /// A warning.
    Warning,
    /// An error.
    Error,
}

/// Where text is printed: standard output or standard error.
#[derive(Clone, Copy, Debug, PartialEq, Eq, Structural)]
pub enum PrintDestination {
    /// Standard error.
    Stderr,
    /// Standard output.
    Stdout,
}

/// The stream to which a report of a kind goes: informational messages to
/// standard output, warnings and errors to standard error.
pub fn report_destination(reptype: ReportType) -> (d: PrintDestination)
    ensures
        d == (if reptype == ReportType::Info {
            PrintDestination::Stdout
        } else {
            PrintDestination::Stderr
        }),
{
    match reptype {
        ReportType::Info => PrintDestination::Stdout,
        ReportType::Warning => PrintDestination::Stderr,
        ReportType::Error => PrintDestination::Stderr,
    }
}

/// A color without boldness.
pub open spec fn plain_color(c: Color) -> ColorSpec {
    ColorSpec { fg: Some(c), bold: false }
}

/// A bold color.
pub open spec fn bold_color(c: Color) -> ColorSpec {
    ColorSpec { fg: Some(c), bold: true }
}

/// A basic selection of colors.
#[derive(Clone, Copy, Debug, PartialEq, Eq, Structural)]
pub struct BasicColors {
    /// Bold green.
    pub green: ColorSpec,
    /// Bold yellow.
    pub yellow: ColorSpec,
    /// Bold red.
    pub red: ColorSpec,
    /// "Highlight": bold white.
    pub hl: ColorSpec,
}

/// The palette of the command line interface.
#[derive(Clone, Copy, Debug, PartialEq, Eq, Structural)]
pub struct Colors {
    /// Bold green.
    pub green: ColorSpec,
    /// Bold yellow.
    pub yellow: ColorSpec,
    /// Bold red.
    pub red: ColorSpec,
    /// "Highlight": bold white.
    pub hl: ColorSpec,
    /// Without color or boldness.
    pub plain: ColorSpec,
    /// The color of the `%N` tag of a document in a listing; red.
    pub percent_tag: ColorSpec,
    /// The color of a folder; bold blue.
    pub folder: ColorSpec,
}

/// The palette with which the application starts.
pub open spec fn default_colors() -> Colors {
    Colors {
        green: bold_color(Color::Green),
        yellow: bold_color(Color::Yellow),
        red: bold_color(Color::Red),
        hl: ColorSpec { fg: None, bold: true },
        plain: ColorSpec { fg: None, bold: false },
        percent_tag: plain_color(Color::Red),
        folder: bold_color(Color::Blue),
    }
}

/// The basic palette.
pub open spec fn default_basic_colors() -> BasicColors {
    BasicColors {
        green: bold_color(Color::Green),
        yellow: bold_color(Color::Yellow),
        red: bold_color(Color::Red),
        hl: ColorSpec { fg: None, bold: true },
    }
}

impl Default for Colors {
    fn default() -> (c: Self)
        ensures
            c == default_colors(),
    {
        Colors {
            green: ColorSpec { fg: Some(Color::Green), bold: true },
            yellow: ColorSpec { fg: Some(Color::Yellow), bold: true },
            red: ColorSpec { fg: Some(Color::Red), bold: true },
            hl: ColorSpec { fg: None, bold: true },
            plain: ColorSpec { fg: None, bold: false },
            percent_tag: ColorSpec { fg: Some(Color::Red), bold: false },
            folder: ColorSpec { fg: Some(Color::Blue), bold: true },
        }
    }
}

impl Default for BasicColors {
    fn default() -> (c: Self)
        ensures
            c == default_basic_colors(),
    {
        BasicColors {
            green: ColorSpec { fg: Some(Color::Green), bold: true },
            yellow: ColorSpec { fg: Some(Color::Yellow), bold: true },
            red: ColorSpec { fg: Some(Color::Red), bold: true },
            hl: ColorSpec { fg: None, bold: true },
        }
    }
}

/// A palette that has a color for each kind of report.
pub trait ReportingColors {
    /// The color in which the prefix of a report is printed.
    fn get_color_for_report(&self, reptype: ReportType) -> &ColorSpec;
}

impl Colors {
    /// The color of a kind of report in this palette: green for
    /// information, yellow for a warning, red for an error.
    pub open spec fn report_color(&self, reptype: ReportType) -> ColorSpec {
        match reptype {
            ReportType::Info => self.green,
            ReportType::Warning => self.yellow,
            ReportType::Error => self.red,
        }
    }
}

impl BasicColors {
    /// The color of a kind of report in this palette: green for
    /// information, yellow for a warning, red for an error.
    pub open spec fn report_color(&self, reptype: ReportType) -> ColorSpec {
        match reptype {
            ReportType::Info => self.green,
            ReportType::Warning => self.yellow,
            ReportType::Error => self.red,
        }
    }
}

impl ReportingColors for Colors {
    fn get_color_for_report(&self, reptype: ReportType) -> (c: &ColorSpec)
        ensures
            *c == self.report_color(reptype),
    {
        match reptype {
            ReportType::Info => &self.green,
            ReportType::Warning => &self.yellow,
            ReportType::Error => &self.red,
        }
    }
}

impl ReportingColors for BasicColors {
    fn get_color_for_report(&self, reptype: ReportType) -> (c: &ColorSpec)
        ensures
            *c == self.report_color(reptype),
    {
        match reptype {
            ReportType::Info => &self.green,
            ReportType::Warning => &self.yellow,
            ReportType::Error => &self.red,
        }
    }
}

impl Colors {
    /// The color of the name of a document in a listing: red if it is in
    /// the trash, else yellow if it is starred, else the folder color if it
    /// is a folder, else plain.
    pub open spec fn doc_color(&self, trashed: bool, starred: bool, folder: bool) -> ColorSpec {
        if trashed {
            self.red
        } else if starred {
            self.yellow
        } else if folder {
            self.folder
        } else {
            self.plain
        }
    }

    /// The color of the name of a document in a listing.
    pub fn color_for_doc(&self, doc: &Doc) -> (c: &ColorSpec)
        ensures
            *c == self.doc_color(
                doc.trashed,
                doc.starred,
                doc.mime_type@ == folder_mime_type(),
            ),
    {
        if doc.trashed {
            &self.red
        } else if doc.starred {
            &self.yellow
        } else if doc.is_folder() {
            &self.folder
        } else {
            &self.plain
        }
    }
}

} // verus!
