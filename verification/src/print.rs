//! Themes and the printer configuration for run output. The rendering itself
//! is input/output and lives outside the library; this module holds the
//! decisions: which theme a finished task gets and what a printer is
//! configured with.

use vstd::prelude::*;

verus! {

/// The two moods of the output: one for success, one for failure.
#[derive(Debug, Clone, Copy, PartialEq, Eq, Structural)]
pub enum PrintTheme {
    ThisFriggenKicksAss,
    ThisFriggenSucks,
}

/// The success theme for a zero exit code, the failure theme otherwise.
pub fn print_theme_for_code(code: i32) -> (r: PrintTheme)
    ensures
        r == (if code == 0 {
            PrintTheme::ThisFriggenKicksAss
        } else {
            PrintTheme::ThisFriggenSucks
        }),
{
    if code == 0 {
        PrintTheme::ThisFriggenKicksAss
    } else {
        PrintTheme::ThisFriggenSucks
    }
}

/// What the output renderer is configured with: a theme and whether headers
/// are suppressed.
#[derive(Debug, Clone, Copy, PartialEq, Eq, Structural)]
pub struct OutputPrinter {
    theme: PrintTheme,
    quiet: bool,
}

impl OutputPrinter {
    pub fn new(theme: PrintTheme, quiet: bool) -> (r: Self)
        ensures
            r.theme() == theme,
            r.quiet() == quiet,
    {
        Self { theme, quiet }
    }

    /// The same printer with another theme.
    pub fn with_theme(&self, theme: PrintTheme) -> (r: Self)
        ensures
            r.theme() == theme,
            r.quiet() == self.quiet(),
    {
        Self { theme, quiet: self.quiet }
    }

    pub closed spec fn theme(&self) -> PrintTheme {
        self.theme
    }

    pub closed spec fn quiet(&self) -> bool {
        self.quiet
    }

    /// The configured theme.
    pub fn get_theme(&self) -> (r: PrintTheme)
        ensures
            r == self.theme(),
    {
        self.theme
    }

    /// Whether only task output itself should be printed.
    pub fn is_quiet(&self) -> (r: bool)
        ensures
            r == self.quiet(),
    {
        self.quiet
    }
}

} // verus!
