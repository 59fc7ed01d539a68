//! Plain view-state flags consumed by an interactive shell: which editing
//! sections are open, and which screen the shell shows.

use vstd::prelude::*;

verus! {

/// Which editing panels are open, and which are hovered in the preview.
#[derive(Copy, Clone, Debug, PartialEq, Eq, Structural, Default)]
pub struct UiSections {
    pub settings: bool,
    pub hover_settings: bool,
    pub reset_fields: bool,
    pub hover_reset_fields: bool,
    pub edit_rules: bool,
    pub hover_edit_rules: bool,
    pub edit_conv_matrix: bool,
    pub hover_edit_conv_matrix: bool,
    pub edit_colors: bool,
    pub hover_edit_colors: bool,
    pub hover_preview: bool,
}

impl UiSections {
    /// The settings panel shows when opened, or while hovered in the
    /// preview.
    pub fn show_settings(&self) -> (r: bool)
        ensures
            r == (self.settings || (self.hover_settings && self.hover_preview)),
    {
        self.settings || (self.hover_settings && self.hover_preview)
    }

    /// The field-reset panel shows when opened, or while hovered in the
    /// preview.
    pub fn show_reset_fields(&self) -> (r: bool)
        ensures
            r == (self.reset_fields || (self.hover_reset_fields && self.hover_preview)),
    {
        self.reset_fields || (self.hover_reset_fields && self.hover_preview)
    }

    /// The rule-editing panel shows when opened, or while hovered in the
    /// preview.
    pub fn show_edit_rules(&self) -> (r: bool)
        ensures
            r == (self.edit_rules || (self.hover_edit_rules && self.hover_preview)),
    {
        self.edit_rules || (self.hover_edit_rules && self.hover_preview)
    }

    /// The kernel-editing panel shows when opened, or while hovered in the
    /// preview.
    pub fn show_edit_conv_matrix(&self) -> (r: bool)
        ensures
            r == (self.edit_conv_matrix || (self.hover_edit_conv_matrix && self.hover_preview)),
    {
        self.edit_conv_matrix || (self.hover_edit_conv_matrix && self.hover_preview)
    }

    /// The colour-editing panel shows when opened, or while hovered in the
    /// preview.
    pub fn show_edit_colors(&self) -> (r: bool)
        ensures
            r == (self.edit_colors || (self.hover_edit_colors && self.hover_preview)),
    {
        self.edit_colors || (self.hover_edit_colors && self.hover_preview)
    }
}

/// The supported kernel widths an interactive shell offers.
#[derive(Copy, Clone, Debug, PartialEq, Eq, Structural)]
pub enum ConvolutionWidth {
    Three,
    Five,
}

/// Which screen an interactive shell shows.
#[derive(Copy, Clone, Debug, PartialEq, Eq, Structural)]
pub enum UiMode {
    Warn,
    Main,
    OpenFile,
    SaveFile,
    Help,
}

} // verus!
