//! The colour theme of a front end.

use vstd::prelude::*;
use vstd::string::StringExecFns;

verus! {

/// A colour theme, named by the style class that carries it.
#[derive(Debug, Clone)]
pub struct Colors {
    pub class_name: String,
}

impl Colors {
    /// The light theme.
    pub fn from_light_theme() -> (colors: Colors)
        ensures
            colors.class_name@ == "light"@,
    {
        Colors { class_name: String::from_str("light") }
    }

    /// The dark theme.
    pub fn from_dark_theme() -> (colors: Colors)
        ensures
            colors.class_name@ == "dark"@,
    {
        Colors { class_name: String::from_str("dark") }
    }
}

/// The theme of the given name: the light theme for `light`, the dark theme
/// for any other name.
pub fn get_theme_color(selected_theme: &str) -> (colors: Colors)
    ensures
        colors.class_name@ == if selected_theme@ == "light"@ {
            "light"@
        } else {
            "dark"@
        },
{
    let selected = String::from_str(selected_theme);
    let light = String::from_str("light");
    if selected == light {
        Colors::from_light_theme()
    } else {
        Colors::from_dark_theme()
    }
}

} // verus!
