//! The configuration: where templates are read and files written, the shared values, and the
//! files to generate.
use vstd::prelude::*;

use crate::values::ValuesMap;

verus! {

/// One file to generate: its name, the template it uses in place of the default one, and the
/// values that override the shared ones for it.
pub struct ConfigItem {
    pub name: String,
    pub template: Option<String>,
    pub values: ValuesMap,
}

/// A configuration: the directory files are written to, the directory templates are read from,
/// the default template, the extension of generated files, whether files that were not
/// generated are removed from the target directory, the shared values and the files to generate.
pub struct Config {
    pub path_to_target: String,
    pub path_to_template: String,
    pub template: String,
    pub target_extension: String,
    pub clean_target: bool,
    pub values: ValuesMap,
    pub configs: Vec<ConfigItem>,
}

/// The name of the template an item uses: its own, or else the configuration's default.
pub fn template_name<'a>(config: &'a Config, item: &'a ConfigItem) -> (r: &'a String)
    ensures
        r@ == match item.template {
            Some(t) => t@,
            None => config.template@,
        },
{
    match &item.template {
        Some(t) => t,
        None => &config.template,
    }
}

} // verus!
