//! The configuration: the files to process, and the substitutions that
//! apply to all of them.

pub mod file_config;

use vstd::prelude::*;
use crate::config::file_config::Escape;
use crate::config::file_config::FileConfig;
use crate::config::file_config::escape_view;
use crate::config::file_config::prefix_view;
use crate::config::file_config::supplemented;
use crate::table::Table;

verus! {

/// The replacements of the keys that may stand between the escape
/// sequences of a file.
pub type Substitutions = Table;

/// The complete, normalized configuration.
///
/// All unset options of the file configurations have been filled with the
/// defaults, where those were defined.
pub struct Config {
    /// The list of files to process.
    pub file_configurations: Vec<FileConfig>,
    /// The list of global substitutions.
    pub substitutions: Substitutions,
}

/// The configuration as it was loaded.
pub struct RawConfig {
    /// Default escape surrounding substitutions.
    pub default_escape: Option<Escape>,
    /// Default line prefix for commands.
    pub default_prefix: Option<String>,
    /// Default value for removing commands. If true, commands will be cut
    /// from the output file.
    pub default_remove_instructions: bool,
    /// The list of files to process.
    pub file_configurations: Vec<FileConfig>,
    /// The list of global substitutions.
    pub substitutions: Option<Substitutions>,
}

impl Config {
    /// The normalized form of a loaded configuration: each file
    /// configuration supplemented with the defaults, and no substitutions
    /// where none were given.
    pub fn from(raw: RawConfig) -> (config: Config)
        ensures
            config.file_configurations@.len() == raw.file_configurations@.len(),
            forall|i: int|
                0 <= i < raw.file_configurations@.len() ==> (
                #[trigger] config.file_configurations@[i])@ == supplemented(
                    raw.file_configurations@[i]@,
                    escape_view(raw.default_escape),
                    raw.default_remove_instructions,
                    prefix_view(raw.default_prefix),
                ),
            config.substitutions@ == match raw.substitutions {
                Some(given) => given@,
                None => Map::<Seq<char>, Seq<char>>::empty(),
            },
    {
        let mut file_configurations = raw.file_configurations;
        let prefix = raw.default_prefix;
        let remove_instructions = raw.default_remove_instructions;
        let escape = raw.default_escape;
        let substitutions = match raw.substitutions {
            Some(given) => given,
            None => Table::new(),
        };
        // Fill in the defaults where necessary
        let ghost given = file_configurations@;
        let mut i: usize = 0;
        while i < file_configurations.len()
            invariant
                i <= file_configurations@.len() == given.len(),
                forall|j: int|
                    0 <= j < i ==> (#[trigger] file_configurations@[j])@ == supplemented(
                        given[j]@,
                        escape_view(escape),
                        remove_instructions,
                        prefix_view(prefix),
                    ),
                forall|j: int| i <= j < given.len() ==> file_configurations@[j] == given[j],
            decreases file_configurations.len() - i,
        {
            file_configurations[i].supplement(&escape, remove_instructions, &prefix);
            i += 1;
        }
        // Return a real config
        Config { file_configurations, substitutions }
    }
}

} // verus!
