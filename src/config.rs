use vstd::prelude::*;

verus! {

/// Why the command line gives no configuration.
#[derive(PartialEq, Eq, Structural, Debug, Clone, Copy)]
pub enum ConfigError {
    /// Help was asked for, or no argument was given.
    Help,
    NotEnoughArguments,
    DatasetMissing,
    UpdateMissing,
    /// Fast mode builds the hierarchy folder, which must not exist yet.
    FastModeMetaExists,
    /// Slow mode reads the hierarchy folder, which must exist.
    SlowModeMetaMissing,
}

/// The paths and mode that a run works with.
pub struct Config {
    pub dataset_path: String,
    pub meta_folder_path: String,
    pub update_path: String,
    pub use_fast: bool,
}

pub open spec fn asks_help(args: Seq<String>) -> bool {
    args.len() == 1 || args[1]@ == "--help"@ || args[1]@ == "-h"@
}

pub open spec fn asks_fast(args: Seq<String>) -> bool {
    args.len() > 4 && (args[4]@ == "--fast"@ || args[4]@ == "-f"@)
}

/// Whether `s` reads `lit`.
fn text_is(s: &String, lit: &str) -> (r: bool)
    ensures
        r == (s@ == lit@),
{
    s.eq(&lit.to_owned())
}

impl Config {
    /// Reads the command line `args` (the program name first): the dataset path,
    /// the update path, the hierarchy folder, and an optional fast-mode flag.
    /// Whether each of the three paths exists is given alongside.
    pub fn new(args: &Vec<String>, dataset_exists: bool, update_exists: bool, meta_exists: bool) -> (r: Result<Config, ConfigError>)
        requires
            args@.len() >= 1,
        ensures
            ({
                let a = args@;
                if asks_help(a) {
                    r == Err::<Config, ConfigError>(ConfigError::Help)
                } else if a.len() < 3 {
                    r == Err::<Config, ConfigError>(ConfigError::NotEnoughArguments)
                } else if !dataset_exists {
                    r == Err::<Config, ConfigError>(ConfigError::DatasetMissing)
                } else if !update_exists {
                    r == Err::<Config, ConfigError>(ConfigError::UpdateMissing)
                } else if a.len() < 4 {
                    r == Err::<Config, ConfigError>(ConfigError::NotEnoughArguments)
                } else if asks_fast(a) && meta_exists {
                    r == Err::<Config, ConfigError>(ConfigError::FastModeMetaExists)
                } else if !asks_fast(a) && !meta_exists {
                    r == Err::<Config, ConfigError>(ConfigError::SlowModeMetaMissing)
                } else {
                    &&& r is Ok
                    &&& r->Ok_0.dataset_path@ == a[1]@
                    &&& r->Ok_0.update_path@ == a[2]@
                    &&& r->Ok_0.meta_folder_path@ == a[3]@
                    &&& r->Ok_0.use_fast == asks_fast(a)
                }
            }),
    {
        let n = args.len();
        if n == 1 || text_is(&args[1], "--help") || text_is(&args[1], "-h") {
            return Err(ConfigError::Help);
        }
        if n < 3 {
            return Err(ConfigError::NotEnoughArguments);
        }
        if !dataset_exists {
            return Err(ConfigError::DatasetMissing);
        }
        if !update_exists {
            return Err(ConfigError::UpdateMissing);
        }
        if n < 4 {
            return Err(ConfigError::NotEnoughArguments);
        }
        let use_fast = n > 4 && (text_is(&args[4], "--fast") || text_is(&args[4], "-f"));
        if use_fast && meta_exists {
            return Err(ConfigError::FastModeMetaExists);
        } else if !use_fast && !meta_exists {
            return Err(ConfigError::SlowModeMetaMissing);
        }
        Ok(Config {
            dataset_path: args[1].clone(),
            meta_folder_path: args[3].clone(),
            update_path: args[2].clone(),
            use_fast,
        })
    }
}

} // verus!
