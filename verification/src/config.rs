//! Runtime configuration for termrec.
//!
//! A setting can come from three places, in order of precedence:
//!   1. a command-line flag (e.g. `--prompt`, `--cmd-width`)
//!   2. the TOML config file
//!   3. a built-in default

use vstd::prelude::*;

verus! {

/// The prompt used when neither a flag nor the config file sets one.
pub open spec fn default_prompt() -> Seq<char> {
    seq!['$', ' ']
}

/// The replay width used when neither a flag nor the config file sets one.
pub const DEFAULT_CMD_WIDTH: usize = 80;

/// The replay height used when neither a flag nor the config file sets one.
pub const DEFAULT_CMD_HEIGHT: usize = 1000;

/// Termrec settings, as read from the config file.
///
/// Every field is optional: a missing field simply means "use the built-in
/// default" (or the value of the matching command-line flag, which wins).
#[derive(Debug)]
pub struct Config {
    /// Prompt printed in front of each command in a rendered transcript.
    pub prompt: Option<String>,
    /// Terminal width (in columns) used when replaying a recording.
    pub cmd_width: Option<usize>,
    /// Terminal height (in rows) used when replaying a recording.
    pub cmd_height: Option<usize>,
}

impl Default for Config {
    /// A config that sets nothing.
    fn default() -> (c: Self)
        ensures
            c.prompt is None,
            c.cmd_width is None,
            c.cmd_height is None,
    {
        Config { prompt: None, cmd_width: None, cmd_height: None }
    }
}

impl Config {
    /// The prompt in effect: the flag's, else the config file's, else `$ `.
    pub open spec fn spec_prompt(&self, cli: Option<Seq<char>>) -> Seq<char> {
        match cli {
            Some(flag) => flag,
            None => match self.prompt {
                Some(setting) => setting@,
                None => default_prompt(),
            },
        }
    }

    /// Resolve the prompt string: CLI flag, then config file, then `$ `.
    pub fn prompt(&self, cli: Option<String>) -> (p: String)
        ensures
            p@ == self.spec_prompt(
                match cli {
                    Some(flag) => Some(flag@),
                    None => None,
                },
            ),
            cli matches Some(flag) ==> p == flag,
            cli is None && self.prompt is Some ==> p@ == self.prompt->0@,
            cli is None && self.prompt is None ==> p@ == seq!['$', ' '],
    {
        match cli {
            Some(flag) => flag,
            None => match &self.prompt {
                Some(setting) => setting.clone(),
                None => {
                    let p = String::from_str("$ ");
                    proof {
                        reveal_strlit("$ ");
                    }
                    assert(p@ =~= default_prompt());
                    p
                },
            },
        }
    }

    /// The replay width in effect: the flag's, else the config file's,
    /// else 80.
    pub open spec fn spec_cmd_width(&self, cli: Option<usize>) -> usize {
        match cli {
            Some(flag) => flag,
            None => match self.cmd_width {
                Some(setting) => setting,
                None => DEFAULT_CMD_WIDTH,
            },
        }
    }

    /// The replay height in effect: the flag's, else the config file's,
    /// else 1000.
    pub open spec fn spec_cmd_height(&self, cli: Option<usize>) -> usize {
        match cli {
            Some(flag) => flag,
            None => match self.cmd_height {
                Some(setting) => setting,
                None => DEFAULT_CMD_HEIGHT,
            },
        }
    }

    /// Resolve the replay width: CLI flag, then config file, then 80.
    #[verifier::when_used_as_spec(spec_cmd_width)]
    pub fn cmd_width(&self, cli: Option<usize>) -> (w: usize)
        ensures
            w == self.spec_cmd_width(cli),
            cli matches Some(flag) ==> w == flag,
            cli is None && self.cmd_width is Some ==> w == self.cmd_width->0,
            cli is None && self.cmd_width is None ==> w == 80,
    {
        match cli {
            Some(flag) => flag,
            None => match self.cmd_width {
                Some(setting) => setting,
                None => DEFAULT_CMD_WIDTH,
            },
        }
    }

    /// Resolve the replay height: CLI flag, then config file, then 1000.
    #[verifier::when_used_as_spec(spec_cmd_height)]
    pub fn cmd_height(&self, cli: Option<usize>) -> (h: usize)
        ensures
            h == self.spec_cmd_height(cli),
            cli matches Some(flag) ==> h == flag,
            cli is None && self.cmd_height is Some ==> h == self.cmd_height->0,
            cli is None && self.cmd_height is None ==> h == 1000,
    {
        match cli {
            Some(flag) => flag,
            None => match self.cmd_height {
                Some(setting) => setting,
                None => DEFAULT_CMD_HEIGHT,
            },
        }
    }
}


/// A flag always decides its setting, whatever the config file holds: the
/// prompt, the replay width and the replay height given on the command line
/// are the ones in effect.
pub proof fn law_flags_win(config: Config, prompt: Seq<char>, width: usize, height: usize)
    ensures
        config.spec_prompt(Some(prompt)) == prompt,
        config.spec_cmd_width(Some(width)) == width,
        config.spec_cmd_height(Some(height)) == height,
{
}

/// Without a flag, the config file decides a setting it holds, and the
/// built-in default (`$ `, 80 columns, 1000 lines) decides one it does not.
pub proof fn law_config_file_then_default(config: Config)
    ensures
        config.prompt matches Some(p) ==> config.spec_prompt(None) == p@,
        config.prompt is None ==> config.spec_prompt(None) == seq!['$', ' '],
        config.cmd_width matches Some(w) ==> config.spec_cmd_width(None) == w,
        config.cmd_width is None ==> config.spec_cmd_width(None) == 80,
        config.cmd_height matches Some(h) ==> config.spec_cmd_height(None) == h,
        config.cmd_height is None ==> config.spec_cmd_height(None) == 1000,
{
}

} // verus!
