use vstd::prelude::*;

verus! {

/// Command-line options of the program, as plain values.
pub struct Args {
    /// Config directory.
    pub config_dir_path: Option<String>,
    /// Config file to use, within the config directory.
    pub config_name: Option<String>,
    /// Do not use the graphical interface.
    pub cli: bool,
    /// Access debug level logs.
    pub debug: bool,
    /// Access info level logs.
    pub info: bool,
    /// Put logs into a specific file.
    pub log_file: Option<String>,
    /// Write the hardware file into the config directory.
    pub serialize_hardware: bool,
}

impl Default for Args {
    fn default() -> (r: Args)
        ensures
            r.config_dir_path is None,
            r.config_name is None,
            !r.cli,
            !r.debug,
            !r.info,
            r.log_file is None,
            !r.serialize_hardware,
    {
        Args {
            config_dir_path: None,
            config_name: None,
            cli: false,
            debug: false,
            info: false,
            log_file: None,
            serialize_hardware: false,
        }
    }
}

/// The version string shown to the user: `<version>-<commit>`.
pub fn version(base: &str, commit: &str) -> (r: String)
    ensures
        r@ == base@ + "-"@ + commit@,
{
    let mut s = String::from_str(base);
    s.append("-");
    s.append(commit);
    s
}

} // verus!
