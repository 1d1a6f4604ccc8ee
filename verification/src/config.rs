//! The user configuration: an optional post-processing program run on each
//! cut file.

use vstd::prelude::*;
use vstd::string::StringExecFns;

verus! {

/// Whether a post-processing program runs after each successful cut, and
/// which one.
#[derive(Debug, Clone)]
pub struct Config {
    pub postproc_enabled: bool,
    pub postproc_program: String,
}

impl Default for Config {
    /// Post-processing disabled; the program is `ls`.
    fn default() -> (c: Self)
        ensures
            !c.postproc_enabled,
            c.postproc_program@ == "ls"@,
    {
        Config { postproc_enabled: false, postproc_program: String::from_str("ls") }
    }
}

impl Config {
    /// The text of the configuration file: a JSON object with a schema, a
    /// comment on each setting, and the two settings. The program is written
    /// between quotes as it is.
    pub fn file_text(&self) -> (r: String)
        ensures
            r@ == "{\n  \"$schema\": \"https://json.schemastore.org/config\",\n  \"_comment\": \"Configuration for podcasts_remove_ads.\",\n  \"_comment_postproc_enabled\": \"If true, run a post-processing program after each successful cut.\",\n  \"postproc_enabled\": "@
                + (if self.postproc_enabled {
                "true"@
            } else {
                "false"@
            })
                + ",\n  \"_comment_postproc_program\": \"Name or path of the post-processing program to run (receives the cut file path as argument).\",\n  \"postproc_program\": \""@
                + self.postproc_program@ + "\"\n}\n"@,
    {
        let mut r = String::from_str(
            "{\n  \"$schema\": \"https://json.schemastore.org/config\",\n  \"_comment\": \"Configuration for podcasts_remove_ads.\",\n  \"_comment_postproc_enabled\": \"If true, run a post-processing program after each successful cut.\",\n  \"postproc_enabled\": ",
        );
        if self.postproc_enabled {
            r.append("true");
        } else {
            r.append("false");
        }
        r.append(
            ",\n  \"_comment_postproc_program\": \"Name or path of the post-processing program to run (receives the cut file path as argument).\",\n  \"postproc_program\": \"",
        );
        r.append(self.postproc_program.as_str());
        r.append("\"\n}\n");
        r
    }
}

} // verus!
