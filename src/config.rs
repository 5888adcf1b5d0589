//! Where the library keeps its stores and models.
use vstd::prelude::*;
use crate::error::Error;
use crate::text::{append_chars, chars_of, string_of};

verus! {

/// Locations of the library's data, as slash-separated paths.
#[derive(Debug, Clone)]
pub struct Config {
    pub base_dir: String,
    pub database_dir: String,
    pub models_dir: String,
    pub state_path: String,
}

/// `rel` appended to `dir`, with one slash between them.
pub open spec fn join_path(dir: Seq<char>, rel: Seq<char>) -> Seq<char> {
    if dir.len() == 0 {
        rel
    } else if dir.last() == '/' {
        dir + rel
    } else {
        dir.push('/') + rel
    }
}

/// Joins a relative path onto a directory.
pub fn join(dir: &str, rel: &str) -> (r: String)
    ensures
        r@ == join_path(dir@, rel@),
{
    let mut out = chars_of(dir);
    if out.len() > 0 && out[out.len() - 1] != '/' {
        out.push('/');
    }
    let r = chars_of(rel);
    append_chars(&mut out, r.as_slice());
    string_of(out.as_slice())
}

/// Relies on `dirs::home_dir` for the current user's home directory; none when it cannot be
/// determined or is not valid Unicode.
#[verifier::external_body]
fn home_dir() -> (r: Option<String>) {
    dirs::home_dir().and_then(|p| p.to_str().map(|s| s.to_string()))
}

/// The default base directory: `.notes2vec` under the home directory.
pub fn default_base_dir() -> (r: Result<String, Error>)
    ensures
        r matches Err(e) ==> e is Config,
        r matches Ok(d) ==> exists|home: Seq<char>| d@ == join_path(home, ".notes2vec"@),
{
    match home_dir() {
        Some(h) => {
            let d = join(h.as_str(), ".notes2vec");
            assert(d@ == join_path(h@, ".notes2vec"@));
            Ok(d)
        },
        None => Err(Error::Config("Could not determine home directory".to_string())),
    }
}

/// The configuration rooted at `base` (a path): stores and models live below it.
pub open spec fn config_at(c: Config, base: Seq<char>) -> bool {
    &&& c.base_dir@ == base
    &&& c.database_dir@ == join_path(base, "database"@)
    &&& c.models_dir@ == join_path(base, "models"@)
    &&& c.state_path@ == join_path(join_path(base, "state"@), "state.redb"@)
}

impl Config {
    /// The configuration rooted at `base_dir`, or at the default base directory (falling back
    /// to `.notes2vec` in the working directory when there is no home directory).
    pub fn new(base_dir: Option<String>) -> (r: Result<Config, Error>)
        ensures
            r matches Ok(c) && (base_dir matches Some(b) ==> config_at(c, b@)),
    {
        let base = match base_dir {
            Some(b) => b,
            None => match default_base_dir() {
                Ok(d) => d,
                Err(_) => ".notes2vec".to_string(),
            },
        };
        let state_dir = join(base.as_str(), "state");
        Ok(Config {
            database_dir: join(base.as_str(), "database"),
            models_dir: join(base.as_str(), "models"),
            state_path: join(state_dir.as_str(), "state.redb"),
            base_dir: base,
        })
    }
}

} // verus!
