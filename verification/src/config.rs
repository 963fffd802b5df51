//! Resolving the run configuration from a configuration-file source
//! and command-line overrides: the command line overrides the file's
//! username, and command-line interests are appended to, not replacing,
//! the file's interests. A run without a non-empty username fails.

use vstd::prelude::*;
use vstd::string::StrSliceExecFns;

use crate::inventory::views;

verus! {

/// What a configuration file yields: the user identity and the watched
/// package names.
#[derive(Debug)]
pub struct FileConfig {
    pub username: String,
    pub interests: Vec<String>,
}

/// The resolved configuration a run works with.
#[derive(Debug)]
pub struct RunConfiguration {
    pub username: String,
    pub interests: Vec<String>,
}

/// No source yielded a non-empty username.
#[derive(Debug)]
pub struct ConfigError {}

/// The username after the merge: the command line wins, the file is
/// the fallback.
pub open spec fn spec_username(file: Option<FileConfig>, cli: Option<String>) -> Option<
    Seq<char>,
> {
    match cli {
        Some(u) => Some(u@),
        None => match file {
            Some(f) => Some(f.username@),
            None => None,
        },
    }
}

/// The interests after the merge: the file's, with the command line's
/// appended.
pub open spec fn spec_interests(file: Option<FileConfig>, cli: Option<Vec<String>>) -> Seq<
    Seq<char>,
> {
    (match file {
        Some(f) => views(f.interests@),
        None => Seq::empty(),
    }) + (match cli {
        Some(c) => views(c@),
        None => Seq::empty(),
    })
}

/// Merge the configuration sources. Fails exactly when no source
/// yields a username, or the resolved username is empty.
pub fn merge_config(
    file: Option<FileConfig>,
    cli_username: Option<String>,
    cli_interests: Option<Vec<String>>,
) -> (r: Result<RunConfiguration, ConfigError>)
    ensures
        match r {
            Ok(c) => {
                &&& spec_username(file, cli_username) == Some(c.username@)
                &&& c.username@.len() > 0
                &&& views(c.interests@) == spec_interests(file, cli_interests)
            },
            Err(e) => match spec_username(file, cli_username) {
                Some(u) => u.len() == 0,
                None => true,
            },
        },
{
    let ghost base = spec_interests(file, cli_interests);
    let (file_username, mut interests): (Option<String>, Vec<String>) = match file {
        Some(f) => (Some(f.username), f.interests),
        None => (None, Vec::new()),
    };
    let username: String = match cli_username {
        Some(u) => u,
        None => match file_username {
            Some(u) => u,
            None => {
                return Err(ConfigError {  });
            },
        },
    };
    if username.as_str().unicode_len() == 0 {
        return Err(ConfigError {  });
    }
    let ghost file_part = views(interests@);
    match cli_interests {
        None => {
            proof {
                assert(views(interests@) =~= base);
            }
        },
        Some(cl) => {
            let mut i: usize = 0;
            while i < cl.len()
                invariant
                    i <= cl@.len(),
                    views(interests@) == file_part + views(cl@).take(i as int),
                decreases cl@.len() - i,
            {
                let ghost before = views(interests@);
                interests.push(cl[i].clone());
                proof {
                    assert(views(interests@) =~= before.push(cl@[i as int]@));
                    assert(views(cl@)[i as int] == cl@[i as int]@);
                    assert(before.push(cl@[i as int]@) =~= file_part + views(cl@).take(
                        i as int + 1,
                    ));
                }
                i = i + 1;
            }
            proof {
                assert(views(cl@).take(cl@.len() as int) =~= views(cl@));
                assert(views(interests@) =~= base);
            }
        },
    }
    Ok(RunConfiguration { username, interests })
}

} // verus!
