//! Parsing of package identifiers.
//!
//! A package filename has the shape `name-[epoch:]version-release.arch.ext`;
//! a bare package reference has the shape `name-version-release`. Both are
//! split from the right, so that the name itself may contain `-`.

use vstd::prelude::*;
use vstd::string::StrSliceExecFns;

use crate::strutil::{find, first_index_of, last_index_of, lemma_first_index_of, lemma_last_index_of, rfind};

verus! {

/// A package identifier reduced to the fields that matter for inventory
/// matching: name, version and release.
#[derive(Debug)]
pub struct Nvr {
    pub name: String,
    pub version: String,
    pub release: String,
}

impl Nvr {
    /// The triple of character sequences that defines inventory matching:
    /// epoch and architecture play no part in it.
    pub open spec fn key(self) -> (Seq<char>, Seq<char>, Seq<char>) {
        (self.name@, self.version@, self.release@)
    }
}

/// A fully resolved package identifier: name, epoch, version, release
/// and architecture.
#[derive(Debug)]
pub struct Nevra {
    pub name: String,
    pub epoch: String,
    pub version: String,
    pub release: String,
    pub arch: String,
}

impl Nevra {
    pub open spec fn fields(self) -> (Seq<char>, Seq<char>, Seq<char>, Seq<char>, Seq<char>) {
        (self.name@, self.epoch@, self.version@, self.release@, self.arch@)
    }

    /// The reduced identifier: epoch and architecture are dropped.
    pub fn to_nvr(self) -> (r: Nvr)
        ensures
            r.name@ == self.name@,
            r.version@ == self.version@,
            r.release@ == self.release@,
    {
        Nvr { name: self.name, version: self.version, release: self.release }
    }
}

/// A malformed package identifier; carries the portion of the input on
/// which the split failed.
#[derive(Debug)]
pub struct ParseError {
    pub input: String,
}

/// Splitting a `name-version-release` reference from the right: the
/// release follows the last `-`, the version the one before it, and the
/// name is everything to their left. `None` when the input has fewer
/// than two `-`.
pub open spec fn spec_parse_nvr(s: Seq<char>) -> Option<(Seq<char>, Seq<char>, Seq<char>)> {
    let i = last_index_of(s, '-');
    if i < 0 {
        None
    } else {
        let j = last_index_of(s.take(i), '-');
        if j < 0 {
            None
        } else {
            Some((s.take(j), s.subrange(j + 1, i), s.skip(i + 1)))
        }
    }
}

/// Splitting `name-[epoch:]version-release.arch`: the architecture
/// follows the last `.`; the rest splits as a reference, and an epoch,
/// when present, precedes the first `:` of the middle part; an absent
/// epoch defaults to `"0"`.
pub open spec fn spec_parse_nevra(s: Seq<char>) -> Option<
    (Seq<char>, Seq<char>, Seq<char>, Seq<char>, Seq<char>),
> {
    let d = last_index_of(s, '.');
    if d < 0 {
        None
    } else {
        match spec_parse_nvr(s.take(d)) {
            None => None,
            Some(t) => {
                let k = first_index_of(t.1, ':');
                if k < 0 {
                    Some((t.0, seq!['0'], t.1, t.2, s.skip(d + 1)))
                } else {
                    Some((t.0, t.1.take(k), t.1.skip(k + 1), t.2, s.skip(d + 1)))
                }
            },
        }
    }
}

/// A filename drops its extension, everything after the last `.`, and
/// the remainder splits as a full identifier.
pub open spec fn spec_parse_filename(s: Seq<char>) -> Option<
    (Seq<char>, Seq<char>, Seq<char>, Seq<char>, Seq<char>),
> {
    let d = last_index_of(s, '.');
    if d < 0 {
        None
    } else {
        spec_parse_nevra(s.take(d))
    }
}

/// The input portion a failed parse of a full identifier reports: the
/// whole string when it has no `.`, else the part before the last `.`.
pub open spec fn spec_nevra_err(s: Seq<char>) -> Seq<char> {
    let d = last_index_of(s, '.');
    if d < 0 {
        s
    } else {
        s.take(d)
    }
}

/// The input portion a failed filename parse reports.
pub open spec fn spec_filename_err(s: Seq<char>) -> Seq<char> {
    let d = last_index_of(s, '.');
    if d < 0 {
        s
    } else {
        spec_nevra_err(s.take(d))
    }
}

/// An owned copy of the characters of `s` between `from` and `to`.
pub fn substr(s: &str, from: usize, to: usize) -> (r: String)
    requires
        from <= to <= s@.len(),
    ensures
        r@ == s@.subrange(from as int, to as int),
{
    s.substring_char(from, to).to_owned()
}

/// Parse a bare `name-version-release` reference. Succeeds exactly on
/// inputs with at least two `-`.
pub fn parse_nvr(s: &str) -> (r: Result<Nvr, ParseError>)
    ensures
        match r {
            Ok(nvr) => spec_parse_nvr(s@) == Some((nvr.name@, nvr.version@, nvr.release@)),
            Err(e) => spec_parse_nvr(s@) is None && e.input@ == s@,
        },
{
    proof {
        lemma_last_index_of(s@, '-');
    }
    let len = s.unicode_len();
    match rfind(s, '-') {
        None => Err(ParseError { input: s.to_owned() }),
        Some(i) => {
            let release = substr(s, i + 1, len);
            let prefix = s.substring_char(0, i);
            proof {
                assert(prefix@ =~= s@.take(i as int));
                lemma_last_index_of(prefix@, '-');
            }
            match rfind(prefix, '-') {
                None => Err(ParseError { input: s.to_owned() }),
                Some(j) => {
                    let name = substr(prefix, 0, j);
                    let version = substr(prefix, j + 1, i);
                    proof {
                        assert(name@ =~= s@.take(j as int));
                        assert(version@ =~= s@.subrange(j + 1, i as int));
                        assert(release@ =~= s@.skip(i + 1));
                    }
                    Ok(Nvr { name, version, release })
                },
            }
        },
    }
}

/// Parse a `name-[epoch:]version-release.arch` identifier.
pub fn parse_nevra(s: &str) -> (r: Result<Nevra, ParseError>)
    ensures
        match r {
            Ok(ne) => spec_parse_nevra(s@) == Some(ne.fields()),
            Err(e) => spec_parse_nevra(s@) is None && e.input@ == spec_nevra_err(s@),
        },
{
    proof {
        lemma_last_index_of(s@, '.');
    }
    let len = s.unicode_len();
    match rfind(s, '.') {
        None => Err(ParseError { input: s.to_owned() }),
        Some(d) => {
            let arch = substr(s, d + 1, len);
            let nevr = s.substring_char(0, d);
            proof {
                assert(nevr@ =~= s@.take(d as int));
                assert(arch@ =~= s@.skip(d + 1));
            }
            match parse_nvr(nevr) {
                Err(e) => Err(e),
                Ok(nvr) => {
                    let evlen = nvr.version.unicode_len();
                    proof {
                        lemma_first_index_of(nvr.version@, ':');
                    }
                    match find(nvr.version.as_str(), ':') {
                        None => {
                            proof {
                                reveal_strlit("0");
                                assert("0"@ =~= seq!['0']);
                            }
                            Ok(
                                Nevra {
                                    name: nvr.name,
                                    epoch: "0".to_owned(),
                                    version: nvr.version,
                                    release: nvr.release,
                                    arch,
                                },
                            )
                        },
                        Some(k) => {
                            let epoch = substr(nvr.version.as_str(), 0, k);
                            let version = substr(nvr.version.as_str(), k + 1, evlen);
                            proof {
                                assert(epoch@ =~= nvr.version@.take(k as int));
                                assert(version@ =~= nvr.version@.skip(k + 1));
                            }
                            Ok(
                                Nevra {
                                    name: nvr.name,
                                    epoch,
                                    version,
                                    release: nvr.release,
                                    arch,
                                },
                            )
                        },
                    }
                },
            }
        },
    }
}

/// Parse a package filename `name-[epoch:]version-release.arch.ext`.
pub fn parse_filename(s: &str) -> (r: Result<Nevra, ParseError>)
    ensures
        match r {
            Ok(ne) => spec_parse_filename(s@) == Some(ne.fields()),
            Err(e) => spec_parse_filename(s@) is None && e.input@ == spec_filename_err(s@),
        },
{
    proof {
        lemma_last_index_of(s@, '.');
    }
    match rfind(s, '.') {
        None => Err(ParseError { input: s.to_owned() }),
        Some(d) => {
            let rest = s.substring_char(0, d);
            proof {
                assert(rest@ =~= s@.take(d as int));
            }
            parse_nevra(rest)
        },
    }
}

} // verus!
