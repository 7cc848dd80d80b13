//! Call arguments: the validated inputs of a run — privilege, crawl root,
//! filter pattern, worker count and literal pairs — and the checks that turn
//! raw argument values into them.

use vstd::prelude::*;

use crate::grammar::comma;
use crate::text::find_spec;

verus! {

/// A fatal configuration error, raised before any crawling starts.
#[derive(Debug, Clone, Copy, PartialEq, Eq, Structural)]
pub enum ConfigError {
    /// A format argument does not hold exactly one comma between the start
    /// and the end literal.
    InvalidFormat,
    /// The worker count is zero; the pool needs at least one worker.
    ZeroWorkers,
}

/// The privilege.
#[derive(Debug, Clone, Copy, PartialEq, Eq, Structural)]
pub enum Privilege {
    /// Normal privileges identify the normal scenario.
    Normal,
    /// Experimental privileges give access to unstable features.
    Experimental,
}

/// The (sub-)command representation for the call args.
#[derive(Debug)]
pub enum Command {
    /// Collect subcommand representation.
    Collect {
        /// The path from which to crawl.
        path: String,
        /// The (regex) filter on files in the (sub-)tree below incl. `path`.
        filter: String,
        /// The amount of worker(-thread)s.
        workers: usize,
        /// Tuples of start & end literals.
        literals: Vec<(String, String)>,
    },
}

/// Combined arguments struct for the invoked command incl. all necessary
/// information.
#[derive(Debug)]
pub struct CallArgs {
    /// The privilege with which the program was called.
    pub privilege: Privilege,
    /// The subcommand that was called incl. all arguments and parameters.
    pub command: Command,
}

impl CallArgs {
    /// The worker count these arguments carry.
    pub open spec fn workers_of(&self) -> usize {
        match self.command {
            Command::Collect { workers, .. } => workers,
        }
    }

    /// Validating the arguments: the worker pool must have at least one
    /// worker; every privilege is acceptable.
    pub fn validate(&self) -> (r: Result<(), ConfigError>)
        ensures
            r is Ok <==> self.workers_of() >= 1,
            r matches Err(e) ==> e == ConfigError::ZeroWorkers,
    {
        match self.privilege {
            Privilege::Normal => (),
            Privilege::Experimental => (),
        }
        match &self.command {
            Command::Collect { workers, .. } => {
                if *workers >= 1 {
                    Ok(())
                } else {
                    Err(ConfigError::ZeroWorkers)
                }
            },
        }
    }
}

/// How one format argument reads as a literal pair: the text before the
/// single comma is the start literal, the text after it the end literal;
/// an argument without a comma, or with more than one, is malformed.
pub open spec fn literal_of(s: Seq<char>) -> Option<(Seq<char>, Seq<char>)> {
    match find_spec(s, comma(), 0) {
        None => None,
        Some(j1) => if find_spec(s, comma(), j1 + 1) is Some {
            None
        } else {
            Some((s.take(j1), s.skip(j1 + 1)))
        },
    }
}

/// Every format argument of the list is well-formed.
pub open spec fn formats_valid(fs: Seq<Seq<char>>) -> bool {
    forall|i: int| 0 <= i < fs.len() ==> (#[trigger] literal_of(fs[i])) is Some
}

/// The literal pairs a list of well-formed format arguments describes.
pub open spec fn literals_of(fs: Seq<Seq<char>>) -> Seq<(Seq<char>, Seq<char>)> {
    fs.map_values(|f: Seq<char>| literal_of(f)->Some_0)
}

/// The type that parses the arguments to the program.
pub struct ClapArgumentLoader {}

impl ClapArgumentLoader {
    /// Splits one format argument into its literal pair, exactly as
    /// [`literal_of`] describes.
    pub fn parse_format(format: &str) -> (r: Result<(String, String), ConfigError>)
        ensures
            match r {
                Ok(p) => literal_of(format@) == Some((p.0@, p.1@)),
                Err(e) => literal_of(format@) is None && e == ConfigError::InvalidFormat,
            },
    {
        proof {
            reveal_strlit(",");
            assert(","@ =~= comma());
        }
        let n = format.unicode_len();
        let j1 = match crate::text::find_from(format, ",", 0) {
            Some(j1) => j1,
            None => {
                return Err(ConfigError::InvalidFormat);
            },
        };
        proof {
            crate::text::lemma_find_spec_sound(format@, comma(), 0);
        }
        if crate::text::find_from(format, ",", j1 + 1).is_some() {
            return Err(ConfigError::InvalidFormat);
        }
        let a = format.substring_char(0, j1);
        let b = format.substring_char(j1 + 1, n);
        proof {
            assert(a@ =~= format@.take(j1 as int));
            assert(b@ =~= format@.skip(j1 + 1 as int));
        }
        Ok((a.to_owned(), b.to_owned()))
    }

    /// Assembles the call arguments from the raw values the command line
    /// hands over: parses every format argument into a literal pair and
    /// validates the result. `Ok` exactly when every format argument is
    /// well-formed and the worker count is at least one.
    pub fn build(
        experimental: bool,
        path: String,
        filter: String,
        workers: usize,
        formats: &Vec<String>,
    ) -> (r: Result<CallArgs, ConfigError>)
        ensures
            ({
                let fvs = formats@.map_values(|f: String| f@);
                match r {
                    Ok(c) => {
                        &&& formats_valid(fvs)
                        &&& workers >= 1
                        &&& c.privilege == (if experimental {
                            Privilege::Experimental
                        } else {
                            Privilege::Normal
                        })
                        &&& match c.command {
                            Command::Collect {
                                path: p,
                                filter: f,
                                workers: w,
                                literals: l,
                            } => p@ == path@ && f@ == filter@ && w == workers
                                && crate::grammar::lit_views(l@) == literals_of(fvs),
                        }
                    },
                    Err(e) => (!formats_valid(fvs) && e == ConfigError::InvalidFormat) || (
                    formats_valid(fvs) && workers < 1 && e == ConfigError::ZeroWorkers),
                }
            }),
    {
        let ghost fvs = formats@.map_values(|f: String| f@);
        let mut literals: Vec<(String, String)> = Vec::new();
        let mut i: usize = 0;
        proof {
            assert(crate::grammar::lit_views(literals@) =~= literals_of(fvs).take(0));
        }
        while i < formats.len()
            invariant
                0 <= i <= formats@.len(),
                fvs == formats@.map_values(|f: String| f@),
                forall|k: int| 0 <= k < i ==> (#[trigger] literal_of(fvs[k])) is Some,
                crate::grammar::lit_views(literals@) == literals_of(fvs).take(i as int),
            decreases formats@.len() - i,
        {
            match Self::parse_format(formats[i].as_str()) {
                Ok(p) => {
                    let ghost prev = literals@;
                    literals.push(p);
                    proof {
                        assert(crate::grammar::lit_views(literals@) =~= crate::grammar::lit_views(
                            prev,
                        ).push((p.0@, p.1@)));
                        assert(literals_of(fvs).take(i + 1 as int) =~= literals_of(fvs).take(
                            i as int,
                        ).push(literal_of(fvs[i as int])->Some_0));
                    }
                },
                Err(e) => {
                    return Err(e);
                },
            }
            i += 1;
        }
        proof {
            assert(literals_of(fvs).take(formats@.len() as int) =~= literals_of(fvs));
        }
        let callargs = CallArgs {
            privilege: if experimental {
                Privilege::Experimental
            } else {
                Privilege::Normal
            },
            command: Command::Collect { path, filter, workers, literals },
        };
        match callargs.validate() {
            Ok(_) => Ok(callargs),
            Err(e) => Err(e),
        }
    }
}

} // verus!
