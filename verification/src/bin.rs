use vstd::prelude::*;

use crate::errors::NjError;

verus! {

/// The algorithms the command-line driver can run.
#[derive(Debug, Clone, PartialEq, Eq, Structural)]
pub enum Algorithm {
    Naive,
    RapidNJ,
    Hybrid,
}

/// The command-line arguments, as plain values. The executable front end
/// parses the real command line into this shape.
#[derive(Debug, Clone)]
pub struct Args {
    pub rapidnj: bool,
    pub naive: bool,
    pub hybrid: bool,
    pub cores: usize,
    pub chunk_size: usize,
    pub naive_percentage: usize,
}

/// The validated configuration of the program: the algorithm to run, the
/// number of worker threads, the pruned search's batch size, and the
/// percentage of merges handled canonically by the hybrid.
#[derive(Debug, Clone)]
pub struct Config {
    pub algo: Algorithm,
    pub threads: usize,
    pub chunk_size: usize,
    pub naive_percentage: usize,
}

impl Config {
    /// Build the configuration from the arguments: the canonical flag wins
    /// over the pruned one, the hybrid is the default; a zero chunk size
    /// and a canonical percentage of zero or one hundred are rejected.
    pub fn build(args: Args) -> (r: Result<Config, NjError>)
        ensures
            r is Ok <==> args.chunk_size != 0 && args.naive_percentage != 0
                && args.naive_percentage != 100,
            r matches Ok(c) ==> {
                &&& c.algo == (if args.naive {
                    Algorithm::Naive
                } else if args.rapidnj {
                    Algorithm::RapidNJ
                } else {
                    Algorithm::Hybrid
                })
                &&& c.threads == args.cores
                &&& c.chunk_size == args.chunk_size
                &&& c.naive_percentage == args.naive_percentage
            },
            r is Err ==> (r matches Err(NjError::ConfigInvalid(_))),
    {
        let algo = if args.naive {
            Algorithm::Naive
        } else if args.rapidnj {
            Algorithm::RapidNJ
        } else {
            Algorithm::Hybrid
        };
        let cores = args.cores;
        let chunk_size = args.chunk_size;
        if chunk_size == 0 {
            return Err(NjError::ConfigInvalid("chunk size cannot be zero".to_owned()));
        }
        let naive_percentage = args.naive_percentage;
        if naive_percentage == 0 {
            return Err(NjError::ConfigInvalid("the canonical percentage cannot be zero".to_owned()));
        }
        if naive_percentage == 100 {
            return Err(NjError::ConfigInvalid(
                "the canonical percentage cannot be one hundred".to_owned(),
            ));
        }
        Ok(Config { algo, threads: cores, chunk_size, naive_percentage })
    }
}

} // verus!
