use vstd::prelude::*;

use crate::errors::NjError;
use crate::Algorithm;

verus! {

/// The command-line arguments of the newer front end; the same plain shape
/// as the older one, parsed by the executable wrapper.
#[derive(Debug, Clone)]
pub struct Args {
    pub rapidnj: bool,
    pub naive: bool,
    pub hybrid: bool,
    pub cores: usize,
    pub chunk_size: usize,
    pub naive_percentage: usize,
}

/// The validated configuration of the newer front end.
#[derive(Debug, Clone)]
pub struct Config {
    pub algo: Algorithm,
    pub threads: usize,
    pub chunk_size: usize,
    pub naive_percentage: usize,
}

impl Config {
    /// Build the configuration from the arguments, with the same selection
    /// and rejection rules as the older front end.
    pub fn build(args: Args) -> (r: Result<Config, NjError>)
        ensures
            r is Ok <==> args.chunk_size != 0 && args.naive_percentage != 0
                && args.naive_percentage != 100,
            r matches Ok(c) ==> {
                &&& c.algo == (if args.naive {
                    Algorithm::Naive
                } else if args.rapidnj {
                    Algorithm::RapidNJ
                } else {
                    Algorithm::Hybrid
                })
                &&& c.threads == args.cores
                &&& c.chunk_size == args.chunk_size
                &&& c.naive_percentage == args.naive_percentage
            },
            r is Err ==> (r matches Err(NjError::ConfigInvalid(_))),
    {
        let algo = if args.naive {
            Algorithm::Naive
        } else if args.rapidnj {
            Algorithm::RapidNJ
        } else {
            Algorithm::Hybrid
        };
        let cores = args.cores;
        let chunk_size = args.chunk_size;
        if chunk_size == 0 {
            return Err(NjError::ConfigInvalid("chunk size cannot be zero".to_owned()));
        }
        let naive_percentage = args.naive_percentage;
        if naive_percentage == 0 {
            return Err(NjError::ConfigInvalid("the canonical percentage cannot be zero".to_owned()));
        }
        if naive_percentage == 100 {
            return Err(NjError::ConfigInvalid(
                "the canonical percentage cannot be one hundred".to_owned(),
            ));
        }
        Ok(Config { algo, threads: cores, chunk_size, naive_percentage })
    }
}

} // verus!
