use crate::error::RboError;
use vstd::prelude::*;

verus! {

/// How deep a comparison may go: an optional cap on the number of ranks that
/// are compared. A cap, where there is one, is at least one rank.
#[derive(Clone, Copy, Debug)]
pub struct Config {
    search_depth: Option<usize>,
}

impl Config {
    #[verifier::type_invariant]
    spec fn positive_cap(&self) -> bool {
        self.search_depth != Some(0usize)
    }

    /// The cap on the comparison depth; `None` where the depth is left to the
    /// rankings.
    pub closed spec fn depth_cap(&self) -> Option<usize> {
        self.search_depth
    }

    /// A configuration with the given cap. A cap of zero ranks is refused: it
    /// would leave nothing to compare.
    pub fn new(search_depth: Option<usize>) -> (made: Result<Config, RboError>)
        ensures
            made is Ok <==> search_depth != Some(0usize),
            made is Ok ==> made->Ok_0.depth_cap() == search_depth,
            made is Err ==> made->Err_0 == RboError::InvalidParameter,
    {
        match search_depth {
            Some(0) => Err(RboError::InvalidParameter),
            _ => Ok(Config { search_depth }),
        }
    }

    /// A configuration from a plain depth in which zero stands for "no cap",
    /// for callers that cannot pass an optional number.
    pub fn from_depth(search_depth: usize) -> (made: Config)
        ensures
            made.depth_cap() == if search_depth == 0 {
                None
            } else {
                Some(search_depth)
            },
    {
        if search_depth == 0 {
            Config { search_depth: None }
        } else {
            Config { search_depth: Some(search_depth) }
        }
    }

    /// The cap on the comparison depth, which is never zero.
    pub fn search_depth(&self) -> (cap: Option<usize>)
        ensures
            cap == self.depth_cap(),
            cap != Some(0usize),
    {
        proof {
            use_type_invariant(self);
        }
        self.search_depth
    }
}

} // verus!
