//! What a run is asked to do, and the check that it can be done.

use vstd::prelude::*;
use vstd::string::*;
use crate::coloring::COLOR_LETTERS;

verus! {

/// The parameters of one run.
#[derive(Debug)]
pub struct Args {
    /// Number of colors to use
    pub colors: u8,
    /// Target number you want a coloring for
    pub target: usize,
    /// Algorithm
    pub algorithm: String,
    /// Attempts
    pub attempts: usize,
}

/// The search strategies.
#[derive(Debug, Clone, Copy, PartialEq, Eq, Structural)]
pub enum Algorithm {
    /// A random fill, checked once.
    Random,
    /// A random fill that avoids blocked colors.
    RandomBan,
    /// A random fill that avoids blocked colors and backtracks.
    RandomDfs,
    /// Exhaustive search, depth first.
    SearchDfs,
    /// Exhaustive search, breadth first.
    SearchBfs,
    /// Simulated annealing.
    Sim,
}

/// Why a run cannot start.
#[derive(Debug, Clone, Copy, PartialEq, Eq, Structural)]
pub enum ConfigurationError {
    /// More colors are asked for than there are letters for them.
    TooManyColors,
    /// No strategy has the name given.
    UnknownAlgorithm,
}

/// The strategy that goes by `name`, if there is one.
pub open spec fn algorithm_named(name: Seq<char>) -> Option<Algorithm> {
    if name == "random"@ {
        Some(Algorithm::Random)
    } else if name == "random_ban"@ {
        Some(Algorithm::RandomBan)
    } else if name == "random_dfs"@ {
        Some(Algorithm::RandomDfs)
    } else if name == "search_dfs"@ {
        Some(Algorithm::SearchDfs)
    } else if name == "search_bfs"@ {
        Some(Algorithm::SearchBfs)
    } else if name == "sim"@ {
        Some(Algorithm::Sim)
    } else {
        None
    }
}

/// What `configure` makes of the parameters: too many colors are refused
/// first, then a name that no strategy has.
pub open spec fn configured(colors: u8, name: Seq<char>) -> Result<Algorithm, ConfigurationError> {
    if colors > COLOR_LETTERS@.len() {
        Err(ConfigurationError::TooManyColors)
    } else {
        match algorithm_named(name) {
            Some(algorithm) => Ok(algorithm),
            None => Err(ConfigurationError::UnknownAlgorithm),
        }
    }
}

impl Algorithm {
    /// Looks a strategy up by its name.
    pub fn from_name(name: &String) -> (algorithm: Option<Algorithm>)
        ensures
            algorithm == algorithm_named(name@),
    {
        if *name == String::from_str("random") {
            Some(Algorithm::Random)
        } else if *name == String::from_str("random_ban") {
            Some(Algorithm::RandomBan)
        } else if *name == String::from_str("random_dfs") {
            Some(Algorithm::RandomDfs)
        } else if *name == String::from_str("search_dfs") {
            Some(Algorithm::SearchDfs)
        } else if *name == String::from_str("search_bfs") {
            Some(Algorithm::SearchBfs)
        } else if *name == String::from_str("sim") {
            Some(Algorithm::Sim)
        } else {
            None
        }
    }

    /// Every strategy, once.
    pub fn all() -> (list: Vec<Algorithm>)
        ensures
            list@ == seq![
                Algorithm::Random,
                Algorithm::RandomBan,
                Algorithm::RandomDfs,
                Algorithm::SearchDfs,
                Algorithm::SearchBfs,
                Algorithm::Sim,
            ],
    {
        let mut list: Vec<Algorithm> = Vec::new();
        list.push(Algorithm::Random);
        list.push(Algorithm::RandomBan);
        list.push(Algorithm::RandomDfs);
        list.push(Algorithm::SearchDfs);
        list.push(Algorithm::SearchBfs);
        list.push(Algorithm::Sim);
        assert(list@ =~= seq![
            Algorithm::Random,
            Algorithm::RandomBan,
            Algorithm::RandomDfs,
            Algorithm::SearchDfs,
            Algorithm::SearchBfs,
            Algorithm::Sim,
        ]);
        list
    }

    /// The name that the strategy goes by.
    pub fn name(&self) -> (name: &'static str)
        ensures
            algorithm_named(name@) == Some(*self),
    {
        proof {
            reveal_strlit("random");
            reveal_strlit("random_ban");
            reveal_strlit("random_dfs");
            reveal_strlit("search_dfs");
            reveal_strlit("search_bfs");
            reveal_strlit("sim");
            assert("random"@.len() == 6 && "sim"@.len() == 3);
            assert("random_ban"@.len() == 10 && "random_dfs"@.len() == 10);
            assert("search_dfs"@.len() == 10 && "search_bfs"@.len() == 10);
            assert("random_ban"@[0] == 'r' && "random_ban"@[7] == 'b');
            assert("random_dfs"@[0] == 'r' && "random_dfs"@[7] == 'd');
            assert("search_dfs"@[0] == 's' && "search_dfs"@[7] == 'd');
            assert("search_bfs"@[0] == 's' && "search_bfs"@[7] == 'b');
        }
        match self {
            Algorithm::Random => "random",
            Algorithm::RandomBan => "random_ban",
            Algorithm::RandomDfs => "random_dfs",
            Algorithm::SearchDfs => "search_dfs",
            Algorithm::SearchBfs => "search_bfs",
            Algorithm::Sim => "sim",
        }
    }
}

impl Args {
    /// Checks the parameters before any search begins, and finds the
    /// strategy to run.
    pub fn configure(&self) -> (outcome: Result<Algorithm, ConfigurationError>)
        ensures
            outcome == configured(self.colors, self.algorithm@),
    {
        if self.colors as usize > COLOR_LETTERS.unicode_len() {
            return Err(ConfigurationError::TooManyColors);
        }
        match Algorithm::from_name(&self.algorithm) {
            Some(algorithm) => Ok(algorithm),
            None => Err(ConfigurationError::UnknownAlgorithm),
        }
    }
}

} // verus!
