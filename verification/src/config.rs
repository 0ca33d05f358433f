//! Run configuration.
//!
//! The recognized options of a run: the distance metric, the dataset to
//! load, how the index is built, and the knobs forwarded to the query
//! side. Everything here is plain data with explicit defaults; parsing a
//! metric or dataset name accepts exactly the recognized spellings.

use vstd::prelude::*;
use vstd::string::StrSliceExecFns;

verus! {

/// Character-wise string comparison.
fn str_eq_exec(a: &str, b: &str) -> (r: bool)
    ensures
        r == (a@ == b@),
{
    let an = a.unicode_len();
    let bn = b.unicode_len();
    if an != bn {
        return false;
    }
    let mut i: usize = 0;
    while i < an
        invariant
            i <= an,
            an == a@.len(),
            an == b@.len(),
            forall|j: int| 0 <= j < i ==> a@[j] == b@[j],
        decreases an - i,
    {
        if a.get_char(i) != b.get_char(i) {
            return false;
        }
        i += 1;
    }
    proof {
        assert(a@ =~= b@);
    }
    true
}

/// Which distance oracle a run compares vectors with.
#[derive(Clone, Copy, Debug, PartialEq, Eq, Structural)]
pub enum DistanceType {
    Cosine,
    Euclidean,
    Manhattan,
}

impl Default for DistanceType {
    /// Euclidean distance, unless configured otherwise.
    fn default() -> (r: Self)
        ensures
            r == DistanceType::Euclidean,
    {
        DistanceType::Euclidean
    }
}

impl DistanceType {
    /// Parse a metric name; exactly "cosine", "euclidean" and "manhattan"
    /// are recognized.
    pub fn parse(s: &str) -> (r: Result<DistanceType, &'static str>)
        ensures
            match r {
                Ok(d) => (s@ == "cosine"@ && d == DistanceType::Cosine) || (s@ == "euclidean"@
                    && d == DistanceType::Euclidean) || (s@ == "manhattan"@ && d
                    == DistanceType::Manhattan),
                Err(e) => s@ != "cosine"@ && s@ != "euclidean"@ && s@ != "manhattan"@ && e@
                    == "not a valid distance"@,
            },
    {
        if str_eq_exec(s, "cosine") {
            Ok(DistanceType::Cosine)
        } else if str_eq_exec(s, "euclidean") {
            Ok(DistanceType::Euclidean)
        } else if str_eq_exec(s, "manhattan") {
            Ok(DistanceType::Manhattan)
        } else {
            Err("not a valid distance")
        }
    }
}

impl core::str::FromStr for DistanceType {
    type Err = &'static str;

    fn from_str(s: &str) -> Result<Self, Self::Err> {
        DistanceType::parse(s)
    }
}

/// Which dataset a run evaluates against.
#[derive(Clone, Copy, Debug, PartialEq, Eq, Structural)]
pub enum TestDataset {
    Movies,
    Random,
}

impl Default for TestDataset {
    /// The synthetic random dataset, unless configured otherwise.
    fn default() -> (r: Self)
        ensures
            r == TestDataset::Random,
    {
        TestDataset::Random
    }
}

impl TestDataset {
    /// Parse a dataset name; exactly "movies" and "random" are
    /// recognized.
    pub fn parse(s: &str) -> (r: Result<TestDataset, &'static str>)
        ensures
            match r {
                Ok(d) => (s@ == "movies"@ && d == TestDataset::Movies) || (s@ == "random"@ && d
                    == TestDataset::Random),
                Err(e) => s@ != "movies"@ && s@ != "random"@ && e@ == "dataset does not exist"@,
            },
    {
        if str_eq_exec(s, "movies") {
            Ok(TestDataset::Movies)
        } else if str_eq_exec(s, "random") {
            Ok(TestDataset::Random)
        } else {
            Err("dataset does not exist")
        }
    }
}

impl core::str::FromStr for TestDataset {
    type Err = &'static str;

    fn from_str(s: &str) -> Result<Self, Self::Err> {
        TestDataset::parse(s)
    }
}

/// One GiB, the default size of the index's on-disk map.
pub const DEFAULT_MAP_SIZE: usize = 1024 * 1024 * 1024;

/// How the index is built before a run measures it.
#[derive(Clone, Debug)]
pub struct BuildArgs {
    /// The dataset to evaluate against.
    pub dataset: TestDataset,
    /// Where the index's database directory lives.
    pub temp_dir: String,
    /// The size of the on-disk map backing the database.
    pub map_size: usize,
    /// The dimensionality every stored vector must have.
    pub dimensions: usize,
    /// Reduce memory usage by write-mapping the database.
    pub write_map: bool,
    /// Insert items one by one instead of appending in bulk.
    pub no_append: bool,
    /// How many internal trees to build, if fixed.
    pub n_trees: Option<usize>,
    /// How many vectors to read in, if not the default.
    pub n_vecs: Option<usize>,
    /// The seed the index build derives its randomness from.
    pub seed: u64,
}

impl Default for BuildArgs {
    fn default() -> (r: Self)
        ensures
            r.dataset == TestDataset::Random,
            r.temp_dir@ == "assets/import.ary"@,
            r.map_size == DEFAULT_MAP_SIZE,
            r.dimensions == 768,
            !r.write_map,
            r.no_append,
            r.n_trees is None,
            r.n_vecs is None,
            r.seed == 42,
    {
        BuildArgs {
            dataset: TestDataset::Random,
            temp_dir: "assets/import.ary".to_owned(),
            map_size: DEFAULT_MAP_SIZE,
            dimensions: 768,
            write_map: false,
            no_append: true,
            n_trees: None,
            n_vecs: None,
            seed: 42,
        }
    }
}

/// The query-side knobs of a run.
#[derive(Clone, Copy, Debug, PartialEq, Eq, Structural)]
pub struct RunArgs {
    /// Search effort forwarded opaquely to the index; more effort, higher
    /// recall, higher latency.
    pub search_k: Option<usize>,
    /// How many trials to run.
    pub n_samples: Option<u64>,
}

impl Default for RunArgs {
    fn default() -> (r: Self)
        ensures
            r.search_k is None,
            r.n_samples is None,
    {
        RunArgs { search_k: None, n_samples: None }
    }
}

/// Everything a run is configured by.
#[derive(Clone, Debug)]
pub struct Args {
    /// How to build the index under evaluation.
    pub build_args: BuildArgs,
    /// Which distance oracle to use.
    pub distance: DistanceType,
    /// The query-side knobs.
    pub run_args: RunArgs,
}

impl Default for Args {
    fn default() -> (r: Self)
        ensures
            r.distance == DistanceType::Euclidean,
    {
        Args {
            build_args: Default::default(),
            distance: DistanceType::Euclidean,
            run_args: Default::default(),
        }
    }
}

} // verus!
