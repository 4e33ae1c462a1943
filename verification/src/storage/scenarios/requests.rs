//! Round trips and bytes.
//!
//! The archive's counts are observed: a reader really made those requests. The
//! tree's are declared, from the model of one whole object per tile. The two
//! must never look alike, so every row says where its numbers come from.

use crate::storage::scenarios::counting::{bytes_of, total_bytes, Request};
use crate::storage::cells::Backend;
use crate::storage::plan::TileCoord;
use crate::storage::scenarios::facts::{
    digest_in, fact_of, skip_view, Direction, Fact, InfoModel, Invariants, Isolation, MetricSpec,
    RepKind, RowOutcome, ScenarioInfo, Skip, Unit,
};
use crate::storage::scenarios::Origin;
use vstd::prelude::*;

verus! {

/// What one operation cost in round trips and bytes, and where those numbers
/// came from.
#[derive(Debug, Clone, Copy)]
pub struct OperationCount {
    pub operation: &'static str,
    pub requests: u64,
    pub bytes: u64,
    pub origin: Origin,
}

/// An [`OperationCount`], with its name as text.
pub struct CountModel {
    pub operation: Seq<char>,
    pub requests: nat,
    pub bytes: nat,
    pub origin: Origin,
}

impl View for OperationCount {
    type V = CountModel;

    open spec fn view(&self) -> CountModel {
        CountModel {
            operation: self.operation@,
            requests: self.requests as nat,
            bytes: self.bytes as nat,
            origin: self.origin,
        }
    }
}

/// A list of counts.
pub open spec fn count_models(v: Seq<OperationCount>) -> Seq<CountModel> {
    Seq::new(v.len(), |i: int| v[i]@)
}

/// The count of an operation that made these requests.
pub open spec fn observed_count(operation: Seq<char>, requests: Seq<Request>) -> CountModel {
    CountModel {
        operation,
        requests: requests.len(),
        bytes: bytes_of(requests, requests.len() as int),
        origin: Origin::Observed,
    }
}

/// Whether the bytes of some requests can be counted in 64 bits.
pub open spec fn countable(requests: Seq<Request>) -> bool {
    bytes_of(requests, requests.len() as int) <= u64::MAX
}

/// The count of an operation that made these requests.
fn count(operation: &'static str, requests: &Vec<Request>) -> (out: OperationCount)
    requires
        countable(requests@),
    ensures
        out@ == observed_count(operation@, requests@),
{
    OperationCount {
        operation,
        requests: requests.len() as u64,
        bytes: total_bytes(requests.as_slice()),
        origin: Origin::Observed,
    }
}

/// The requests that each operation on an archive made. A root-only archive
/// performs no leaf lookup, which is not the same as a free one.
#[derive(Debug)]
pub struct ArchiveRequests {
    pub open: Vec<Request>,
    pub root_lookup: Vec<Request>,
    /// A leaf lookup by a cold reader and one by a warm one.
    pub leaf_lookups: Option<(Vec<Request>, Vec<Request>)>,
    pub random_walk: Vec<Request>,
}

/// The counts of an archive's operations.
pub open spec fn archive_counts(r: ArchiveRequests) -> Seq<CountModel> {
    seq![observed_count("open"@, r.open@), observed_count("root_lookup"@, r.root_lookup@)] + (
    match r.leaf_lookups {
        Some((cold, warm)) => seq![
            observed_count("leaf_lookup_cold"@, cold@),
            observed_count("leaf_lookup_warm"@, warm@),
        ],
        None => Seq::empty(),
    }) + seq![observed_count("random_walk"@, r.random_walk@)]
}

/// Whether the bytes of every operation can be counted in 64 bits.
pub open spec fn all_countable(r: ArchiveRequests) -> bool {
    countable(r.open@) && countable(r.root_lookup@) && countable(r.random_walk@) && (
    r.leaf_lookups matches Some(l) ==> countable(l.0@) && countable(l.1@))
}

/// Count what the archive really asked for, operation by operation.
pub fn pmtiles(r: &ArchiveRequests) -> (out: Vec<OperationCount>)
    requires
        all_countable(*r),
    ensures
        count_models(out@) == archive_counts(*r),
{
    let mut out: Vec<OperationCount> = Vec::new();
    out.push(count("open", &r.open));
    out.push(count("root_lookup", &r.root_lookup));
    match &r.leaf_lookups {
        Some(l) => {
            out.push(count("leaf_lookup_cold", &l.0));
            out.push(count("leaf_lookup_warm", &l.1));
        },
        None => {},
    }
    out.push(count("random_walk", &r.random_walk));
    assert(count_models(out@) =~= archive_counts(*r));
    out
}

/// The count of an operation that reads whole objects.
pub open spec fn declared_count(operation: Seq<char>, tiles: nat, bytes_per_tile: nat) -> CountModel {
    CountModel {
        operation,
        requests: tiles,
        bytes: tiles * bytes_per_tile,
        origin: Origin::Declared,
    }
}

/// The shorter of a walk and an archive.
pub open spec fn walked_tiles(tiles_in_archive: u64, walk_length: u64) -> nat {
    if walk_length <= tiles_in_archive {
        walk_length as nat
    } else {
        tiles_in_archive as nat
    }
}

/// The declared counts of a tree: opening it reads nothing, and every lookup
/// reads one whole object.
pub open spec fn tree_counts(
    tiles_in_archive: u64,
    bytes_per_tile: u64,
    walk_length: u64,
    has_leaves: bool,
) -> Seq<CountModel> {
    let per_tile = bytes_per_tile as nat;
    seq![
        CountModel { operation: "open"@, requests: 0, bytes: 0, origin: Origin::Declared },
        declared_count("root_lookup"@, 1, per_tile),
    ] + (if has_leaves {
        seq![
            declared_count("leaf_lookup_cold"@, 1, per_tile),
            declared_count("leaf_lookup_warm"@, 1, per_tile),
        ]
    } else {
        Seq::empty()
    }) + seq![
        declared_count("random_walk"@, walked_tiles(tiles_in_archive, walk_length), per_tile),
    ]
}

/// What the tree costs, from the model rather than from a counter.
pub fn directory(
    tiles_in_archive: u64,
    bytes_per_tile: u64,
    walk_length: u64,
    has_leaves: bool,
) -> (out: Vec<OperationCount>)
    requires
        walked_tiles(tiles_in_archive, walk_length) * bytes_per_tile as nat <= u64::MAX,
    ensures
        count_models(out@) == tree_counts(
            tiles_in_archive,
            bytes_per_tile,
            walk_length,
            has_leaves,
        ),
{
    let mut out: Vec<OperationCount> = Vec::new();
    out.push(
        OperationCount { operation: "open", requests: 0, bytes: 0, origin: Origin::Declared },
    );
    out.push(
        OperationCount {
            operation: "root_lookup",
            requests: 1,
            bytes: bytes_per_tile,
            origin: Origin::Declared,
        },
    );
    if has_leaves {
        out.push(
            OperationCount {
                operation: "leaf_lookup_cold",
                requests: 1,
                bytes: bytes_per_tile,
                origin: Origin::Declared,
            },
        );
        out.push(
            OperationCount {
                operation: "leaf_lookup_warm",
                requests: 1,
                bytes: bytes_per_tile,
                origin: Origin::Declared,
            },
        );
    }
    let walked: u64 = if walk_length <= tiles_in_archive {
        walk_length
    } else {
        tiles_in_archive
    };
    out.push(
        OperationCount {
            operation: "random_walk",
            requests: walked,
            bytes: walked * bytes_per_tile,
            origin: Origin::Declared,
        },
    );
    assert(count_models(out@) =~= tree_counts(
        tiles_in_archive,
        bytes_per_tile,
        walk_length,
        has_leaves,
    ));
    out
}

/// Whether every row of a set was observed.
pub fn all_observed(counts: &[OperationCount]) -> (yes: bool)
    ensures
        yes == (forall|i: int|
            0 <= i < counts@.len() ==> (#[trigger] counts@[i]).origin == Origin::Observed),
{
    let mut i: usize = 0;
    while i < counts.len()
        invariant
            i <= counts@.len(),
            forall|k: int| 0 <= k < i ==> (#[trigger] counts@[k]).origin == Origin::Observed,
        decreases counts@.len() - i,
    {
        if counts[i].origin != Origin::Observed {
            return false;
        }
        i = i + 1;
    }
    true
}

/// Whether every row of a set was declared.
pub fn all_declared(counts: &[OperationCount]) -> (yes: bool)
    ensures
        yes == (forall|i: int|
            0 <= i < counts@.len() ==> (#[trigger] counts@[i]).origin == Origin::Declared),
{
    let mut i: usize = 0;
    while i < counts.len()
        invariant
            i <= counts@.len(),
            forall|k: int| 0 <= k < i ==> (#[trigger] counts@[k]).origin == Origin::Declared,
        decreases counts@.len() - i,
    {
        if counts[i].origin != Origin::Declared {
            return false;
        }
        i = i + 1;
    }
    true
}

/// An archive's counts are all observed and a tree's are all declared, so no
/// row of the one can pass for a row of the other.
pub proof fn law_origins_never_mix(
    r: ArchiveRequests,
    tiles: u64,
    per_tile: u64,
    walk: u64,
    leaves: bool,
    i: int,
)
    ensures
        0 <= i < archive_counts(r).len() ==> archive_counts(r)[i].origin == Origin::Observed,
        0 <= i < tree_counts(tiles, per_tile, walk, leaves).len() ==> tree_counts(
            tiles,
            per_tile,
            walk,
            leaves,
        )[i].origin == Origin::Declared,
{
}

/// The requests of the first `n` rows.
pub open spec fn requests_in(counts: Seq<CountModel>, n: int) -> nat
    decreases n,
{
    if n <= 0 {
        0
    } else {
        requests_in(counts, n - 1) + counts[n - 1].requests
    }
}

/// The bytes of the first `n` rows.
pub open spec fn bytes_in(counts: Seq<CountModel>, n: int) -> nat
    decreases n,
{
    if n <= 0 {
        0
    } else {
        bytes_in(counts, n - 1) + counts[n - 1].bytes
    }
}

/// More rows have no fewer requests and no fewer bytes.
proof fn lemma_totals_grow(counts: Seq<CountModel>, m: int, n: int)
    requires
        m <= n,
    ensures
        requests_in(counts, m) <= requests_in(counts, n),
        bytes_in(counts, m) <= bytes_in(counts, n),
    decreases n - m,
{
    if m < n {
        lemma_totals_grow(counts, m, n - 1);
    }
}

/// The requests and the bytes of all rows, as the invariants of the one
/// repetition that the counting takes.
pub fn total_invariants(counts: &Vec<OperationCount>) -> (out: Invariants)
    requires
        requests_in(count_models(counts@), counts@.len() as int) <= u64::MAX,
        bytes_in(count_models(counts@), counts@.len() as int) <= u64::MAX,
    ensures
        out.requests is Some,
        out.requests->0 == requests_in(count_models(counts@), counts@.len() as int),
        out.request_bytes is Some,
        out.request_bytes->0 == bytes_in(count_models(counts@), counts@.len() as int),
        forall|f: Fact|
            f != Fact::Requests && f != Fact::RequestBytes ==> #[trigger] fact_of(out, f) is None,
        digest_in(out) is None,
{
    let ghost model = count_models(counts@);
    let mut requests: u64 = 0;
    let mut bytes: u64 = 0;
    let mut i: usize = 0;
    while i < counts.len()
        invariant
            i <= counts@.len(),
            model == count_models(counts@),
            requests == requests_in(model, i as int),
            bytes == bytes_in(model, i as int),
            requests_in(model, counts@.len() as int) <= u64::MAX,
            bytes_in(model, counts@.len() as int) <= u64::MAX,
        decreases counts@.len() - i,
    {
        proof {
            lemma_totals_grow(model, i + 1, counts@.len() as int);
            assert(model[i as int] == counts@[i as int]@);
        }
        requests = requests + counts[i].requests;
        bytes = bytes + counts[i].bytes;
        i = i + 1;
    }
    let mut out = Invariants::default();
    let ghost blank = out;
    assert(fact_of(blank, Fact::OutputBytes) is None && fact_of(blank, Fact::AllocatedBytes) is None
        && fact_of(blank, Fact::FilesystemEntries) is None && fact_of(blank, Fact::Directories)
        is None && fact_of(blank, Fact::TilesProduced) is None && fact_of(blank, Fact::RootEntries)
        is None && fact_of(blank, Fact::Leaves) is None);
    out.requests = Some(requests);
    out.request_bytes = Some(bytes);
    out
}

/// Mean stored bytes a tile occupies in a tree, from the sizes of its files;
/// none where there are no tiles or the tree could not be walked.
pub fn mean_tile_bytes(total_bytes: Option<u64>, tiles: u64) -> (mean: Option<u64>)
    ensures
        mean == (if tiles == 0 {
            None
        } else {
            match total_bytes {
                Some(total) => Some((total / tiles) as u64),
                None => None,
            }
        }),
{
    if tiles == 0 {
        return None;
    }
    match total_bytes {
        Some(total) => Some(total / tiles),
        None => None,
    }
}

/// `requests`: round trips and bytes, counted on the archive and declared on the
/// tree.
#[derive(Debug, Clone, Copy)]
pub struct Requests;

/// What `requests` declares: it does not vary, so one repetition is the whole
/// measurement.
pub open spec fn requests_model() -> InfoModel {
    InfoModel {
        name: "requests"@,
        metric: "requests"@,
        unit: Unit::Count,
        direction: Direction::LowerIsBetter,
        isolation: Isolation::ProcessPerScenario,
        warmup: None,
        rep_kind: RepKind::Once,
        needs_artefact: true,
        threads: 1,
    }
}

impl Requests {
    /// What the scenario declares.
    pub fn info(&self) -> (info: ScenarioInfo)
        ensures
            info@ == requests_model(),
    {
        ScenarioInfo {
            name: "requests".to_owned(),
            primary: MetricSpec {
                name: "requests",
                unit: Unit::Count,
                direction: Direction::LowerIsBetter,
            },
            isolation: Isolation::ProcessPerScenario,
            warmup: None,
            rep_kind: RepKind::Once,
            needs_artefact: true,
            threads: 1,
        }
    }
}


/// What the counting came to, and the names it is published under: an archive's
/// counts and a tree's have different ones, so that the one cannot be plotted as
/// the other.
#[derive(Debug)]
pub struct RequestTotals {
    pub requests_metric: MetricSpec,
    pub bytes_metric: MetricSpec,
    pub invariants: Invariants,
}

/// Why the counting came to nothing, if it did.
pub open spec fn counting_skip(
    backend: Backend,
    root_addressed: Option<TileCoord>,
    archive: Option<Result<ArchiveRequests, String>>,
) -> Option<(RowOutcome, Seq<char>)> {
    if root_addressed is None {
        Some((RowOutcome::Skipped, "the cell has no root-addressed coordinate"@))
    } else if backend == Backend::Directory {
        None
    } else {
        match archive {
            None => Some((RowOutcome::Failed, "no archive to count"@)),
            Some(Err(e)) => Some((RowOutcome::Failed, e@)),
            Some(Ok(_)) => None,
        }
    }
}

/// What a declared walk of a tree comes to.
#[derive(Debug, Clone, Copy)]
pub struct DeclaredWalk {
    pub tiles: u64,
    /// The sizes of the tree's files, where it could be walked.
    pub total_bytes: Option<u64>,
    pub walk_length: u64,
    pub has_leaves: bool,
}

/// The bytes that one tile of a tree is declared to be.
pub open spec fn bytes_per_tile(d: DeclaredWalk) -> u64 {
    match d.total_bytes {
        Some(total) => if d.tiles == 0 {
            0
        } else {
            (total / d.tiles) as u64
        },
        None => 0,
    }
}

/// The rows that a backend is counted by.
pub open spec fn rows_of(
    backend: Backend,
    archive: Option<Result<ArchiveRequests, String>>,
    tree: DeclaredWalk,
) -> Seq<CountModel> {
    match backend {
        Backend::PmTiles => archive_counts(archive->0->Ok_0),
        Backend::Directory => tree_counts(
            tree.tiles,
            bytes_per_tile(tree),
            tree.walk_length,
            tree.has_leaves,
        ),
    }
}

/// Whether rows can be added up in 64 bits.
pub open spec fn addable(rows: Seq<CountModel>) -> bool {
    requests_in(rows, rows.len() as int) <= u64::MAX && bytes_in(rows, rows.len() as int)
        <= u64::MAX
}

impl Requests {
    /// What the counting comes to on a backend: observed on an archive, declared
    /// on a tree.
    pub fn run(
        &self,
        backend: Backend,
        root_addressed: Option<TileCoord>,
        archive: &Option<Result<ArchiveRequests, String>>,
        tree: DeclaredWalk,
    ) -> (got: Result<RequestTotals, Skip>)
        requires
            backend == Backend::PmTiles ==> (*archive matches Some(Ok(r)) ==> all_countable(r)),
            backend == Backend::Directory ==> walked_tiles(tree.tiles, tree.walk_length)
                * bytes_per_tile(tree) as nat <= u64::MAX,
            counting_skip(backend, root_addressed, *archive) is None ==> addable(
                rows_of(backend, *archive, tree),
            ),
        ensures
            ({
                let skip = counting_skip(backend, root_addressed, *archive);
                &&& got is Ok <==> skip is None
                &&& got is Err ==> skip_view(got->Err_0) == skip->0
            }),
            got is Ok ==> ({
                let rows = rows_of(backend, *archive, tree);
                let totals = got->Ok_0;
                &&& totals.requests_metric.name@ == (if backend == Backend::PmTiles {
                    "requests"@
                } else {
                    "requests_declared"@
                })
                &&& totals.bytes_metric.name@ == (if backend == Backend::PmTiles {
                    "request_bytes"@
                } else {
                    "request_bytes_declared"@
                })
                &&& totals.requests_metric.unit == Unit::Count
                &&& totals.bytes_metric.unit == Unit::Bytes
                &&& totals.requests_metric.direction == Direction::LowerIsBetter
                &&& totals.bytes_metric.direction == Direction::LowerIsBetter
                &&& totals.invariants.requests == Some(
                    requests_in(rows, rows.len() as int) as u64,
                )
                &&& totals.invariants.request_bytes == Some(
                    bytes_in(rows, rows.len() as int) as u64,
                )
                &&& forall|f: Fact|
                    f != Fact::Requests && f != Fact::RequestBytes ==> #[trigger] fact_of(
                        totals.invariants,
                        f,
                    ) is None
                &&& digest_in(totals.invariants) is None
            }),
    {
        if root_addressed.is_none() {
            return Err(Skip::skipped("the cell has no root-addressed coordinate".to_owned()));
        }
        let counts: Vec<OperationCount> = match backend {
            Backend::PmTiles => match archive {
                None => {
                    return Err(Skip::failed("no archive to count".to_owned()));
                },
                Some(Err(e)) => {
                    return Err(Skip::failed(e.clone()));
                },
                Some(Ok(r)) => pmtiles(r),
            },
            Backend::Directory => {
                let per_tile: u64 = match mean_tile_bytes(tree.total_bytes, tree.tiles) {
                    Some(mean) => mean,
                    None => 0,
                };
                directory(tree.tiles, per_tile, tree.walk_length, tree.has_leaves)
            },
        };
        assert(count_models(counts@).len() == counts@.len());
        let (requests, bytes): (&'static str, &'static str) = match backend {
            Backend::PmTiles => ("requests", "request_bytes"),
            Backend::Directory => ("requests_declared", "request_bytes_declared"),
        };
        Ok(
            RequestTotals {
                requests_metric: MetricSpec {
                    name: requests,
                    unit: Unit::Count,
                    direction: Direction::LowerIsBetter,
                },
                bytes_metric: MetricSpec {
                    name: bytes,
                    unit: Unit::Bytes,
                    direction: Direction::LowerIsBetter,
                },
                invariants: total_invariants(&counts),
            },
        )
    }
}

} // verus!
