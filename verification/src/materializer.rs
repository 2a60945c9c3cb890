//! Debugging commands of the deferred materializer: what a listing of its tree
//! shows, and how the requests to it are checked before they are sent.

use vstd::prelude::*;
use vstd::string::StringExecFns;
use crate::chars::{decimal_text, push_decimal_text};

verus! {

/// How far an artifact has come: it was declared, with the method by which it will
/// be materialized, or it is on disk and was last used at a time, given in seconds
/// since the epoch and nanoseconds into that second.
#[derive(Clone, Debug, PartialEq, Eq)]
pub enum ArtifactMaterializationStage {
    Declared { method: String },
    Materialized { last_access_secs: i64, last_access_nanos: u32 },
}

/// One artifact of the tree: its path and how far it has come.
#[derive(Clone, Debug, PartialEq, Eq)]
pub struct TreeEntry {
    pub path: String,
    pub stage: ArtifactMaterializationStage,
}

/// What a listing shows of one artifact.
#[derive(Clone, Debug, PartialEq, Eq)]
pub enum PathData {
    /// On disk, last used in the given second since the epoch.
    Materialized(i64),
    /// Declared, with the method by which it will be materialized.
    Declared(String),
}

/// The mathematical content of `PathData`.
pub enum PathDataView {
    Materialized(i64),
    Declared(Seq<char>),
}

impl View for PathData {
    type V = PathDataView;

    open spec fn view(&self) -> PathDataView {
        match self {
            PathData::Materialized(secs) => PathDataView::Materialized(*secs),
            PathData::Declared(method) => PathDataView::Declared(method@),
        }
    }
}

/// What a listing shows of an artifact at the given stage: the method of a declared
/// artifact, and the second in which a materialized one was last used, without the
/// nanoseconds.
pub open spec fn shown(stage: ArtifactMaterializationStage) -> PathDataView {
    match stage {
        ArtifactMaterializationStage::Declared { method } => PathDataView::Declared(method@),
        ArtifactMaterializationStage::Materialized { last_access_secs, .. } => {
            PathDataView::Materialized(last_access_secs)
        },
    }
}

/// What a listing shows of an artifact at the given stage.
pub fn path_data_of(stage: &ArtifactMaterializationStage) -> (d: PathData)
    ensures
        d@ == shown(*stage),
{
    match stage {
        ArtifactMaterializationStage::Declared { method } => PathData::Declared(method.clone()),
        ArtifactMaterializationStage::Materialized { last_access_secs, .. } => {
            PathData::Materialized(*last_access_secs)
        },
    }
}

/// The listing of a tree: for every artifact, in the order of the tree, its path and
/// what is shown of it.
pub fn iterate(tree: &Vec<TreeEntry>) -> (listing: Vec<(String, PathData)>)
    ensures
        listing@.len() == tree@.len(),
        forall|i: int|
            0 <= i < tree@.len() ==> (#[trigger] listing@[i]).0@ == tree@[i].path@ && listing@[i].1@
                == shown(tree@[i].stage),
{
    let n: usize = tree.len();
    let mut listing: Vec<(String, PathData)> = Vec::new();
    let mut i: usize = 0;
    while i < n
        invariant
            i <= n,
            n == tree@.len(),
            listing@.len() == i,
            forall|j: int|
                0 <= j < i ==> (#[trigger] listing@[j]).0@ == tree@[j].path@ && listing@[j].1@
                    == shown(tree@[j].stage),
        decreases n - i,
    {
        let path: String = tree[i].path.clone();
        let data: PathData = path_data_of(&tree[i].stage);
        listing.push((path, data));
        i = i + 1;
    }
    listing
}

/// How chrono writes, for debugging, the UTC time that lies `secs` seconds after the
/// epoch; `None` where chrono has no such time.
pub uninterp spec fn utc_debug_text(secs: i64) -> Option<Seq<char>>;

/// Calls `TimeZone::timestamp_opt` of chrono on `Utc`, with the seconds given and no
/// nanoseconds, and formats the one time that comes back with its `Debug` impl. The
/// result is a function of the seconds alone, which the contract names; where chrono
/// gives no time, the result is `None`.
#[verifier::external_body]
fn utc_debug(secs: i64) -> (r: Option<String>)
    ensures
        r is Some == utc_debug_text(secs) is Some,
        r matches Some(s) ==> utc_debug_text(secs) == Some(s@),
{
    match chrono::TimeZone::timestamp_opt(&chrono::Utc, secs, 0).single() {
        Some(t) => Some(format!("{:?}", t)),
        None => None,
    }
}

/// What is written of a materialized artifact, given the time as text.
pub open spec fn materialized_text(stamp: Seq<char>) -> Seq<char> {
    "materialized (ts="@ + stamp + ")"@
}

/// What is written of a declared artifact.
pub open spec fn declared_text(method: Seq<char>) -> Seq<char> {
    "declared: "@ + method
}

/// What is written of a materialized artifact, given the time as text.
pub fn write_materialized(stamp: &str) -> (s: String)
    ensures
        s@ == materialized_text(stamp@),
{
    let mut s: String = String::from_str("materialized (ts=");
    s.append(stamp);
    s.append(")");
    s
}

/// What is written of a declared artifact.
pub fn write_declared(method: &str) -> (s: String)
    ensures
        s@ == declared_text(method@),
{
    let mut s: String = String::from_str("declared: ");
    s.append(method);
    s
}

/// What is written of what a listing shows, given how the time of a materialized
/// artifact is written.
pub open spec fn described(data: PathDataView, stamp: Option<Seq<char>>) -> Option<Seq<char>> {
    match data {
        PathDataView::Declared(method) => Some(declared_text(method)),
        PathDataView::Materialized(_) => match stamp {
            Some(t) => Some(materialized_text(t)),
            None => None,
        },
    }
}

/// The text of an optional string.
pub open spec fn shown_text(s: Option<String>) -> Option<Seq<char>> {
    match s {
        Some(t) => Some(t@),
        None => None,
    }
}

impl PathData {
    /// What is written of the artifact, with the time of a materialized artifact
    /// written as `stamp`; nothing where a materialized artifact has no such text.
    pub fn with_stamp(&self, stamp: Option<String>) -> (r: Option<String>)
        ensures
            shown_text(r) == described(self@, shown_text(stamp)),
    {
        match self {
            PathData::Declared(method) => Some(write_declared(method.as_str())),
            PathData::Materialized(_) => match stamp {
                Some(t) => Some(write_materialized(t.as_str())),
                None => None,
            },
        }
    }

    /// What is written of the artifact: `declared: ` and the method, or
    /// `materialized (ts=` and the time as chrono writes it for debugging, then `)`.
    /// Nothing is written of a time that chrono cannot represent.
    pub fn describe(&self) -> (r: Option<String>)
        ensures
            shown_text(r) == described(
                self@,
                match self@ {
                    PathDataView::Materialized(secs) => utc_debug_text(secs),
                    PathDataView::Declared(_) => None,
                },
            ),
    {
        match self {
            PathData::Declared(_) => self.with_stamp(None),
            PathData::Materialized(secs) => self.with_stamp(utc_debug(*secs)),
        }
    }
}

/// The most seconds, in either direction, that chrono takes as a span of time: a
/// span is counted in milliseconds and must fit 64 bits.
pub const MAX_TTL_SECONDS: i64 = 9_223_372_036_854_775;

/// Calls `TimeDelta::try_seconds` of chrono and tells whether it gave a span. By
/// chrono's documentation it gives none exactly where the seconds are more than
/// `i64::MAX / 1_000` or less than `-i64::MAX / 1_000`.
#[verifier::external_body]
fn is_time_span(seconds: i64) -> (r: bool)
    ensures
        r == (-MAX_TTL_SECONDS <= seconds <= MAX_TTL_SECONDS),
{
    chrono::TimeDelta::try_seconds(seconds).is_some()
}

/// The request to refresh the time to live of the artifacts that the remote side
/// holds: the least time to live that is asked for, in seconds.
#[derive(Clone, Copy, Debug, PartialEq, Eq, Structural)]
pub struct RefreshTtls {
    pub min_ttl: i64,
}

impl RefreshTtls {
    /// The request for the least time to live `min_ttl`, where that is a span of time
    /// that can be counted; `None` where it is not.
    pub fn new(min_ttl: i64) -> (r: Option<RefreshTtls>)
        ensures
            -MAX_TTL_SECONDS <= min_ttl <= MAX_TTL_SECONDS ==> r == Some(RefreshTtls { min_ttl }),
            !(-MAX_TTL_SECONDS <= min_ttl <= MAX_TTL_SECONDS) ==> r is None,
    {
        if is_time_span(min_ttl) {
            Some(RefreshTtls { min_ttl })
        } else {
            None
        }
    }
}

/// The line that reports how long `count` walks of the tree took, by the way of
/// walking and the time as text.
pub open spec fn elapsed_line(walk: Seq<char>, count: nat, elapsed: Seq<char>) -> Seq<char> {
    "Elapsed for "@ + walk + " ("@ + decimal_text(count) + " times): "@ + elapsed + "\n"@
}

/// The report of a test of the tree's iterators: one line for the walks without
/// paths and one for the walks with paths.
pub open spec fn iteration_report(count: nat, plain: Seq<char>, with_paths: Seq<char>) -> Seq<
    char,
> {
    elapsed_line("iter()"@, count, plain) + elapsed_line("iter().with_paths()"@, count, with_paths)
}

/// Appends one line of the report.
fn push_elapsed_line(out: &mut String, walk: &str, count: usize, elapsed: &str)
    ensures
        final(out)@ == old(out)@ + elapsed_line(walk@, count as nat, elapsed@),
{
    let ghost before = out@;
    out.append("Elapsed for ");
    out.append(walk);
    out.append(" (");
    push_decimal_text(out, count as u64);
    out.append(" times): ");
    out.append(elapsed);
    out.append("\n");
    assert(out@ =~= before + elapsed_line(walk@, count as nat, elapsed@));
}

/// The report of a test of the tree's iterators, given the number of walks and the
/// time that each kind of walk took, as text.
pub fn test_iter_report(count: usize, plain: &str, with_paths: &str) -> (r: String)
    ensures
        r@ == iteration_report(count as nat, plain@, with_paths@),
{
    let mut r: String = String::new();
    push_elapsed_line(&mut r, "iter()", count, plain);
    push_elapsed_line(&mut r, "iter().with_paths()", count, with_paths);
    assert(r@ =~= iteration_report(count as nat, plain@, with_paths@));
    r
}

} // verus!
