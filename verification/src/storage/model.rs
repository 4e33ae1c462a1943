//! What a finished sweep hands to the cost models.
//!
//! A model prices only what the sweep measured: a cell that is missing an input
//! gives no row, not a row priced at zero. The prices are floating point, and
//! no part of this.

use crate::storage::document::DocumentCell;
use crate::text::same_text;
use vstd::prelude::*;

verus! {

/// What a model prices.
#[derive(Debug, Clone, Copy, PartialEq, Eq, Structural)]
pub enum Priced {
    /// What a remote store would charge: a round trip per request, and the
    /// bytes.
    Remote { requests: u64, bytes: u64 },
    /// What keeping a tree in sync would charge: a cost per filesystem entry.
    Sync { entries: u64 },
}

/// The name that a price is published under.
pub open spec fn price_name(p: Priced) -> Seq<char> {
    match p {
        Priced::Remote { .. } => "remote_cost_ms"@,
        Priced::Sync { .. } => "sync_cost_ms"@,
    }
}

impl Priced {
    /// The name that a price is published under.
    pub fn name(self) -> (out: &'static str)
        ensures
            out@ == price_name(self),
    {
        match self {
            Priced::Remote { .. } => "remote_cost_ms",
            Priced::Sync { .. } => "sync_cost_ms",
        }
    }
}

/// What is to be priced, and for which backend at which scale.
#[derive(Debug)]
pub struct PricedEntry {
    pub library: String,
    pub scale: u32,
    pub priced: Priced,
}

/// A [`PricedEntry`], as text.
pub struct PricedModel {
    pub library: Seq<char>,
    pub scale: u32,
    pub priced: Priced,
}

impl View for PricedEntry {
    type V = PricedModel;

    open spec fn view(&self) -> PricedModel {
        PricedModel { library: self.library@, scale: self.scale, priced: self.priced }
    }
}

/// A list of entries, as texts.
pub open spec fn priced_models(v: Seq<PricedEntry>) -> Seq<PricedModel> {
    Seq::new(v.len(), |i: int| v[i]@)
}

/// Whether two entries are the same price of the same thing.
pub open spec fn same_price(a: PricedModel, b: PricedModel) -> bool {
    a.library == b.library && a.scale == b.scale && (a.priced is Remote <==> b.priced is Remote)
}

/// Whether a list has an entry that is the same price.
pub open spec fn has_price(list: Seq<PricedModel>, e: PricedModel) -> bool {
    exists|i: int| 0 <= i < list.len() && same_price(#[trigger] list[i], e)
}

/// A list with an entry behind the others, unless it has one already.
pub open spec fn with_price(list: Seq<PricedModel>, e: Option<PricedModel>) -> Seq<PricedModel> {
    match e {
        None => list,
        Some(e) => if has_price(list, e) {
            list
        } else {
            list.push(e)
        },
    }
}

/// What a cell gives the remote model: requests and bytes, where both were
/// counted.
pub open spec fn remote_of(cell: DocumentCell) -> Option<PricedModel> {
    match (cell.invariants.invariants.requests, cell.invariants.invariants.request_bytes) {
        (Some(requests), Some(bytes)) => Some(
            PricedModel {
                library: cell.backend@,
                scale: cell.scale,
                priced: Priced::Remote { requests, bytes },
            },
        ),
        _ => None,
    }
}

/// What a cell gives the sync model: its filesystem entries, where they were
/// counted.
pub open spec fn sync_of(cell: DocumentCell) -> Option<PricedModel> {
    match cell.invariants.invariants.filesystem_entries {
        Some(entries) => Some(
            PricedModel {
                library: cell.backend@,
                scale: cell.scale,
                priced: Priced::Sync { entries },
            },
        ),
        None => None,
    }
}

/// What the first `n` cells of a sweep hand to the models.
pub open spec fn priced_in(cells: Seq<DocumentCell>, n: int) -> Seq<PricedModel>
    decreases n,
{
    if n <= 0 {
        Seq::empty()
    } else {
        with_price(
            with_price(priced_in(cells, n - 1), remote_of(cells[n - 1])),
            sync_of(cells[n - 1]),
        )
    }
}

/// Whether a price is one of a kind.
fn same_kind(a: Priced, b: Priced) -> (same: bool)
    ensures
        same == (a is Remote <==> b is Remote),
{
    match (a, b) {
        (Priced::Remote { .. }, Priced::Remote { .. }) => true,
        (Priced::Sync { .. }, Priced::Sync { .. }) => true,
        _ => false,
    }
}

/// A list with an entry behind the others, unless it has one already.
fn add_price(list: &mut Vec<PricedEntry>, cell: &DocumentCell, priced: Priced)
    ensures
        priced_models(final(list)@) == with_price(
            priced_models(old(list)@),
            Some(PricedModel { library: cell.backend@, scale: cell.scale, priced }),
        ),
{
    let ghost model = priced_models(list@);
    let ghost e = PricedModel { library: cell.backend@, scale: cell.scale, priced };
    let mut i: usize = 0;
    while i < list.len()
        invariant
            i <= list@.len(),
            list@ == old(list)@,
            model == priced_models(list@),
            e == (PricedModel { library: cell.backend@, scale: cell.scale, priced }),
            forall|k: int| 0 <= k < i ==> !same_price(#[trigger] model[k], e),
        decreases list@.len() - i,
    {
        assert(model[i as int] == list@[i as int]@);
        if same_text(list[i].library.as_str(), cell.backend.as_str()) && list[i].scale
            == cell.scale && same_kind(list[i].priced, priced) {
            assert(same_price(model[i as int], e));
            return ;
        }
        i = i + 1;
    }
    list.push(PricedEntry { library: cell.backend.clone(), scale: cell.scale, priced });
    assert(priced_models(list@) =~= model.push(e));
}

/// What a finished sweep hands to the models, in the order it was measured: each
/// price of a backend at a scale once.
pub fn entries_for(cells: &Vec<DocumentCell>) -> (out: Vec<PricedEntry>)
    ensures
        priced_models(out@) == priced_in(cells@, cells@.len() as int),
{
    let mut out: Vec<PricedEntry> = Vec::new();
    let mut i: usize = 0;
    assert(priced_models(out@) =~= priced_in(cells@, 0));
    while i < cells.len()
        invariant
            i <= cells@.len(),
            priced_models(out@) == priced_in(cells@, i as int),
        decreases cells@.len() - i,
    {
        let cell: &DocumentCell = &cells[i];
        if let Some(requests) = cell.invariants.invariants.requests {
            if let Some(bytes) = cell.invariants.invariants.request_bytes {
                add_price(&mut out, cell, Priced::Remote { requests, bytes });
            }
        }
        if let Some(entries) = cell.invariants.invariants.filesystem_entries {
            add_price(&mut out, cell, Priced::Sync { entries });
        }
        i = i + 1;
    }
    out
}

/// Every price is of something that a cell of the sweep measured, and no price
/// stands twice.
pub proof fn law_only_the_measured_is_priced(cells: Seq<DocumentCell>, n: int, a: int, b: int)
    requires
        0 <= n <= cells.len(),
    ensures
        0 <= a < priced_in(cells, n).len() ==> exists|c: int|
            0 <= c < n && (remote_of(#[trigger] cells[c]) == Some(priced_in(cells, n)[a])
                || sync_of(cells[c]) == Some(priced_in(cells, n)[a])),
        0 <= a < b < priced_in(cells, n).len() ==> !same_price(
            priced_in(cells, n)[a],
            priced_in(cells, n)[b],
        ),
    decreases n,
{
    if n > 0 {
        law_only_the_measured_is_priced(cells, n - 1, a, b);
        let before = priced_in(cells, n - 1);
        let (remote, sync) = (remote_of(cells[n - 1]), sync_of(cells[n - 1]));
        let half = with_price(before, remote);
        let after = priced_in(cells, n);
        if a >= before.len() && 0 <= a < after.len() {
            assert(remote == Some(after[a]) || sync == Some(after[a]));
        }
        if 0 <= a < b < after.len() && b >= before.len() {
            if b < half.len() {
                assert(after[a] == before[a]);
                assert(!same_price(before[a], remote->0));
            } else {
                assert(after[a] == half[a]);
                assert(!same_price(half[a], sync->0));
            }
        }
    }
}

} // verus!
