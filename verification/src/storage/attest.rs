//! Whether the thing a cell says it measured is the thing that ran.
//!
//! Two observations decide, and neither is a read of the cell's own label. The
//! archive's root directory is walked and its entries are classified, and a
//! seeded sample of coordinates is read back from both backends and compared
//! byte for byte. The declared regime is only ever the other side of a
//! comparison.

pub use crate::storage::cells::Regime;

use crate::text::{concat3, decimal, decimal_text, hex_text, hexadecimal, strings};
use vstd::prelude::*;

verus! {

/// The word a document uses for a regime.
pub open spec fn regime_text(regime: Regime) -> Seq<char> {
    match regime {
        Regime::Root => "root"@,
        Regime::Leaves => "leaf"@,
    }
}

/// The word a document uses for a regime.
pub fn regime_word(regime: Regime) -> (out: &'static str)
    ensures
        out@ == regime_text(regime),
{
    match regime {
        Regime::Root => "root",
        Regime::Leaves => "leaf",
    }
}

/// What a single root-directory entry points at, as read out of the archive.
#[derive(Debug, Clone, Copy, PartialEq, Eq, Structural)]
pub enum RootEntry {
    /// An entry addressing a tile directly.
    Tile,
    /// An entry addressing a leaf directory.
    LeafPointer,
}

/// The archive as it was found on disk, never as it was described.
#[derive(Debug, Clone, PartialEq, Eq)]
pub struct ObservedArchive {
    /// Which backend produced it: `pmtiles` or `directory`.
    pub backend: String,
    /// Every entry of the root directory, classified. Empty means nothing was
    /// observed, which is a refusal and not a regime.
    pub root_entries: Vec<RootEntry>,
    /// How many leaf directories the archive actually has.
    pub leaf_directories: u64,
    /// How many tiles it holds.
    pub tiles: u64,
}

/// An [`ObservedArchive`], as texts and sequences.
pub struct ArchiveModel {
    pub backend: Seq<char>,
    pub root_entries: Seq<RootEntry>,
    pub leaf_directories: u64,
    pub tiles: u64,
}

impl View for ObservedArchive {
    type V = ArchiveModel;

    open spec fn view(&self) -> ArchiveModel {
        ArchiveModel {
            backend: self.backend@,
            root_entries: self.root_entries@,
            leaf_directories: self.leaf_directories,
            tiles: self.tiles,
        }
    }
}

/// How many of the first `n` entries point at a leaf.
pub open spec fn leaf_pointers(entries: Seq<RootEntry>, n: int) -> nat
    decreases n,
{
    if n <= 0 {
        0
    } else {
        leaf_pointers(entries, n - 1) + (if entries[n - 1] == RootEntry::LeafPointer {
            1nat
        } else {
            0
        })
    }
}

/// The regime that root entries show.
pub open spec fn regime_of(entries: Seq<RootEntry>) -> Option<Regime> {
    if entries.len() == 0 {
        None
    } else if exists|i: int| 0 <= i < entries.len() && entries[i] == RootEntry::LeafPointer {
        Some(Regime::Leaves)
    } else {
        Some(Regime::Root)
    }
}

impl ObservedArchive {
    /// The regime this archive is in, worked out from what was seen. `None` when
    /// the root directory was empty: an archive nobody managed to read is not in
    /// a regime, it is unobserved.
    pub fn observed_regime(&self) -> (got: Option<Regime>)
        ensures
            got == regime_of(self.root_entries@),
    {
        if self.root_entries.len() == 0 {
            return None;
        }
        let mut i: usize = 0;
        while i < self.root_entries.len()
            invariant
                i <= self.root_entries@.len(),
                forall|k: int|
                    0 <= k < i ==> #[trigger] self.root_entries@[k] != RootEntry::LeafPointer,
            decreases self.root_entries@.len() - i,
        {
            if self.root_entries[i] == RootEntry::LeafPointer {
                return Some(Regime::Leaves);
            }
            i = i + 1;
        }
        Some(Regime::Root)
    }

    /// How many root entries point at a leaf.
    fn count_leaf_pointers(&self) -> (n: usize)
        ensures
            n == leaf_pointers(self.root_entries@, self.root_entries@.len() as int),
    {
        let mut n: usize = 0;
        let mut i: usize = 0;
        while i < self.root_entries.len()
            invariant
                i <= self.root_entries@.len(),
                n <= i,
                n == leaf_pointers(self.root_entries@, i as int),
            decreases self.root_entries@.len() - i,
        {
            if self.root_entries[i] == RootEntry::LeafPointer {
                n = n + 1;
            }
            i = i + 1;
        }
        n
    }
}

/// The seeded byte-equivalence check between the two backends.
#[derive(Debug, Clone, Copy, PartialEq, Eq, Structural)]
pub struct EquivalenceSample {
    /// The seed the coordinates were drawn from, so the sample is reproducible.
    pub seed: u64,
    /// How many coordinates were drawn.
    pub sampled: u32,
    /// How many returned identical bytes from both backends.
    pub matched: u32,
}

/// The smallest sample that counts. It is an agreement check, so a single
/// mismatch is fatal, and a smaller sample is refused rather than scaled down.
pub const MIN_EQUIVALENCE_SAMPLE: u32 = 64;

/// The verdict.
#[derive(Debug, Clone, PartialEq, Eq)]
pub enum Attestation {
    /// Both observations agree with the cell's declaration.
    Attested {
        /// The regime that was seen, which equals the one declared.
        observed_regime: Regime,
        /// The sample that was compared.
        equivalence: EquivalenceSample,
    },
    /// At least one observation contradicts the declaration, or could not be
    /// made at all. Every reason is reported, not the first.
    Refused {
        /// Why, in words, one entry per failed observation.
        reasons: Vec<String>,
    },
}

/// The refusal reasons of a verdict.
pub open spec fn verdict_reasons(a: Attestation) -> Seq<Seq<char>> {
    match a {
        Attestation::Attested { .. } => Seq::empty(),
        Attestation::Refused { reasons } => strings(reasons@),
    }
}

impl Attestation {
    /// Whether the cell may carry `attested: true`.
    pub fn is_attested(&self) -> (yes: bool)
        ensures
            yes == (*self is Attested),
    {
        match self {
            Attestation::Attested { .. } => true,
            Attestation::Refused { .. } => false,
        }
    }

    /// The refusal reasons, empty when attested.
    pub fn reasons(&self) -> (out: Vec<String>)
        ensures
            strings(out@) == verdict_reasons(*self),
    {
        let mut out: Vec<String> = Vec::new();
        match self {
            Attestation::Attested { .. } => {},
            Attestation::Refused { reasons } => {
                let mut i: usize = 0;
                while i < reasons.len()
                    invariant
                        i <= reasons@.len(),
                        out@.len() == i,
                        forall|k: int| 0 <= k < i ==> (#[trigger] out@[k])@ == reasons@[k]@,
                    decreases reasons@.len() - i,
                {
                    out.push(reasons[i].clone());
                    i = i + 1;
                }
            },
        }
        assert(strings(out@) =~= verdict_reasons(*self));
        out
    }
}

/// Whether the leaf directories of an archive fit the regime its root shows.
pub open spec fn leaves_fit(seen: Regime, leaf_directories: u64) -> bool {
    match seen {
        Regime::Root => leaf_directories == 0,
        Regime::Leaves => leaf_directories > 0,
    }
}

/// What the shape of an archive says against a declared regime.
pub open spec fn shape_reasons(declared: Regime, archive: ArchiveModel) -> Seq<Seq<char>> {
    let backend = archive.backend;
    match regime_of(archive.root_entries) {
        None => seq![
            "the "@ + backend
                + " archive's root directory has no entries, so no regime was observed and the cell's declared regime '"@
                + regime_text(declared) + "' rests on nothing"@,
        ],
        Some(seen) => (if seen != declared {
            seq![
                "the cell declares the '"@ + regime_text(declared) + "' regime and the "@ + backend
                    + " archive is in the '"@ + regime_text(seen)
                    + "' one: its root directory holds "@ + decimal(archive.root_entries.len())
                    + " entries of which "@ + decimal(
                    leaf_pointers(archive.root_entries, archive.root_entries.len() as int),
                ) + " point at leaf directories, and it has "@ + decimal(
                    archive.leaf_directories as nat,
                ) + " leaf directories"@,
            ]
        } else {
            Seq::empty()
        }) + (if !leaves_fit(seen, archive.leaf_directories) {
            seq![
                "the "@ + backend + " archive's root directory reads as the '"@ + regime_text(seen)
                    + "' regime while it reports "@ + decimal(archive.leaf_directories as nat)
                    + " leaf directories, so the two observations of one archive disagree"@,
            ]
        } else {
            Seq::empty()
        }),
    }
}

/// What the bytes of two backends say against their being one workload.
pub open spec fn byte_reasons(e: EquivalenceSample) -> Seq<Seq<char>> {
    (if e.sampled < MIN_EQUIVALENCE_SAMPLE {
        seq![
            "byte equivalence was checked over "@ + decimal(e.sampled as nat)
                + " coordinates and the floor is "@ + decimal(MIN_EQUIVALENCE_SAMPLE as nat),
        ]
    } else {
        Seq::empty()
    }) + (if e.matched != e.sampled {
        seq![
            decimal((e.sampled - e.matched) as nat) + " of "@ + decimal(e.sampled as nat)
                + " sampled coordinates returned different bytes from the two backends (seed 0x"@
                + hexadecimal(e.seed as nat)
                + "), so they are not two measurements of one workload"@,
        ]
    } else {
        Seq::empty()
    })
}

/// Every reason against a declared regime.
pub open spec fn attest_reasons(
    declared: Regime,
    archive: ArchiveModel,
    e: EquivalenceSample,
) -> Seq<Seq<char>> {
    shape_reasons(declared, archive) + byte_reasons(e)
}

/// What the shape of an archive says against a declared regime.
fn push_shape_reasons(declared: Regime, archive: &ObservedArchive, reasons: &mut Vec<String>)
    ensures
        strings(final(reasons)@) == strings(old(reasons)@) + shape_reasons(declared, archive@),
{
    let ghost before = strings(reasons@);
    match archive.observed_regime() {
        None => {
            let mut text: String = concat3(
                "the ",
                archive.backend.as_str(),
                " archive's root directory has no entries, so no regime was observed and the cell's declared regime '",
            );
            text.append(regime_word(declared));
            text.append("' rests on nothing");
            reasons.push(text);
        },
        Some(seen) => {
            if seen != declared {
                let mut text: String = concat3(
                    "the cell declares the '",
                    regime_word(declared),
                    "' regime and the ",
                );
                text.append(archive.backend.as_str());
                text.append(" archive is in the '");
                text.append(regime_word(seen));
                text.append("' one: its root directory holds ");
                text.append(decimal_text(archive.root_entries.len() as u128).as_str());
                text.append(" entries of which ");
                text.append(decimal_text(archive.count_leaf_pointers() as u128).as_str());
                text.append(" point at leaf directories, and it has ");
                text.append(decimal_text(archive.leaf_directories as u128).as_str());
                text.append(" leaf directories");
                reasons.push(text);
            }
            let fits = match seen {
                Regime::Root => archive.leaf_directories == 0,
                Regime::Leaves => archive.leaf_directories > 0,
            };
            if !fits {
                let mut text: String = concat3(
                    "the ",
                    archive.backend.as_str(),
                    " archive's root directory reads as the '",
                );
                text.append(regime_word(seen));
                text.append("' regime while it reports ");
                text.append(decimal_text(archive.leaf_directories as u128).as_str());
                text.append(
                    " leaf directories, so the two observations of one archive disagree",
                );
                reasons.push(text);
            }
        },
    }
    assert(strings(reasons@) =~= before + shape_reasons(declared, archive@));
}

/// What the bytes of two backends say against their being one workload.
fn push_byte_reasons(e: &EquivalenceSample, reasons: &mut Vec<String>)
    requires
        e.matched <= e.sampled,
    ensures
        strings(final(reasons)@) == strings(old(reasons)@) + byte_reasons(*e),
{
    let ghost before = strings(reasons@);
    if e.sampled < MIN_EQUIVALENCE_SAMPLE {
        let mut text: String = concat3(
            "byte equivalence was checked over ",
            decimal_text(e.sampled as u128).as_str(),
            " coordinates and the floor is ",
        );
        text.append(decimal_text(MIN_EQUIVALENCE_SAMPLE as u128).as_str());
        reasons.push(text);
    }
    if e.matched != e.sampled {
        let mut text: String = concat3(
            decimal_text((e.sampled - e.matched) as u128).as_str(),
            " of ",
            decimal_text(e.sampled as u128).as_str(),
        );
        text.append(" sampled coordinates returned different bytes from the two backends (seed 0x");
        text.append(hex_text(e.seed).as_str());
        text.append("), so they are not two measurements of one workload");
        reasons.push(text);
    }
    assert(strings(reasons@) =~= before + byte_reasons(*e));
}

/// Attest a cell against what was observed.
///
/// `declared` is the regime the cell claims. It is used for exactly one thing:
/// as one side of a comparison against the regime read out of `archive`.
pub fn attest(
    declared: Regime,
    archive: &ObservedArchive,
    equivalence: &EquivalenceSample,
) -> (verdict: Attestation)
    requires
        equivalence.matched <= equivalence.sampled,
    ensures
        attest_reasons(declared, archive@, *equivalence).len() == 0 ==> regime_of(
            archive.root_entries@,
        ) is Some && verdict == (Attestation::Attested {
            observed_regime: regime_of(archive.root_entries@)->0,
            equivalence: *equivalence,
        }),
        attest_reasons(declared, archive@, *equivalence).len() > 0 ==> verdict is Refused
            && verdict_reasons(verdict) == attest_reasons(declared, archive@, *equivalence),
        verdict is Attested <==> {
            &&& archive.root_entries@.len() > 0
            &&& declared == Regime::Root ==> archive.leaf_directories == 0 && forall|i: int|
                0 <= i < archive.root_entries@.len() ==> #[trigger] archive.root_entries@[i]
                    != RootEntry::LeafPointer
            &&& declared == Regime::Leaves ==> archive.leaf_directories > 0 && exists|i: int|
                0 <= i < archive.root_entries@.len() && #[trigger] archive.root_entries@[i]
                    == RootEntry::LeafPointer
            &&& equivalence.sampled >= 64
            &&& equivalence.matched == equivalence.sampled
        },
        verdict matches Attestation::Attested { observed_regime, equivalence: kept }
            ==> observed_regime == declared && kept == *equivalence,
        verdict matches Attestation::Refused { reasons } ==> reasons@.len() > 0,
{
    proof {
        law_attested_iff_observed(declared, archive@, *equivalence);
    }
    let mut reasons: Vec<String> = Vec::new();
    assert(strings(reasons@) =~= Seq::<Seq<char>>::empty());
    push_shape_reasons(declared, archive, &mut reasons);
    push_byte_reasons(equivalence, &mut reasons);
    assert(strings(reasons@) =~= attest_reasons(declared, archive@, *equivalence));
    assert(strings(reasons@).len() == reasons@.len());
    if reasons.len() > 0 {
        return Attestation::Refused { reasons };
    }
    match archive.observed_regime() {
        Some(seen) => Attestation::Attested { observed_regime: seen, equivalence: *equivalence },
        None => Attestation::Refused { reasons },
    }
}

/// A cell is attested exactly where the regime that was seen is the one it
/// declares, the leaf directories fit it, and a large enough sample agreed in
/// every coordinate.
pub proof fn law_attested_iff_observed(
    declared: Regime,
    archive: ArchiveModel,
    e: EquivalenceSample,
)
    ensures
        attest_reasons(declared, archive, e).len() == 0 <==> {
            &&& regime_of(archive.root_entries) == Some(declared)
            &&& leaves_fit(declared, archive.leaf_directories)
            &&& e.sampled >= MIN_EQUIVALENCE_SAMPLE
            &&& e.matched == e.sampled
        },
{
}

} // verus!
